use infers_jsonschema::engine::{infer_string, infer_value, Keying};
use infers_jsonschema::format::{
    choose_format, date_shaped, digit_of, infer_format, parses_as_i32,
};
use infers_jsonschema::fragment::{Format, Fragment};
use infers_jsonschema::json::Json;

#[test]
fn integer_literals_are_recognised() {
    for text in ["0", "1", "-1", "+1", "007", "-0", "+0", "2147483647", "-2147483648"] {
        assert!(parses_as_i32(text), "{text}");
        assert_eq!(text.parse::<i32>().is_ok(), true, "{text}");
    }
}

#[test]
fn integer_literals_out_of_range_are_refused() {
    for text in [
        "2147483648",
        "+2147483648",
        "-2147483649",
        "99999999999999999999999999999999",
        "-99999999999999999999999999999999",
    ] {
        assert!(!parses_as_i32(text), "{text}");
        assert!(text.parse::<i32>().is_err(), "{text}");
    }
}

#[test]
fn leading_zeros_do_not_overflow() {
    assert!(parses_as_i32("000000000000000000000000000002147483647"));
    assert!(parses_as_i32("-000000000000000000000000000002147483648"));
    assert!(!parses_as_i32("000000000000000000000000000002147483648"));
}

#[test]
fn what_is_no_integer_literal_is_refused() {
    for text in [
        "", "+", "-", "--1", "+-1", "1+", " 1", "1 ", "1.0", "1e3", "0x10", "1_000", "one", "١", "1\n",
    ] {
        assert!(!parses_as_i32(text), "{text:?}");
        assert!(text.parse::<i32>().is_err(), "{text:?}");
    }
}

#[test]
fn the_recogniser_agrees_with_the_standard_parser() {
    let samples = [
        "12", "-12", "+12", "2147483646", "2147483647", "2147483648", "-2147483647",
        "-2147483648", "-2147483649", "21474836470", "a1", "1a", "", "+", "٣", "00", "-00",
    ];
    for text in samples {
        assert_eq!(parses_as_i32(text), text.parse::<i32>().is_ok(), "{text:?}");
    }
}

#[test]
fn digits_have_their_values() {
    assert_eq!(digit_of('0'), Some(0));
    assert_eq!(digit_of('7'), Some(7));
    assert_eq!(digit_of('9'), Some(9));
    assert_eq!(digit_of('a'), None);
    assert_eq!(digit_of('/'), None);
    assert_eq!(digit_of(':'), None);
    assert_eq!(digit_of('٣'), None);
}

#[test]
fn an_integer_wins_over_a_date_and_a_date_over_a_timestamp() {
    assert_eq!(choose_format(true, true, true), Some(Format::Integer));
    assert_eq!(choose_format(true, false, false), Some(Format::Integer));
    assert_eq!(choose_format(false, true, true), Some(Format::Date));
    assert_eq!(choose_format(false, true, false), Some(Format::Date));
    assert_eq!(choose_format(false, false, true), Some(Format::DateTime));
    assert_eq!(choose_format(false, false, false), None);
}

#[test]
fn format_precedence() {
    assert_eq!(infer_format("1"), Some(Format::Integer));
    assert_eq!(infer_format("2020-01-01"), Some(Format::Date));
    assert_eq!(infer_format("2018-11-13T20:20:39+00:00"), Some(Format::DateTime));
    assert_eq!(infer_format("hello"), None);
}

#[test]
fn dates_must_be_on_the_calendar() {
    assert_eq!(infer_format("2020-02-29"), Some(Format::Date));
    assert_eq!(infer_format("2021-02-29"), None);
    assert_eq!(infer_format("2020-13-01"), None);
    assert_eq!(infer_format("2020-00-10"), None);
    assert_eq!(infer_format("2020-01-32"), None);
    assert_eq!(infer_format("2020/01/01"), None);
    assert_eq!(infer_format("2020-01-01 and more"), None);
}

#[test]
fn a_date_is_written_in_full() {
    for text in ["2020-01-01", "0000-00-00", "9999-99-99", "2021-02-29"] {
        assert!(date_shaped(text), "{text:?}");
    }
    for text in [
        "",
        "2020-1-1",
        "2014-5-17",
        "2020-01-1",
        " 2020-01-01",
        "2020-01-01 ",
        "+2020-01-01",
        "02020-01-01",
        "2020-0101",
        "2020_01_01",
        "2020-01-0a",
        "٢٠٢٠-01-01",
        "2020-01-011",
    ] {
        assert!(!date_shaped(text), "{text:?}");
        assert_eq!(infer_format(text), None, "{text:?}");
    }
}

#[test]
fn a_date_the_parser_would_take_is_still_refused_when_not_written_in_full() {
    assert!(chrono::NaiveDate::parse_from_str("2014-5-17", "%Y-%m-%d").is_ok());
    assert_eq!(infer_format("2014-5-17"), None);
    assert!(chrono::NaiveDate::parse_from_str("2014-05-17", "%Y-%m-%d").is_ok());
    assert_eq!(infer_format("2014-05-17"), Some(Format::Date));
}

#[test]
fn the_parser_decides_between_well_written_dates() {
    for text in ["2020-02-29", "1999-12-31", "2000-02-29", "0001-01-01"] {
        assert!(chrono::NaiveDate::parse_from_str(text, "%Y-%m-%d").is_ok());
        assert_eq!(infer_format(text), Some(Format::Date), "{text:?}");
    }
    for text in ["2021-02-29", "1900-02-29", "2020-04-31", "2020-13-01", "2020-00-01", "2020-01-00"] {
        assert!(date_shaped(text));
        assert!(chrono::NaiveDate::parse_from_str(text, "%Y-%m-%d").is_err());
        assert_eq!(infer_format(text), None, "{text:?}");
    }
}

fn on_the_calendar(year: u32, month: u32, day: u32) -> bool {
    let leap = year % 4 == 0 && (year % 100 != 0 || year % 400 == 0);
    let days = match month {
        1 | 3 | 5 | 7 | 8 | 10 | 12 => 31,
        4 | 6 | 9 | 11 => 30,
        2 => {
            if leap {
                29
            } else {
                28
            }
        },
        _ => 0,
    };
    1 <= day && day <= days
}

#[test]
fn the_parser_keeps_the_calendar_for_every_date_written_in_full() {
    let mut years: Vec<u32> = vec![0, 1, 4, 100, 400, 1582, 1600, 1700, 1900, 1999, 2000, 2100, 9999];
    years.extend((3..10000).step_by(97));
    for year in years {
        for month in 0..=13u32 {
            for day in 0..=32u32 {
                let text = format!("{year:04}-{month:02}-{day:02}");
                let expected =
                    if on_the_calendar(year, month, day) { Some(Format::Date) } else { None };
                assert_eq!(infer_format(&text), expected, "{text}");
            }
        }
    }
}

#[test]
fn the_first_year_before_the_common_era_is_a_leap_year() {
    assert_eq!(infer_format("0000-02-29"), Some(Format::Date));
    assert_eq!(infer_format("0000-01-01"), Some(Format::Date));
    assert_eq!(infer_format("0100-02-29"), None);
    assert_eq!(infer_format("9999-12-31"), Some(Format::Date));
}

#[test]
fn timestamps_need_a_time_and_an_offset() {
    assert_eq!(infer_format("1996-12-19T16:39:57-08:00"), Some(Format::DateTime));
    assert_eq!(infer_format("2018-11-13T20:20:39Z"), Some(Format::DateTime));
    assert_eq!(infer_format("2018-11-13T20:20:39.123456+02:00"), Some(Format::DateTime));
    assert_eq!(infer_format("2018-11-13T20:20:39"), None);
    assert_eq!(infer_format("2018-11-13T25:20:39Z"), None);
    assert_eq!(infer_format("2018-02-30T20:20:39Z"), None);
    assert_eq!(infer_format("T20:20:39Z"), None);
}

#[test]
fn the_empty_string_has_no_format() {
    assert_eq!(infer_format(""), None);
    assert_eq!(infer_string("", true), Fragment::String(None));
}

#[test]
fn format_names_are_the_schema_keywords() {
    assert_eq!(Format::Integer.name(), "integer");
    assert_eq!(Format::Date.name(), "date");
    assert_eq!(Format::DateTime.name(), "date-time");
}

#[test]
fn strings_carry_the_format_only_when_asked() {
    assert_eq!(infer_string("2020-01-01", true), Fragment::String(Some(Format::Date)));
    assert_eq!(infer_string("2020-01-01", false), Fragment::String(None));
    assert_eq!(infer_string("42", true), Fragment::String(Some(Format::Integer)));
    assert_eq!(infer_string("42", false), Fragment::String(None));
    assert_eq!(infer_string("x", true), Fragment::String(None));
}

#[test]
fn format_opt_out_reaches_every_string() {
    let value = Json::Array(vec![
        Json::String("2020-01-01".to_string()),
        Json::Object(vec![
            ("when".to_string(), Json::String("2018-11-13T20:20:39+00:00".to_string())),
            ("many".to_string(), Json::Array(vec![Json::String("1".to_string())])),
        ]),
    ]);
    for keying in [Keying::Hash, Keying::Text] {
        let fragment = infer_value(&value, false, keying);
        assert!(carries_no_format(&fragment));
        let detected = infer_value(&value, true, keying);
        assert!(!carries_no_format(&detected));
    }
}

fn carries_no_format(fragment: &Fragment) -> bool {
    match fragment {
        Fragment::String(format) => format.is_none(),
        Fragment::Array(Some(items)) => carries_no_format(items),
        Fragment::Object { properties, .. } => properties.iter().all(|p| carries_no_format(&p.1)),
        Fragment::Union(variants) => variants.iter().all(carries_no_format),
        _ => true,
    }
}
