//! Recognising what a string holds: an integer, a calendar date, a timestamp.

use crate::fragment::Format;
use vstd::prelude::*;

verus! {

/// Whether `c` is one of the ten decimal digits.
pub open spec fn is_digit(c: char) -> bool {
    '0' <= c <= '9'
}

/// The number a decimal digit stands for.
pub open spec fn digit_value(c: char) -> nat {
    (c as int - '0' as int) as nat
}

/// Whether every character is a decimal digit.
pub open spec fn all_digits(d: Seq<char>) -> bool {
    forall|i: int| 0 <= i < d.len() ==> is_digit(#[trigger] d[i])
}

/// The number that a run of decimal digits denotes; leading zeros count for nothing.
pub open spec fn digits_value(d: Seq<char>) -> nat
    decreases d.len(),
{
    if d.len() == 0 {
        0
    } else {
        digits_value(d.drop_last()) * 10 + digit_value(d.last())
    }
}

/// How many characters the sign takes: one for a leading `+` or `-`, else none.
pub open spec fn sign_len(s: Seq<char>) -> int {
    if s.len() > 0 && (s[0] == '-' || s[0] == '+') {
        1
    } else {
        0
    }
}

/// How many digits have been read once `k` characters have, `sign` of them being the sign.
pub open spec fn digits_read(k: int, sign: int) -> int {
    if k > sign {
        k - sign
    } else {
        0
    }
}

/// Whether the whole of `s` is a signed 32-bit integer literal: an optional
/// sign, then at least one decimal digit and nothing else, denoting a number
/// from -2147483648 to 2147483647.
pub open spec fn is_i32_literal(s: Seq<char>) -> bool {
    let digits = s.skip(sign_len(s));
    &&& digits.len() > 0
    &&& all_digits(digits)
    &&& if s[0] == '-' {
        digits_value(digits) <= 2147483648
    } else {
        digits_value(digits) <= 2147483647
    }
}

/// The number a decimal digit stands for, if `c` is one.
pub fn digit_of(c: char) -> (r: Option<u64>)
    ensures
        r is Some == is_digit(c),
        r is Some ==> r->0 == digit_value(c),
{
    match c {
        '0' => Some(0),
        '1' => Some(1),
        '2' => Some(2),
        '3' => Some(3),
        '4' => Some(4),
        '5' => Some(5),
        '6' => Some(6),
        '7' => Some(7),
        '8' => Some(8),
        '9' => Some(9),
        _ => None,
    }
}

/// A digit added to a run multiplies what the run denotes by ten and adds its own value.
pub proof fn lemma_digits_value_push(d: Seq<char>, c: char)
    ensures
        digits_value(d.push(c)) == digits_value(d) * 10 + digit_value(c),
{
    assert(d.push(c).drop_last() =~= d);
}

/// A run of digits stays one exactly when a digit is added to it.
pub proof fn lemma_all_digits_push(d: Seq<char>, c: char)
    ensures
        all_digits(d.push(c)) == (all_digits(d) && is_digit(c)),
{
    if all_digits(d.push(c)) {
        assert(is_digit(d.push(c)[d.len() as int]));
        assert forall|i: int| 0 <= i < d.len() implies is_digit(#[trigger] d[i]) by {
            assert(d[i] == d.push(c)[i]);
        }
    }
}

/// Whether the whole of `s` is a signed 32-bit integer literal.
pub fn parses_as_i32(s: &str) -> (r: bool)
    ensures
        r == is_i32_literal(s@),
{
    let mut first = true;
    let mut negative = false;
    let mut any_digit = false;
    let mut valid = true;
    // The digits read so far, as a number, or 2147483649 once they exceed every limit.
    let mut value: u64 = 0;
    let ghost sign = sign_len(s@);
    let ghost digits = s@.skip(sign);
    for c in it: s.chars()
        invariant
            it.seq() == s@,
            sign == sign_len(s@),
            digits == s@.skip(sign),
            first == (it.index() == 0),
            negative == (it.index() > 0 && s@[0] == '-'),
            any_digit == (it.index() > sign),
            valid == all_digits(digits.take(digits_read(it.index() as int, sign))),
            value <= 2147483649,
            valid ==> value == if digits_value(
                digits.take(digits_read(it.index() as int, sign)),
            ) <= 2147483648 {
                digits_value(digits.take(digits_read(it.index() as int, sign)))
            } else {
                2147483649
            },
    {
        let ghost k = it.index() as int;
        let ghost before = digits.take(digits_read(k, sign));
        if first && (c == '-' || c == '+') {
            negative = c == '-';
        } else {
            assert(k - sign >= 0);
            assert(digits[k - sign] == c);
            assert(digits.take(k + 1 - sign) =~= before.push(c));
            proof {
                lemma_digits_value_push(before, c);
            }
            any_digit = true;
            match digit_of(c) {
                Some(d) => {
                    if value <= 214748364 {
                        value = value * 10 + d;
                    } else {
                        value = 2147483649;
                    }
                    if value > 2147483648 {
                        value = 2147483649;
                    }
                },
                None => {
                    valid = false;
                },
            }
            proof {
                lemma_all_digits_push(before, c);
            }
        }
        first = false;
    }
    assert(digits.take(digits_read(s@.len() as int, sign)) =~= digits);
    any_digit && valid && if negative {
        value <= 2147483648
    } else {
        value <= 2147483647
    }
}

/// Whether `c` can stand at place `i` of a date written `YYYY-MM-DD`: a
/// hyphen at the fifth and the eighth place, a decimal digit anywhere else.
pub open spec fn date_char_fits(i: int, c: char) -> bool {
    if i == 4 || i == 7 {
        c == '-'
    } else {
        is_digit(c)
    }
}

/// Whether the whole of `s` is written like a date, `YYYY-MM-DD`: four
/// digits, a hyphen, two digits, a hyphen, two digits, and nothing else.
pub open spec fn is_date_shaped(s: Seq<char>) -> bool {
    s.len() == 10 && forall|i: int| 0 <= i < 10 ==> date_char_fits(i, #[trigger] s[i])
}

/// Whether the whole of `s` is written like a date, `YYYY-MM-DD`.
pub fn date_shaped(s: &str) -> (r: bool)
    ensures
        r == is_date_shaped(s@),
{
    // The characters read so far, counted up to eleven.
    let mut count: usize = 0;
    let mut fits = true;
    for c in it: s.chars()
        invariant
            it.seq() == s@,
            count == if it.index() <= 11 {
                it.index()
            } else {
                11
            },
            fits == (forall|i: int|
                0 <= i < it.index() && i < 10 ==> date_char_fits(i, #[trigger] s@[i])),
    {
        if count < 10 {
            let ok = if count == 4 || count == 7 {
                c == '-'
            } else {
                digit_of(c).is_some()
            };
            assert(ok == date_char_fits(count as int, s@[count as int]));
            if !ok {
                fits = false;
            }
        }
        if count < 11 {
            count += 1;
        }
    }
    fits && count == 10
}

/// Whether a year of the proleptic Gregorian calendar is a leap year.
pub open spec fn is_leap_year(year: nat) -> bool {
    year % 4 == 0 && (year % 100 != 0 || year % 400 == 0)
}

/// How many days a month has; no days for what is no month.
pub open spec fn days_in_month(year: nat, month: nat) -> nat {
    if month == 1 || month == 3 || month == 5 || month == 7 || month == 8 || month == 10 || month
        == 12 {
        31
    } else if month == 4 || month == 6 || month == 9 || month == 11 {
        30
    } else if month == 2 {
        if is_leap_year(year) {
            29
        } else {
            28
        }
    } else {
        0
    }
}

/// Whether a text written `YYYY-MM-DD` names a day of the calendar: the
/// month is one of the twelve and the day is one that the month has.
pub open spec fn is_calendar_day(s: Seq<char>) -> bool {
    let year = digits_value(s.subrange(0, 4));
    let month = digits_value(s.subrange(5, 7));
    let day = digits_value(s.subrange(8, 10));
    1 <= month <= 12 && 1 <= day <= days_in_month(year, month)
}

/// Whether chrono reads the text `s` as an RFC 3339 timestamp: whether
/// `DateTime::parse_from_rfc3339` returns `Ok` for it.
pub uninterp spec fn rfc3339_parses(s: Seq<char>) -> bool;

/// Calls chrono's `NaiveDate::parse_from_str` and reports whether it returned
/// `Ok`.
///
/// Trusted, not proved, and only for a text written `YYYY-MM-DD` under the
/// pattern `%Y-%m-%d`: chrono reads the four digits as the year, the two
/// pairs as month and day, and accepts them exactly when the proleptic
/// Gregorian calendar has that day.
#[verifier::external_body]
fn parse_naive_date(s: &str, pattern: &str) -> (r: bool)
    requires
        pattern@ == "%Y-%m-%d"@,
        is_date_shaped(s@),
    ensures
        r == is_calendar_day(s@),
{
    chrono::NaiveDate::parse_from_str(s, pattern).is_ok()
}

/// Calls chrono's `DateTime::parse_from_rfc3339` and reports whether it
/// returned `Ok`.
///
/// Trusted, not proved: the parser reads nothing but its argument, so the
/// outcome is the same for the same text. Nothing else is claimed about it.
#[verifier::external_body]
fn parse_rfc3339(s: &str) -> (r: bool)
    ensures
        r == rfc3339_parses(s@),
{
    chrono::DateTime::parse_from_rfc3339(s).is_ok()
}

/// The format that wins, given which recognisers accept a string: an integer
/// before a date, a date before a timestamp.
pub open spec fn select_format(integer: bool, date: bool, date_time: bool) -> Option<Format> {
    if integer {
        Some(Format::Integer)
    } else if date {
        Some(Format::Date)
    } else if date_time {
        Some(Format::DateTime)
    } else {
        None
    }
}

/// Whether `s` is a date: written `YYYY-MM-DD`, and a day of the calendar.
pub open spec fn is_date(s: Seq<char>) -> bool {
    is_date_shaped(s) && is_calendar_day(s)
}

/// The format of a string: the first recogniser that accepts it, tried in
/// the order integer, date, timestamp.
pub open spec fn format_of(s: Seq<char>) -> Option<Format> {
    select_format(is_i32_literal(s), is_date(s), rfc3339_parses(s))
}

/// Picks the format that wins, given which recognisers accept a string.
pub fn choose_format(integer: bool, date: bool, date_time: bool) -> (r: Option<Format>)
    ensures
        r == select_format(integer, date, date_time),
{
    if integer {
        Some(Format::Integer)
    } else if date {
        Some(Format::Date)
    } else if date_time {
        Some(Format::DateTime)
    } else {
        None
    }
}

/// Infers the format of a string, if it has one. A later recogniser is only
/// tried when the earlier ones refused.
pub fn infer_format(s: &str) -> (r: Option<Format>)
    ensures
        r == format_of(s@),
{
    let integer = parses_as_i32(s);
    let date = !integer && date_shaped(s) && parse_naive_date(s, "%Y-%m-%d");
    let date_time = !integer && !date && parse_rfc3339(s);
    choose_format(integer, date, date_time)
}

} // verus!
