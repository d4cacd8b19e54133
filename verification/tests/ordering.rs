use infers_jsonschema::engine::{file_member, reconcile_items, settle_items};
use infers_jsonschema::fragment::Fragment;
use infers_jsonschema::code::{encode, encode_into, encode_name, encode_names};
use infers_jsonschema::keyed::{
    arrange, chars_eq, comes_before, find_landing, holds_pair, place, SortKey,
};
use infers_jsonschema::sorted::find_slot;
use infers_jsonschema::text::{append_str, chars_lt, str_lt};

fn text(s: &str) -> SortKey {
    SortKey::Text(s.chars().collect())
}

fn chars(s: &str) -> Vec<char> {
    s.chars().collect()
}

#[test]
fn strings_are_ordered_by_their_characters() {
    let cases = [
        ("", "", false),
        ("", "a", true),
        ("a", "", false),
        ("a", "a", false),
        ("a", "b", true),
        ("b", "a", false),
        ("a", "ab", true),
        ("ab", "a", false),
        ("ab", "b", true),
        ("Z", "a", true),
        ("key1", "key2", true),
        ("key10", "key2", true),
        ("é", "z", false),
        ("z", "é", true),
        ("\u{ffff}", "\u{10000}", true),
    ];
    for (a, b, expected) in cases {
        assert_eq!(str_lt(a, b), expected, "{a:?} {b:?}");
        assert_eq!(chars_lt(&chars(a), &chars(b)), expected, "{a:?} {b:?}");
        assert_eq!(a < b, expected, "{a:?} {b:?}");
    }
}

#[test]
fn texts_are_compared_and_appended() {
    assert!(chars_eq(&chars("abc"), &chars("abc")));
    assert!(!chars_eq(&chars("abc"), &chars("abd")));
    assert!(!chars_eq(&chars("abc"), &chars("ab")));
    assert!(chars_eq(&chars(""), &chars("")));
    let mut out = chars("ab");
    append_str(&mut out, "cé");
    assert_eq!(out, chars("abcé"));
    append_str(&mut out, "");
    assert_eq!(out, chars("abcé"));
}

#[test]
fn a_name_has_one_slot() {
    let rows: Vec<(String, u8)> =
        vec![("b".to_string(), 0), ("d".to_string(), 0), ("f".to_string(), 0)];
    assert_eq!(find_slot(&rows, &"a".to_string()), (0, false));
    assert_eq!(find_slot(&rows, &"b".to_string()), (0, true));
    assert_eq!(find_slot(&rows, &"c".to_string()), (1, false));
    assert_eq!(find_slot(&rows, &"d".to_string()), (1, true));
    assert_eq!(find_slot(&rows, &"e".to_string()), (2, false));
    assert_eq!(find_slot(&rows, &"f".to_string()), (2, true));
    assert_eq!(find_slot(&rows, &"g".to_string()), (3, false));
    let none: Vec<(String, u8)> = Vec::new();
    assert_eq!(find_slot(&none, &"a".to_string()), (0, false));
}

#[test]
fn filing_orders_the_properties_and_the_last_value_wins() {
    let mut properties: Vec<(String, Fragment)> = Vec::new();
    file_member(&mut properties, "m".to_string(), Fragment::Integer);
    file_member(&mut properties, "a".to_string(), Fragment::Null);
    file_member(&mut properties, "z".to_string(), Fragment::Boolean);
    file_member(&mut properties, "m".to_string(), Fragment::Number);
    assert_eq!(
        properties,
        vec![
            ("a".to_string(), Fragment::Null),
            ("m".to_string(), Fragment::Number),
            ("z".to_string(), Fragment::Boolean),
        ]
    );
}

#[test]
fn keys_are_ordered_hashes_first() {
    assert!(SortKey::Hash(1).before(&SortKey::Hash(2)));
    assert!(!SortKey::Hash(2).before(&SortKey::Hash(2)));
    assert!(!SortKey::Hash(3).before(&SortKey::Hash(2)));
    assert!(SortKey::Hash(u64::MAX).before(&text("")));
    assert!(!text("").before(&SortKey::Hash(0)));
    assert!(text("a").before(&text("b")));
    assert!(!text("b").before(&text("a")));
    assert!(SortKey::Hash(7).same(&SortKey::Hash(7)));
    assert!(!SortKey::Hash(7).same(&SortKey::Hash(8)));
    assert!(text("a").same(&text("a")));
    assert!(!text("a").same(&text("b")));
    assert!(!text("a").same(&SortKey::Hash(0)));
}

#[test]
fn arranging_orders_by_key_and_keeps_each_pair_once() {
    let keyed = vec![
        (SortKey::Hash(30), Fragment::String(None)),
        (SortKey::Hash(10), Fragment::Integer),
        (SortKey::Hash(30), Fragment::String(None)),
        (SortKey::Hash(20), Fragment::Null),
        (SortKey::Hash(10), Fragment::Integer),
    ];
    assert_eq!(
        arrange(keyed),
        vec![
            (SortKey::Hash(10), Fragment::Integer),
            (SortKey::Hash(20), Fragment::Null),
            (SortKey::Hash(30), Fragment::String(None)),
        ]
    );
    assert_eq!(arrange(vec![]), vec![]);
}

#[test]
fn different_shapes_of_one_key_are_both_kept_in_the_order_of_their_codes() {
    let keyed = vec![
        (SortKey::Hash(5), Fragment::Null),
        (SortKey::Hash(1), Fragment::Boolean),
        (SortKey::Hash(5), Fragment::Integer),
        (SortKey::Hash(5), Fragment::Null),
        (SortKey::Hash(9), Fragment::Number),
    ];
    let expected = vec![
        (SortKey::Hash(1), Fragment::Boolean),
        (SortKey::Hash(5), Fragment::Integer),
        (SortKey::Hash(5), Fragment::Null),
        (SortKey::Hash(9), Fragment::Number),
    ];
    assert_eq!(arrange(keyed), expected);
    let turned = vec![
        (SortKey::Hash(9), Fragment::Number),
        (SortKey::Hash(5), Fragment::Integer),
        (SortKey::Hash(5), Fragment::Null),
        (SortKey::Hash(1), Fragment::Boolean),
        (SortKey::Hash(5), Fragment::Integer),
    ];
    assert_eq!(arrange(turned), expected);
}

#[test]
fn every_order_of_the_same_pairs_is_arranged_alike() {
    let pairs = [
        (7u64, Fragment::String(None)),
        (7, Fragment::Array(None)),
        (7, Fragment::Union(vec![Fragment::Null, Fragment::Integer])),
        (3, Fragment::Null),
        (7, Fragment::Object { properties: vec![], required: None }),
        (7, Fragment::Object { properties: vec![], required: Some(vec![]) }),
    ];
    let keyed = |order: &[usize]| -> Vec<(SortKey, Fragment)> {
        order.iter().map(|&i| (SortKey::Hash(pairs[i].0), pairs[i].1.clone())).collect()
    };
    let expected = arrange(keyed(&[0, 1, 2, 3, 4, 5]));
    assert_eq!(expected.len(), 6);
    assert_eq!(expected[0], (SortKey::Hash(3), Fragment::Null));
    for order in [
        [5, 4, 3, 2, 1, 0],
        [3, 0, 4, 1, 5, 2],
        [2, 5, 1, 4, 0, 3],
        [1, 0, 3, 2, 5, 4],
        [4, 2, 0, 5, 3, 1],
    ] {
        assert_eq!(arrange(keyed(&order)), expected);
    }
    let doubled = keyed(&[5, 5, 0, 1, 0, 2, 3, 3, 4, 1]);
    assert_eq!(arrange(doubled), expected);
}

#[test]
fn keyed_fragments_are_compared_by_key_then_by_code() {
    assert!(comes_before(&SortKey::Hash(1), &Fragment::String(None), &SortKey::Hash(2), &Fragment::Null));
    assert!(!comes_before(&SortKey::Hash(2), &Fragment::Null, &SortKey::Hash(1), &Fragment::String(None)));
    assert!(comes_before(&SortKey::Hash(2), &Fragment::Integer, &SortKey::Hash(2), &Fragment::Null));
    assert!(!comes_before(&SortKey::Hash(2), &Fragment::Null, &SortKey::Hash(2), &Fragment::Integer));
    assert!(!comes_before(&SortKey::Hash(2), &Fragment::Null, &SortKey::Hash(2), &Fragment::Null));
}

fn coded(fragment: &Fragment) -> String {
    encode(fragment).into_iter().collect()
}

#[test]
fn canonical_codes() {
    assert_eq!(coded(&Fragment::Null), "n");
    assert_eq!(coded(&Fragment::Boolean), "b");
    assert_eq!(coded(&Fragment::Integer), "i");
    assert_eq!(coded(&Fragment::Number), "f");
    assert_eq!(coded(&Fragment::String(None)), "s0");
    assert_eq!(coded(&Fragment::String(Some(infers_jsonschema::fragment::Format::Integer))), "s1");
    assert_eq!(coded(&Fragment::String(Some(infers_jsonschema::fragment::Format::Date))), "s2");
    assert_eq!(coded(&Fragment::String(Some(infers_jsonschema::fragment::Format::DateTime))), "s3");
    assert_eq!(coded(&Fragment::Array(None)), "a0");
    assert_eq!(coded(&Fragment::Array(Some(Box::new(Fragment::Null)))), "a1n");
    assert_eq!(coded(&Fragment::Union(vec![])), "u0");
    assert_eq!(coded(&Fragment::Union(vec![Fragment::Null, Fragment::Integer])), "u1n1i0");
    assert_eq!(coded(&Fragment::Object { properties: vec![], required: None }), "o00");
    assert_eq!(coded(&Fragment::Object { properties: vec![], required: Some(vec![]) }), "o010");
    let object = Fragment::Object {
        properties: vec![("ab".to_string(), Fragment::Null), ("".to_string(), Fragment::Integer)],
        required: Some(vec!["ab".to_string(), "0".to_string()]),
    };
    assert_eq!(coded(&object), "o11a1b0n10i0111a1b011000");
}

#[test]
fn codes_are_appended() {
    let mut out: Vec<char> = "x".chars().collect();
    encode_name("1\u{0}", &mut out);
    assert_eq!(out.iter().collect::<String>(), "x111\u{0}0");
    encode_names(&vec!["a".to_string(), "".to_string()], &mut out);
    assert_eq!(out.iter().collect::<String>(), "x111\u{0}011a0100");
    encode_into(&Fragment::Boolean, &mut out);
    assert_eq!(out.iter().collect::<String>(), "x111\u{0}011a0100b");
}

#[test]
fn placing_finds_the_landing_place() {
    let mut list = vec![(SortKey::Hash(10), Fragment::Null), (SortKey::Hash(20), Fragment::Null)];
    assert_eq!(find_landing(&list, &SortKey::Hash(5), &Fragment::Null), 0);
    assert_eq!(find_landing(&list, &SortKey::Hash(10), &Fragment::Null), 1);
    assert_eq!(find_landing(&list, &SortKey::Hash(10), &Fragment::Integer), 0);
    assert_eq!(find_landing(&list, &SortKey::Hash(10), &Fragment::String(None)), 1);
    assert_eq!(find_landing(&list, &SortKey::Hash(15), &Fragment::Null), 1);
    assert_eq!(find_landing(&list, &SortKey::Hash(20), &Fragment::Null), 2);
    assert_eq!(find_landing(&list, &SortKey::Hash(25), &Fragment::Null), 2);
    assert!(holds_pair(&list, &SortKey::Hash(10), &Fragment::Null));
    assert!(!holds_pair(&list, &SortKey::Hash(10), &Fragment::Integer));
    assert!(!holds_pair(&list, &SortKey::Hash(11), &Fragment::Null));
    place(&mut list, SortKey::Hash(15), Fragment::Integer);
    place(&mut list, SortKey::Hash(10), Fragment::Null);
    assert_eq!(
        list,
        vec![
            (SortKey::Hash(10), Fragment::Null),
            (SortKey::Hash(15), Fragment::Integer),
            (SortKey::Hash(20), Fragment::Null),
        ]
    );
}

#[test]
fn texts_order_siblings_lexicographically() {
    let keyed = vec![
        (text("{\"type\":\"string\"}"), Fragment::String(None)),
        (text("{\"type\":\"integer\"}"), Fragment::Integer),
        (text("{\"type\":\"null\"}"), Fragment::Null),
    ];
    assert_eq!(
        reconcile_items(keyed),
        Fragment::Union(vec![Fragment::Integer, Fragment::Null, Fragment::String(None)])
    );
}

#[test]
fn items_settle_to_one_shape_a_merge_or_a_union() {
    assert_eq!(settle_items(vec![Fragment::Integer]), Fragment::Integer);
    assert_eq!(
        settle_items(vec![Fragment::Integer, Fragment::Null]),
        Fragment::Union(vec![Fragment::Integer, Fragment::Null])
    );
    let a = Fragment::Object {
        properties: vec![("a".to_string(), Fragment::Integer)],
        required: Some(vec!["a".to_string()]),
    };
    let b = Fragment::Object {
        properties: vec![("b".to_string(), Fragment::Integer)],
        required: Some(vec!["b".to_string()]),
    };
    assert_eq!(
        settle_items(vec![a.clone(), b.clone()]),
        Fragment::Object {
            properties: vec![
                ("a".to_string(), Fragment::Integer),
                ("b".to_string(), Fragment::Integer)
            ],
            required: None,
        }
    );
    assert_eq!(
        settle_items(vec![a.clone(), Fragment::Null, b.clone()]),
        Fragment::Union(vec![a.clone(), Fragment::Null, b])
    );
    assert_eq!(settle_items(vec![a.clone()]), a);
}

#[test]
fn one_pair_many_times_is_one_sibling() {
    let keyed = vec![
        (SortKey::Hash(3), Fragment::Boolean),
        (SortKey::Hash(3), Fragment::Boolean),
        (SortKey::Hash(3), Fragment::Boolean),
    ];
    assert_eq!(reconcile_items(keyed), Fragment::Boolean);
}
