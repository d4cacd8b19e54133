use infers_jsonschema::engine::{sort_key, Keying};
use infers_jsonschema::fragment::Fragment;
use infers_jsonschema::json::{Json, Number};
use infers_jsonschema::keyed::SortKey;
use infers_jsonschema::ValueWrapper;
use std::collections::hash_map::DefaultHasher;
use std::hash::{Hash, Hasher};

fn digest(value: &Json) -> u64 {
    let mut hasher = DefaultHasher::new();
    ValueWrapper(value).hash(&mut hasher);
    hasher.finish()
}

fn s(text: &str) -> Json {
    Json::String(text.to_string())
}

#[test]
fn null_writes_its_marker() {
    let mut expected = DefaultHasher::new();
    expected.write_u32(3_221_225_473);
    assert_eq!(digest(&Json::Null), expected.finish());
    assert_ne!(digest(&Json::Null), DefaultHasher::new().finish());
}

#[test]
fn a_boolean_is_hashed_as_a_boolean() {
    for b in [true, false] {
        let mut expected = DefaultHasher::new();
        b.hash(&mut expected);
        assert_eq!(digest(&Json::Bool(b)), expected.finish());
    }
    assert_ne!(digest(&Json::Bool(true)), digest(&Json::Bool(false)));
}

#[test]
fn a_whole_number_is_hashed_by_its_value() {
    let mut expected = DefaultHasher::new();
    5u64.hash(&mut expected);
    assert_eq!(digest(&Json::Number(Number::PosInt(5))), expected.finish());

    let mut expected = DefaultHasher::new();
    (-5i64).hash(&mut expected);
    assert_eq!(digest(&Json::Number(Number::NegInt(-5))), expected.finish());

    assert_ne!(
        digest(&Json::Number(Number::PosInt(5))),
        digest(&Json::Number(Number::PosInt(6)))
    );
}

#[test]
fn a_float_is_hashed_by_its_bits() {
    let mut expected = DefaultHasher::new();
    1.35f64.to_bits().hash(&mut expected);
    assert_eq!(digest(&Json::Number(Number::Float(1.35f64.to_bits()))), expected.finish());
    assert_ne!(
        digest(&Json::Number(Number::Float(1.0f64.to_bits()))),
        digest(&Json::Number(Number::PosInt(1)))
    );
}

#[test]
fn a_string_is_hashed_as_a_string() {
    let mut expected = DefaultHasher::new();
    "type".to_string().hash(&mut expected);
    assert_eq!(digest(&s("type")), expected.finish());
    assert_ne!(digest(&s("type")), digest(&s("typo")));
    assert_ne!(digest(&s("")), DefaultHasher::new().finish());
}

#[test]
fn an_array_feeds_its_elements_in_order() {
    let mut expected = DefaultHasher::new();
    expected.write_u32(3_221_225_473);
    true.hash(&mut expected);
    "x".to_string().hash(&mut expected);
    let value = Json::Array(vec![Json::Null, Json::Bool(true), s("x")]);
    assert_eq!(digest(&value), expected.finish());

    let turned = Json::Array(vec![s("x"), Json::Bool(true), Json::Null]);
    assert_ne!(digest(&value), digest(&turned));
    assert_eq!(digest(&Json::Array(vec![])), DefaultHasher::new().finish());
}

#[test]
fn an_object_combines_the_hashes_of_its_members() {
    let mut first = DefaultHasher::new();
    "a".to_string().hash(&mut first);
    1u64.hash(&mut first);
    let mut second = DefaultHasher::new();
    "b".to_string().hash(&mut second);
    second.write_u32(3_221_225_473);
    let mut expected = DefaultHasher::new();
    expected.write_u64(first.finish() ^ second.finish());

    let value = Json::Object(vec![
        ("a".to_string(), Json::Number(Number::PosInt(1))),
        ("b".to_string(), Json::Null),
    ]);
    assert_eq!(digest(&value), expected.finish());
}

#[test]
fn the_order_of_members_does_not_count() {
    let one = Json::Object(vec![("a".to_string(), s("x")), ("b".to_string(), s("y"))]);
    let other = Json::Object(vec![("b".to_string(), s("y")), ("a".to_string(), s("x"))]);
    assert_eq!(digest(&one), digest(&other));
    let swapped = Json::Object(vec![("a".to_string(), s("y")), ("b".to_string(), s("x"))]);
    assert_ne!(digest(&one), digest(&swapped));
}

#[test]
fn an_empty_object_writes_zero() {
    let mut expected = DefaultHasher::new();
    expected.write_u64(0);
    assert_eq!(digest(&Json::Object(vec![])), expected.finish());
}

#[test]
fn hashing_goes_on_from_the_state_it_is_given() {
    let mut hasher = DefaultHasher::new();
    ValueWrapper(&Json::Bool(true)).hash(&mut hasher);
    ValueWrapper(&s("x")).hash(&mut hasher);
    let mut expected = DefaultHasher::new();
    true.hash(&mut expected);
    "x".to_string().hash(&mut expected);
    assert_eq!(hasher.finish(), expected.finish());
}

#[test]
fn wrappers_of_equal_values_are_equal() {
    let a = s("x");
    let b = s("x");
    let c = s("y");
    assert!(ValueWrapper(&a) == ValueWrapper(&b));
    assert!(ValueWrapper(&a) != ValueWrapper(&c));
}

#[test]
fn the_hash_key_of_a_fragment_is_the_hash_of_its_document() {
    let document = Json::Object(vec![("type".to_string(), s("string"))]);
    assert_eq!(
        sort_key(&Fragment::String(None), Keying::Hash),
        SortKey::Hash(digest(&document))
    );
    let document = Json::Object(vec![
        ("items".to_string(), Json::Object(vec![("type".to_string(), s("null"))])),
        ("type".to_string(), s("array")),
    ]);
    assert_eq!(
        sort_key(&Fragment::Array(Some(Box::new(Fragment::Null))), Keying::Hash),
        SortKey::Hash(digest(&document))
    );
}

#[test]
fn the_text_key_of_a_fragment_is_its_canonical_text() {
    assert_eq!(
        sort_key(&Fragment::Integer, Keying::Text),
        SortKey::Text("{\"type\":\"integer\"}".chars().collect())
    );
}
