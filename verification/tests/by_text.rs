use infers_jsonschema::inference::{infer, JSONSchema};
use infers_jsonschema::json::{Json, Number};

const SCHEMA: &str = "http://json-schema.org/draft-07/schema#";

fn s(text: &str) -> Json {
    Json::String(text.to_string())
}

fn whole(n: u64) -> Json {
    Json::Number(Number::PosInt(n))
}

fn float(x: f64) -> Json {
    Json::Number(Number::Float(x.to_bits()))
}

fn arr(items: Vec<Json>) -> Json {
    Json::Array(items)
}

/// An object with its members in the order of their keys.
fn obj(members: Vec<(&str, Json)>) -> Json {
    let mut members: Vec<(String, Json)> =
        members.into_iter().map(|(k, v)| (k.to_string(), v)).collect();
    members.sort_by(|a, b| a.0.cmp(&b.0));
    Json::Object(members)
}

fn ty(kind: &str) -> Json {
    obj(vec![("type", s(kind))])
}

fn assert_json(data: &[(Json, Json)]) {
    for (value, expected) in data {
        assert_eq!(infer(value), *expected);
    }
}

#[test]
fn inference_test_primitive_types() {
    let cases = [
        (Json::Null, obj(vec![("type", s("null")), ("$schema", s(SCHEMA))])),
        (float(1.35), obj(vec![("type", s("number")), ("$schema", s(SCHEMA))])),
        (whole(5), obj(vec![("type", s("integer")), ("$schema", s(SCHEMA))])),
        (s("Test"), obj(vec![("type", s("string")), ("$schema", s(SCHEMA))])),
    ];
    assert_json(&cases);
}

#[test]
fn inference_test_string_format() {
    let cases = [
        (
            s("1"),
            obj(vec![("type", s("string")), ("format", s("integer")), ("$schema", s(SCHEMA))]),
        ),
        (
            s("2020-01-01"),
            obj(vec![("type", s("string")), ("format", s("date")), ("$schema", s(SCHEMA))]),
        ),
        (
            s("2018-11-13T20:20:39+00:00"),
            obj(vec![("type", s("string")), ("format", s("date-time")), ("$schema", s(SCHEMA))]),
        ),
    ];
    assert_json(&cases);
}

#[test]
fn inference_test_disabled_string_format() {
    let data = s("2020-01-01");
    let schema = JSONSchema::new(&data).detect_format(false);
    assert_eq!(schema.infer(), obj(vec![("type", s("string")), ("$schema", s(SCHEMA))]));
}

#[test]
fn inference_test_disabled_string_format_nested() {
    let cases = [
        (
            obj(vec![("key", s("2020-01-01"))]),
            obj(vec![
                ("type", s("object")),
                ("properties", obj(vec![("key", ty("string"))])),
                ("required", arr(vec![s("key")])),
                ("$schema", s(SCHEMA)),
            ]),
        ),
        (
            arr(vec![s("2020-01-01")]),
            obj(vec![("type", s("array")), ("items", ty("string")), ("$schema", s(SCHEMA))]),
        ),
    ];
    for (value, expected) in &cases {
        let schema = JSONSchema::new(value).detect_format(false);
        assert_eq!(schema.infer(), *expected);
    }
}

#[test]
fn inference_test_array_primitive() {
    let cases = [
        (
            arr(vec![s("test"), s("item")]),
            obj(vec![("type", s("array")), ("items", ty("string")), ("$schema", s(SCHEMA))]),
        ),
        (
            arr(vec![s("test"), s("item"), whole(1)]),
            obj(vec![
                ("type", s("array")),
                ("items", obj(vec![("anyOf", arr(vec![ty("integer"), ty("string")]))])),
                ("$schema", s(SCHEMA)),
            ]),
        ),
    ];
    assert_json(&cases);
}

#[test]
fn inference_test_object_primitive() {
    let cases = [
        (
            obj(vec![("key", Json::Bool(true))]),
            obj(vec![
                ("type", s("object")),
                ("properties", obj(vec![("key", ty("boolean"))])),
                ("required", arr(vec![s("key")])),
                ("$schema", s(SCHEMA)),
            ]),
        ),
        (
            obj(vec![("key1", Json::Bool(true)), ("key2", whole(1))]),
            obj(vec![
                ("type", s("object")),
                ("properties", obj(vec![("key1", ty("boolean")), ("key2", ty("integer"))])),
                ("required", arr(vec![s("key1"), s("key2")])),
                ("$schema", s(SCHEMA)),
            ]),
        ),
    ];
    assert_json(&cases);
}

#[test]
fn inference_test_array_complex() {
    let cases = [
        (
            arr(vec![obj(vec![("a", whole(1))]), obj(vec![("a", whole(2))])]),
            obj(vec![
                ("type", s("array")),
                (
                    "items",
                    obj(vec![
                        ("type", s("object")),
                        ("properties", obj(vec![("a", ty("integer"))])),
                        ("required", arr(vec![s("a")])),
                    ]),
                ),
                ("$schema", s(SCHEMA)),
            ]),
        ),
        (
            arr(vec![
                obj(vec![("a", whole(1))]),
                obj(vec![("a", Json::Null)]),
                obj(vec![("a", whole(2))]),
            ]),
            obj(vec![
                ("type", s("array")),
                (
                    "items",
                    obj(vec![
                        ("type", s("object")),
                        ("required", arr(vec![s("a")])),
                        (
                            "properties",
                            obj(vec![(
                                "a",
                                obj(vec![("anyOf", arr(vec![ty("integer"), ty("null")]))]),
                            )]),
                        ),
                    ]),
                ),
                ("$schema", s(SCHEMA)),
            ]),
        ),
        // Proper required detection.
        (
            arr(vec![obj(vec![("a", whole(1))]), obj(vec![("b", s("test"))])]),
            obj(vec![
                ("type", s("array")),
                (
                    "items",
                    obj(vec![
                        ("type", s("object")),
                        (
                            "properties",
                            obj(vec![("a", ty("integer")), ("b", ty("string"))]),
                        ),
                    ]),
                ),
                ("$schema", s(SCHEMA)),
            ]),
        ),
    ];
    assert_json(&cases);
}

#[test]
fn inference_test_infer_via_schema() {
    let data = Json::Null;
    let schema = JSONSchema::new(&data);
    assert_eq!(schema.infer(), obj(vec![("type", s("null")), ("$schema", s(SCHEMA))]));
}
