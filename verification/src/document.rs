//! Writing a fragment down as a JSON Schema document.

use crate::fragment::{entries, names, shapes, Fragment, Shape};
use crate::json::{array_model, members_model, Json, JsonModel};
use vstd::prelude::*;
use vstd::string::StringExecFns;

verus! {

/// The address of the schema dialect that the documents are written in.
pub const SCHEMA_URI: &'static str = "http://json-schema.org/draft-07/schema#";

/// An object with the one member `"type"`.
pub open spec fn typed(kind: Seq<char>) -> Seq<(Seq<char>, JsonModel)> {
    seq![("type"@, JsonModel::String(kind))]
}

/// The documents of a list of shapes, one by one.
pub open spec fn documents(list: Seq<Shape>) -> Seq<JsonModel>
    decreases list,
{
    Seq::new(
        list.len(),
        |i: int|
            if 0 <= i < list.len() {
                document(list[i])
            } else {
                JsonModel::Null
            },
    )
}

/// The documents of a list of properties, each under its name.
pub open spec fn property_documents(properties: Seq<(Seq<char>, Shape)>) -> Seq<
    (Seq<char>, JsonModel),
>
    decreases properties,
{
    Seq::new(
        properties.len(),
        |i: int|
            if 0 <= i < properties.len() {
                (properties[i].0, document(properties[i].1))
            } else {
                (Seq::empty(), JsonModel::Null)
            },
    )
}

/// A list of names as JSON strings.
pub open spec fn name_documents(list: Seq<Seq<char>>) -> Seq<JsonModel> {
    Seq::new(list.len(), |i: int| JsonModel::String(list[i]))
}

/// The JSON Schema document of a shape. The members of every object stand in
/// the order of their keys.
pub open spec fn document(shape: Shape) -> JsonModel
    decreases shape,
{
    match shape {
        Shape::Null => JsonModel::Object(typed("null"@)),
        Shape::Boolean => JsonModel::Object(typed("boolean"@)),
        Shape::Integer => JsonModel::Object(typed("integer"@)),
        Shape::Number => JsonModel::Object(typed("number"@)),
        Shape::String(None) => JsonModel::Object(typed("string"@)),
        Shape::String(Some(format)) => JsonModel::Object(
            seq![("format"@, JsonModel::String(format.spec_name()))] + typed("string"@),
        ),
        Shape::Array(None) => JsonModel::Object(typed("array"@)),
        Shape::Array(Some(items)) => JsonModel::Object(
            seq![("items"@, document(*items))] + typed("array"@),
        ),
        Shape::Object { properties, required: None } => JsonModel::Object(
            seq![("properties"@, JsonModel::Object(property_documents(properties)))] + typed(
                "object"@,
            ),
        ),
        Shape::Object { properties, required: Some(list) } => JsonModel::Object(
            seq![
                ("properties"@, JsonModel::Object(property_documents(properties))),
                ("required"@, JsonModel::Array(name_documents(list))),
            ] + typed("object"@),
        ),
        Shape::Union(variants) => JsonModel::Object(
            seq![("anyOf"@, JsonModel::Array(documents(variants)))],
        ),
    }
}

/// The document with the address of the schema dialect as its first member.
/// Only an object can carry it; any other value is left as it is.
pub open spec fn decorated(doc: JsonModel) -> JsonModel {
    match doc {
        JsonModel::Object(members) => JsonModel::Object(
            seq![("$schema"@, JsonModel::String(SCHEMA_URI@))] + members,
        ),
        other => other,
    }
}

/// A JSON string with the given text.
pub fn text(s: &str) -> (r: Json)
    ensures
        r@ == JsonModel::String(s@),
{
    Json::String(String::from_str(s))
}

/// A member with the given key.
pub fn member(key: &str, value: Json) -> (r: (String, Json))
    ensures
        r.0@ == key@,
        r.1 == value,
{
    (String::from_str(key), value)
}

/// Writes a list of names as JSON strings.
pub fn names_to_json(list: &Vec<String>) -> (r: Json)
    ensures
        r@ == JsonModel::Array(name_documents(names(list@))),
{
    let mut out: Vec<Json> = Vec::new();
    let mut i: usize = 0;
    while i < list.len()
        invariant
            i <= list.len(),
            out@.len() == i,
            forall|j: int| 0 <= j < i ==> out@[j]@ == JsonModel::String(list@[j]@),
        decreases list.len() - i,
    {
        out.push(Json::String(list[i].clone()));
        i += 1;
    }
    assert(array_model(out@) =~= name_documents(names(list@)));
    Json::Array(out)
}

/// Writes a fragment as a JSON Schema document.
pub fn to_json(fragment: &Fragment) -> (r: Json)
    ensures
        r@ == document(fragment@),
    decreases fragment,
{
    let mut members: Vec<(String, Json)> = Vec::new();
    match fragment {
        Fragment::Null => {
            members.push(member("type", text("null")));
        },
        Fragment::Boolean => {
            members.push(member("type", text("boolean")));
        },
        Fragment::Integer => {
            members.push(member("type", text("integer")));
        },
        Fragment::Number => {
            members.push(member("type", text("number")));
        },
        Fragment::String(format) => {
            match format {
                Some(f) => {
                    members.push(member("format", text(f.name())));
                },
                None => {},
            }
            members.push(member("type", text("string")));
        },
        Fragment::Array(items) => {
            match items {
                Some(inner) => {
                    members.push(member("items", to_json(&**inner)));
                },
                None => {},
            }
            members.push(member("type", text("array")));
        },
        Fragment::Object { properties, required } => {
            let mut inner: Vec<(String, Json)> = Vec::new();
            let mut i: usize = 0;
            while i < properties.len()
                invariant
                    *fragment == (Fragment::Object { properties: *properties, required: *required }),
                    i <= properties.len(),
                    inner@.len() == i,
                    forall|j: int|
                        0 <= j < i ==> inner@[j].0@ == properties@[j].0@ && inner@[j].1@
                            == document(properties@[j].1@),
                decreases properties.len() - i,
            {
                proof {
                    assert(decreases_to!(*fragment => fragment->properties));
                    assert(decreases_to!(*properties => properties[i as int]));
                }
                inner.push((properties[i].0.clone(), to_json(&properties[i].1)));
                i += 1;
            }
            assert(members_model(inner@) =~= property_documents(entries(properties@)));
            members.push(member("properties", Json::Object(inner)));
            match required {
                Some(list) => {
                    members.push(member("required", names_to_json(list)));
                },
                None => {},
            }
            members.push(member("type", text("object")));
        },
        Fragment::Union(variants) => {
            let mut inner: Vec<Json> = Vec::new();
            let mut i: usize = 0;
            while i < variants.len()
                invariant
                    *fragment == Fragment::Union(*variants),
                    i <= variants.len(),
                    inner@.len() == i,
                    forall|j: int| 0 <= j < i ==> inner@[j]@ == document(variants@[j]@),
                decreases variants.len() - i,
            {
                proof {
                    assert(decreases_to!(*fragment => fragment->Union_0));
                    assert(decreases_to!(*variants => variants[i as int]));
                }
                inner.push(to_json(&variants[i]));
                i += 1;
            }
            assert(array_model(inner@) =~= documents(shapes(variants@)));
            members.push(member("anyOf", Json::Array(inner)));
        },
    }
    assert(members_model(members@) =~= document(fragment@)->Object_0);
    Json::Object(members)
}

/// Puts the address of the schema dialect in front of a document's members.
pub fn decorate(doc: Json) -> (r: Json)
    ensures
        r@ == decorated(doc@),
{
    match doc {
        Json::Object(members) => {
            let mut out: Vec<(String, Json)> = Vec::new();
            out.push(member("$schema", text(SCHEMA_URI)));
            let ghost old_members = members@;
            let mut rest = members;
            out.append(&mut rest);
            assert(members_model(out@) =~= seq![("$schema"@, JsonModel::String(SCHEMA_URI@))]
                + members_model(old_members));
            Json::Object(out)
        },
        other => other,
    }
}

} // verus!
