//! Inference of JSON Schema (Draft-07) documents from sample JSON values.
//!
//! The schemas built here put sibling shapes in the order of their hashes;
//! [`inference`] builds the same schemas with the siblings in the order of
//! their canonical texts. Either way the outcome does not depend on the
//! order of the elements of an array.

pub mod code;
pub mod document;
pub mod engine;
pub mod format;
pub mod fragment;
pub mod hashing;
pub mod inference;
pub mod json;
pub mod keyed;
pub mod laws;
pub mod merge;
pub mod render;
pub mod sorted;
pub mod text;

use crate::engine::{infer_document, infer_shape, infer_value, schema_document, Keying};
use crate::fragment::Fragment;
use crate::hashing::{fed_items, fed_value, hash_bool, hash_signed, hash_text, hash_unsigned,
    member_digest, members_digest, write_u32, write_u64};
use crate::json::{array_model, members_model, Json, Number};
use crate::laws::well_formed;
use std::collections::hash_map::DefaultHasher;
use std::hash::Hasher;
use vstd::prelude::*;

verus! {

/// A JSON value seen as something to hash. An array is hashed element by
/// element; the members of an object are hashed one by one, each on its own,
/// and their hashes are combined by exclusive or, so that the order of the
/// members does not change the hash.
#[derive(PartialEq, Eq)]
pub struct ValueWrapper<'a>(pub &'a Json);

impl<'a> ValueWrapper<'a> {
    /// Hashes the value into `state`.
    pub fn hash(&self, state: &mut DefaultHasher)
        ensures
            final(state)@ == fed_value(old(state)@, self.0@),
        decreases self.0,
    {
        let ghost start = state@;
        match self.0 {
            Json::Null => write_u32(state, 3_221_225_473),
            Json::Bool(b) => hash_bool(*b, state),
            Json::Number(n) => {
                match n {
                    Number::PosInt(x) => hash_unsigned(*x, state),
                    Number::NegInt(x) => hash_signed(*x, state),
                    Number::Float(bits) => hash_unsigned(*bits, state),
                }
            },
            Json::String(s) => hash_text(s, state),
            Json::Array(v) => {
                let ghost items = array_model(v@);
                let mut i: usize = 0;
                while i < v.len()
                    invariant
                        *self.0 == Json::Array(*v),
                        items == array_model(v@),
                        i <= v.len(),
                        state@ == fed_items(start, items, i as nat),
                    decreases v.len() - i,
                {
                    proof {
                        assert(decreases_to!(*self.0 => self.0->Array_0));
                        assert(decreases_to!(*v => v[i as int]));
                        assert(items[i as int] == v@[i as int]@);
                    }
                    ValueWrapper(&v[i]).hash(state);
                    i += 1;
                }
            },
            Json::Object(map) => {
                let ghost members = members_model(map@);
                let mut hash: u64 = 0;
                let mut i: usize = 0;
                while i < map.len()
                    invariant
                        *self.0 == Json::Object(*map),
                        members == members_model(map@),
                        i <= map.len(),
                        hash == members_digest(members, i as nat),
                    decreases map.len() - i,
                {
                    proof {
                        assert(decreases_to!(*self.0 => self.0->Object_0));
                        assert(decreases_to!(*map => map[i as int]));
                        assert(members[i as int] == (map@[i as int].0@, map@[i as int].1@));
                    }
                    let mut item_hasher = DefaultHasher::new();
                    hash_text(&map[i].0, &mut item_hasher);
                    ValueWrapper(&map[i].1).hash(&mut item_hasher);
                    let item_hash = item_hasher.finish();
                    assert(item_hash == member_digest(members[i as int].0, members[i as int].1));
                    hash = hash ^ item_hash;
                    i += 1;
                }
                write_u64(state, hash);
            },
        }
    }
}

/// An inference that is still to be made: the value to read and whether
/// the formats of its strings are to be detected.
pub struct JSONSchema<'a> {
    input: &'a Json,
    detect_format: bool,
}

impl<'a> JSONSchema<'a> {
    /// The value that will be read.
    pub closed spec fn spec_input(&self) -> &'a Json {
        self.input
    }

    /// Whether the formats of strings will be detected.
    pub closed spec fn spec_detect_format(&self) -> bool {
        self.detect_format
    }

    /// An inference over `input` that detects the formats of strings.
    pub fn new(input: &'a Json) -> (r: JSONSchema<'a>)
        ensures
            r.spec_input() == input,
            r.spec_detect_format(),
    {
        JSONSchema { input, detect_format: true }
    }

    /// The same inference with the detection of formats switched on or off.
    pub fn detect_format(self, detect_format: bool) -> (r: Self)
        ensures
            r.spec_input() == self.spec_input(),
            r.spec_detect_format() == detect_format,
    {
        let mut schema = self;
        schema.detect_format = detect_format;
        schema
    }

    /// Infers the fragment of the value, siblings in the order of their hashes.
    pub fn infer_fragment(&self) -> (r: Fragment)
        ensures
            r@ == infer_shape(self.spec_input()@, self.spec_detect_format(), Keying::Hash),
            well_formed(r@),
    {
        infer_value(self.input, self.detect_format, Keying::Hash)
    }

    /// Infers the schema document of the value.
    pub fn infer(&self) -> (r: Json)
        ensures
            r@ == schema_document(self.spec_input()@, self.spec_detect_format(), Keying::Hash),
    {
        infer_document(self.input, self.detect_format, Keying::Hash)
    }
}

/// Infers the schema document of a value, detecting the formats of strings.
pub fn infer(input: &Json) -> (r: Json)
    ensures
        r@ == schema_document(input@, true, Keying::Hash),
{
    JSONSchema::new(input).infer()
}

} // verus!
