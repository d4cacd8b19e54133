//! Inference with sibling shapes in the order of their canonical texts.

use crate::engine::{infer_document, infer_shape, infer_value, schema_document, Keying};
use crate::fragment::Fragment;
use crate::json::Json;
use crate::laws::well_formed;
use vstd::prelude::*;

verus! {

/// An inference that is still to be made: the value to read and whether
/// the formats of its strings are to be detected.
pub struct JSONSchema<'a> {
    input: &'a Json,
    detect_format: bool,
}

impl<'a> JSONSchema<'a> {
    /// The value that will be read.
    pub closed spec fn spec_input(&self) -> &'a Json {
        self.input
    }

    /// Whether the formats of strings will be detected.
    pub closed spec fn spec_detect_format(&self) -> bool {
        self.detect_format
    }

    /// An inference over `input` that detects the formats of strings.
    pub fn new(input: &'a Json) -> (r: JSONSchema<'a>)
        ensures
            r.spec_input() == input,
            r.spec_detect_format(),
    {
        JSONSchema { input, detect_format: true }
    }

    /// The same inference with the detection of formats switched on or off.
    pub fn detect_format(self, detect_format: bool) -> (r: Self)
        ensures
            r.spec_input() == self.spec_input(),
            r.spec_detect_format() == detect_format,
    {
        let mut schema = self;
        schema.detect_format = detect_format;
        schema
    }

    /// Infers the fragment of the value, siblings in the order of their texts.
    pub fn infer_fragment(&self) -> (r: Fragment)
        ensures
            r@ == infer_shape(self.spec_input()@, self.spec_detect_format(), Keying::Text),
            well_formed(r@),
    {
        infer_value(self.input, self.detect_format, Keying::Text)
    }

    /// Infers the schema document of the value.
    pub fn infer(&self) -> (r: Json)
        ensures
            r@ == schema_document(self.spec_input()@, self.spec_detect_format(), Keying::Text),
    {
        infer_document(self.input, self.detect_format, Keying::Text)
    }
}

/// Infers the schema document of a value, detecting the formats of strings.
pub fn infer(input: &Json) -> (r: Json)
    ensures
        r@ == schema_document(input@, true, Keying::Text),
{
    JSONSchema::new(input).infer()
}

} // verus!
