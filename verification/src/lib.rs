//! Converts a JSON document into a protobuf message definition: a verified
//! JSON parser builds an order-preserving syntax tree, schema inference maps
//! it to a message tree, and a generator renders the indented `.proto` text.

use vstd::prelude::*;

pub mod numlit;
pub mod parser;
pub mod pbgen;

verus! {

use crate::parser::{JsonView, ParseError, ParseErrorKind, MAX_DEPTH, spec_parse_root, root};
use crate::pbgen::{FieldView, SchemaError, GEN_DEPTH, spec_visit_root, spec_gen_pb_def};

/// Why a conversion produced no output: the input was not JSON, or it was
/// JSON of a shape that has no message schema.
#[derive(Debug, PartialEq, Eq, Structural, Clone, Copy)]
pub enum ConvertError {
    Parse(ParseError),
    Schema(SchemaError),
}

impl ConvertError {
    /// A human-readable description of the error.
    pub fn describe(&self) -> (r: &'static str)
        ensures
            r@.len() > 0,
    {
        match self {
            ConvertError::Parse(e) => e.describe(),
            ConvertError::Schema(e) => e.describe(),
        }
    }
}

/// Parses a JSON document and renders the protobuf definition of its
/// inferred schema.
pub fn parse_and_gen(source_code: &str) -> (r: Result<String, ConvertError>)
    ensures
        match r {
            Ok(text) => spec_parse_root(source_code@) is Ok && spec_visit_root(
                spec_parse_root(source_code@)->Ok_0,
            ) is Ok && text@ == spec_gen_pb_def(
                spec_visit_root(spec_parse_root(source_code@)->Ok_0)->Ok_0,
            ),
            Err(ce) => match ce {
                ConvertError::Parse(e) => spec_parse_root(source_code@) == Err::<
                    JsonView,
                    (int, ParseErrorKind),
                >((e.pos as int, e.kind)),
                ConvertError::Schema(e) => spec_parse_root(source_code@) is Ok
                    && spec_visit_root(spec_parse_root(source_code@)->Ok_0) == Err::<
                    Seq<FieldView>,
                    SchemaError,
                >(e),
            },
        },
{
    match root(source_code) {
        Err(e) => Err(ConvertError::Parse(e)),
        Ok(v) => match crate::pbgen::visit_json_root(&v) {
            Err(e) => Err(ConvertError::Schema(e)),
            Ok(m) => {
                proof {
                    crate::pbgen::lemma_infer_root_depth(v.view(), MAX_DEPTH as int);
                    assert(GEN_DEPTH as int == MAX_DEPTH as int);
                }
                Ok(crate::pbgen::gen_pb_def(&m))
            },
        },
    }
}

} // verus!
