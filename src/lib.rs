//! The native core of a small declarative language: a scanner that turns
//! source text into positioned tokens under indentation rules, and an
//! interpreter that runs a flow, given as JSON, against keyed state while it
//! records an execution trace. Around them stand the JSON codec they use, a
//! SHA-256 digest, a chunk planner and a text normalizer. Every function is
//! stated and proved against spec functions.
pub mod chunk_plan;
pub mod exec;
pub mod json;
pub mod json_parse;
pub mod normalize;
pub mod scan;
pub mod sha256;
pub mod text;

use vstd::prelude::*;

verus! {

/// The outcome of a call at the library's boundary.
#[allow(non_camel_case_types)]
#[derive(Copy, Clone, Debug, Eq, PartialEq, Structural)]
pub enum n3_status {
    N3_STATUS_OK,
    N3_STATUS_NOT_IMPLEMENTED,
    N3_STATUS_INVALID_ARGUMENT,
    N3_STATUS_INVALID_STATE,
    N3_STATUS_ERROR,
}

/// Options of a chunk plan at the library's boundary.
#[allow(non_camel_case_types)]
#[derive(Copy, Clone, Debug)]
pub struct n3_chunk_options {
    pub max_chars: u32,
    pub overlap: u32,
}

} // verus!
