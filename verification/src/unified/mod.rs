//! Ordered reasoning, text and tool-call parsing through one state machine.

pub mod batch;
pub mod choice;
pub mod deltas;
pub mod field_laws;
pub mod laws;
pub mod outside;
pub mod request;
pub mod stream;
pub mod stream_field_laws;
pub mod stream_laws;
pub mod types;
pub mod whole_stream;

use vstd::prelude::*;

verus! {

/// Why a turn could not be parsed.
#[derive(Debug)]
pub enum UnifiedParserError {
    /// There is no rule that tells this family's prefill from its output.
    NoPrefillDetector { family: String },
    /// The parser refused.
    Parser(anyhow::Error),
    /// A call's arguments could not be written out.
    Arguments(serde_json::Error),
}

} // verus!
