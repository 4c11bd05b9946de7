//! Typed failures of the codec. Every operation of the crate reports
//! corruption or invalid input through one of these values; nothing is
//! recovered silently and no defaults are substituted for malformed data.

use vstd::prelude::*;

verus! {

/// The failure kinds of the codec, one per structural or value-level fault.
#[derive(Clone, Copy, Debug, PartialEq, Eq, Structural)]
pub enum CodecError {
    /// The base64 text framing is malformed.
    InvalidEncoding,
    /// The byte stream of a bag ends before all referenced cells are present.
    TruncatedBag,
    /// A child or root index of a bag points outside its cell table.
    DanglingReference,
    /// A child index of a bag points at the cell itself or a later cell, so
    /// decoding it would require a cycle.
    CyclicReference,
    /// A single cell is malformed: its bit length exceeds the maximum for one
    /// node, it has more than four children, or its payload bytes do not
    /// match its declared bit length.
    MalformedCell,
    /// A dictionary subtree violates the prefix-tree invariants.
    MalformedDictionary,
    /// The requested parameter id is absent from the configuration.
    ParameterNotFound,
    /// The parameter id has no registered codec.
    UnsupportedParameter,
    /// A cell's shape does not match what the parameter's schema expects.
    SchemaMismatch,
    /// A JSON field is missing, has the wrong type, or is out of the
    /// representable range for its binary width.
    InvalidValue,
    /// The top-level JSON is not an object of the expected form.
    InvalidJson,
}

impl CodecError {
    /// A short, stable description of the failure, for boundary layers that
    /// need a human-readable message.
    pub fn describe(&self) -> &'static str {
        match self {
            CodecError::InvalidEncoding => "invalid base64 encoding",
            CodecError::TruncatedBag => "truncated bag of cells",
            CodecError::DanglingReference => "dangling cell reference",
            CodecError::CyclicReference => "cyclic cell reference",
            CodecError::MalformedCell => "malformed cell",
            CodecError::MalformedDictionary => "malformed dictionary",
            CodecError::ParameterNotFound => "parameter not found",
            CodecError::UnsupportedParameter => "unsupported parameter",
            CodecError::SchemaMismatch => "schema mismatch",
            CodecError::InvalidValue => "invalid value",
            CodecError::InvalidJson => "invalid json",
        }
    }
}

} // verus!
