use vstd::prelude::*;

verus! {

/// Why a byte buffer was rejected as a RefPack stream.
#[derive(Clone, Copy, Debug, PartialEq, Eq, Structural)]
pub enum FormatError {
    /// The marker byte of the header is not the RefPack marker.
    BadSignature,
    /// The input ends before a structurally required byte.
    Truncated,
    /// A copy token reaches back before the start of the output.
    OffsetOutOfRange,
    /// The decoded byte count differs from the length the header declares.
    LengthMismatch,
}

impl FormatError {
    /// A short human-readable description of the error.
    pub fn describe(&self) -> (text: &'static str)
        ensures
            text@ == spec_describe(*self)@,
    {
        match self {
            FormatError::BadSignature => "header marker byte mismatch",
            FormatError::Truncated => "input ends before a required byte",
            FormatError::OffsetOutOfRange => "copy offset reaches before the start of the output",
            FormatError::LengthMismatch => "decoded length differs from the declared length",
        }
    }
}

/// The text that [`FormatError::describe`] returns for each error.
pub open spec fn spec_describe(e: FormatError) -> &'static str {
    match e {
        FormatError::BadSignature => "header marker byte mismatch",
        FormatError::Truncated => "input ends before a required byte",
        FormatError::OffsetOutOfRange => "copy offset reaches before the start of the output",
        FormatError::LengthMismatch => "decoded length differs from the declared length",
    }
}

} // verus!
