//! The errors of writing and reading containers.

use vstd::prelude::*;

verus! {

/// Why a container could not be written or read.
#[derive(Clone, Copy, Debug, PartialEq, Eq, Structural)]
pub enum CodecError {
    /// A marker is missing or wrong, an entry is cut short, or a code does
    /// not fit the one-byte length field.
    Format,
    /// A stored code point is not a Unicode scalar value.
    InvalidSymbol,
    /// The packed bytes of a payload entry match no header entry.
    UnknownEncoding,
    /// A character of the text has no code in the code table.
    MissingCode,
}

impl CodecError {
    /// A short description of the error.
    pub fn message(&self) -> (text: &'static str)
        ensures
            text@ == (match *self {
                CodecError::Format => "malformed container"@,
                CodecError::InvalidSymbol => "code point is not a Unicode scalar value"@,
                CodecError::UnknownEncoding => "payload entry matches no header entry"@,
                CodecError::MissingCode => "character has no code"@,
            }),
    {
        match self {
            CodecError::Format => "malformed container",
            CodecError::InvalidSymbol => "code point is not a Unicode scalar value",
            CodecError::UnknownEncoding => "payload entry matches no header entry",
            CodecError::MissingCode => "character has no code",
        }
    }
}

} // verus!
