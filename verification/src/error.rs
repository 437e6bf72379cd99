//! The uniform error channel of the load path.
//!
//! Every layer of the engine (cursor, primitive codec, structural codec,
//! property graph, plot table) surfaces failure through this one type; any
//! fatal error aborts the whole load, so a partially decoded graph is never
//! handed to a caller.

use vstd::prelude::*;

verus! {

/// A fatal decoding failure.
#[derive(Clone, Copy, Debug, PartialEq, Eq, Structural)]
pub enum DecodeError {
    /// A read ran past the end of the buffer: the file is truncated or not a
    /// save file at all.
    OutOfBounds,
    /// A decoded payload disagrees with its declared size, a count is
    /// inconsistent, or a value lies outside what the format allows.
    Corrupt,
    /// An enumeration tag byte names no variant of its enumeration.
    UnknownEnumTag,
}

impl DecodeError {
    /// A short human-readable description of the failure.
    pub fn describe(&self) -> (r: &'static str)
        ensures
            r@ =~= match *self {
                DecodeError::OutOfBounds => "read past the end of the buffer"@,
                DecodeError::Corrupt => "corrupt or mismatched save data"@,
                DecodeError::UnknownEnumTag => "unknown enumeration tag"@,
            },
    {
        match *self {
            DecodeError::OutOfBounds => "read past the end of the buffer",
            DecodeError::Corrupt => "corrupt or mismatched save data",
            DecodeError::UnknownEnumTag => "unknown enumeration tag",
        }
    }
}

} // verus!
