//! Core error types.

use vstd::prelude::*;

verus! {

/// Why a Crockford-base32 [`crate::base::ids::MemoryId`] string failed to parse.
#[derive(Clone, Copy, Debug, PartialEq, Eq, Structural)]
pub enum IdParseError {
    /// A `MemoryId` is exactly 26 Crockford-base32 characters (bytes).
    WrongLength(usize),
    /// A character outside the Crockford base32 alphabet was encountered.
    InvalidChar(char),
    /// The leading character encodes more than 128 bits of value.
    Overflow,
}

/// The top-level error type of the core layer.
#[derive(Clone, Debug, PartialEq, Eq)]
pub enum EngramError {
    /// A value could not be serialized.
    Encode(String),
    /// Bytes could not be deserialized into the requested type.
    Decode(String),
    /// A [`crate::base::ids::MemoryId`] string failed to parse.
    Id(IdParseError),
}

} // verus!
