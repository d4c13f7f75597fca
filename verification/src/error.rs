//! The ways in which decoding can fail.

use vstd::prelude::*;

verus! {

/// Why a decode operation stopped. Every failure is final for the operation that reports it.
#[derive(Clone, Copy, Debug, PartialEq, Eq)]
pub enum DecodeError {
    /// Fewer bytes were left at byte `offset` than the record being read calls for.
    Truncated { offset: usize },
    /// The byte `tag` at byte `offset` is not the tag of any entry kind.
    UnknownTag { offset: usize, tag: u8 },
    /// The bytes at byte `offset` are not a well-formed encoding of a character.
    MalformedEncoding { offset: usize },
    /// Entry number `entry` refers to `index`, which is zero or beyond the end of the table.
    DanglingReference { entry: usize, index: usize },
    /// Entry number `entry` refers to entry `index`, which is of the wrong kind.
    TypeMismatch { entry: usize, index: usize },
    /// The text is not a field descriptor.
    InvalidDescriptor,
}

} // verus!
