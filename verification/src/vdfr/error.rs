//! Why a decode stops.

use vstd::prelude::*;

verus! {

/// How reading the input failed.
#[derive(Debug, Clone, Copy, PartialEq, Eq, Structural)]
pub enum ReadFault {
    /// The input ended inside a fixed-width field.
    UnexpectedEnd,
}

/// What is wrong with the structure of the input.
#[derive(Debug, Clone, Copy, PartialEq, Eq, Structural)]
pub enum ParseFault {
    /// A string runs to the end of the input without its terminator.
    MissingNul,
    /// The string pool is said to start inside the header.
    PoolOffset,
    /// Tables nest deeper than [`crate::vdfr::decode::MAX_DEPTH`].
    TooDeep,
}

#[derive(Debug, Clone, Copy, PartialEq, Eq, Structural)]
pub enum VdfrError {
    /// The tag byte of an entry names no kind of value.
    InvalidType(u8),
    ReadError(ReadFault),
    /// The catalog's version word is none of the three known.
    UnknownMagic(u32),
    ParseError(ParseFault),
    /// A key index, and the length of the pool it does not fit.
    InvalidStringIndex(usize, usize),
}

/// The error of an input that ends too early.
pub open spec fn truncated() -> VdfrError {
    VdfrError::ReadError(ReadFault::UnexpectedEnd)
}

/// The error of a string without terminator.
pub open spec fn unterminated() -> VdfrError {
    VdfrError::ParseError(ParseFault::MissingNul)
}

} // verus!
