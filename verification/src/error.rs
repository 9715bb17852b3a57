//! Error types: schema-construction errors, compression errors and
//! decompression errors.  Every runtime failure is a returned value, never an
//! abort.

use vstd::prelude::*;

verus! {

/// An error found while building a schema from a declaration.
#[derive(Clone, Copy, Debug, PartialEq, Eq, Structural)]
pub enum SchemaError {
    /// An integer field carries no declared bound.
    MissingBound,
    /// An integer field carries more than one declared bound.
    MultipleBounds,
    /// A tagged variant declares no case at all.
    NoCases,
    /// A tagged variant declares more cases than the fixed-width
    /// discriminant can name.
    TooManyCases,
}

/// An error found while compressing a value.
#[derive(Clone, Copy, Debug, PartialEq, Eq, Structural)]
pub enum CompressError {
    /// A value exceeds its declared inclusive bound.
    ValueExceedsMax,
}

/// An error found while decompressing a bit stream.
#[derive(Clone, Copy, Debug, PartialEq, Eq, Structural)]
pub enum DecompressError {
    /// The buffer holds fewer bits than the schema demands.
    WrongBytesLength,
    /// A discriminant names no declared case.
    UnknownVariant,
    /// A raw read ran past the end of the bit buffer.
    InsufficientBits,
}

} // verus!
