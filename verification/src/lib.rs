//! A dense, strided N-dimensional array library with row-major layout.
//!
//! The dimensionality of every shape, coordinate, and stride vector is
//! carried at runtime; every operation states as a precondition that the
//! vectors it combines have matching lengths.

pub mod array;
pub mod field;
pub mod index_tricks;
pub mod ranges;
pub mod render;

pub use array::{Array, ArrayView, ArrayBase, Shape, Strides, Zeros, Rand, View, Reshape, Slice};
pub use field::Field;
pub use ranges::{Range, RangeIterator};

use vstd::prelude::*;

verus! {

/// The two recoverable failures of the library: a shape/element-count
/// incompatibility, and a request for a zero-copy window over a region
/// that is not memory-contiguous. Each carries a descriptive message.
#[derive(Clone, Debug, PartialEq)]
pub enum Error {
    DimensionError(String),
    MemoryError(String),
}

impl Error {
    /// The message carried by either variant.
    pub fn message(&self) -> &String {
        match self {
            Error::DimensionError(m) => m,
            Error::MemoryError(m) => m,
        }
    }
}

} // verus!
