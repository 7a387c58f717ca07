//! Error types shared by matrices and vectors.

use vstd::prelude::*;

verus! {

/// Errors raised by matrix construction and indexed writes.
#[derive(Debug, Clone, Copy, PartialEq, Eq, Structural)]
pub enum MatrixError {
    /// The data length does not equal rows times columns.
    InvalidDimensions,
    /// A (row, column) pair lies outside the matrix.
    UndefinedIndex,
}

/// Errors raised by vector operations.
#[derive(Debug, Clone, Copy, PartialEq, Eq, Structural)]
pub enum VectorError {
    /// The operands do not have the same dimension.
    InvalidDimensions,
}

} // verus!
