//! Fixed-dimension dense matrices and vectors.
//!
//! The storage, shape checks, addressing and the index structure of every
//! operation are verified here, generically over the entry type. The scalar
//! arithmetic is supplied by the caller as closures, and the laws module
//! states what holds of the results when those closures obey the usual
//! algebraic laws.

pub mod error;
pub mod laws;
pub mod matrix;
pub mod semiring;
pub mod vector;
