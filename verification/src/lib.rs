//! Sparse direct solver for square, unsymmetric linear systems: compressed
//! sparse column storage, triangular solves and a left-looking LU
//! factorization with partial pivoting.
//!
//! The arithmetic is abstract: every numeric routine is generic over a
//! [`Scalar`], and its contract relates the result to the inputs through the
//! operations of that scalar, whatever they compute.
#![allow(unused_imports)]

/// The arithmetic that the numeric routines are generic over.
pub mod scalar;
pub use scalar::Scalar;

/// Constructor for a given sparsity pattern
pub mod builder;
pub use builder::{BuilderInsertError, SparsityPattern, SparsityPatternBuilder};

/// Reachability in the graph of a triangular pattern.
pub mod reach;

/// Restoring the order of a lane after two indices have changed places.
pub mod resort;

/// Compressed Sparse Matrix.
pub mod cs;

/// Compressed Sparse Column Matrix
pub mod csc;
pub use csc::Csc;

/// Triangular solves and products on a compressed sparse column matrix.
pub mod triangular;

/// Sparse LU algorithm
pub mod sparse_lu;
pub use sparse_lu::LeftLookingLUFactorization;

/// What the triangular solves compute where the arithmetic is exact.
pub mod exact;

/// What a factorization computes where the arithmetic is exact.
pub mod factored;
