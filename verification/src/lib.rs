//! Dyadic shape-transformation and array-search engine for an
//! array-oriented runtime: reshape, rerank, keep, rotate, sliding
//! windows, sub-array search and batched matrix multiplication over
//! n-dimensional row-major arrays.
#![verifier::loop_isolation(false)]
use vstd::prelude::*;

pub mod align;
pub mod array;
pub mod buffer;
pub mod dispatch;
pub mod find;
pub mod index;
pub mod keep;
pub mod mask;
pub mod matmul;
pub mod rerank;
pub mod reshape;
pub mod rotate;
pub mod search;
pub mod windows;

verus! {

/// The failure kinds that the operators report. Every operator either
/// returns a fully shape-consistent array or exactly one of these.
#[derive(Clone, Copy, Debug, PartialEq, Eq, Structural)]
pub enum ArrayError {
    /// Two shapes (or shape prefixes) that must agree do not.
    ShapeMismatch,
    /// An operand's rank is unusable for the requested operation.
    RankMismatch,
    /// A reshape specifier holds more than one placeholder dimension.
    AmbiguousShape,
    /// A derived or given dimension is zero or negative where a positive
    /// size is needed.
    ZeroOrNegativeDimension,
    /// A keep count is not a natural number.
    InvalidKeep,
    /// An inverse was asked of a forward transform that cannot be undone.
    NotInvertible,
    /// An inverse was handed fewer rows than the forward pass produced.
    LengthMismatch,
    /// Two element types cannot be reconciled by any documented coercion.
    TypeMismatch,
    /// More rotation offsets than the rotated array has axes.
    TooManyIndices,
    /// A window size of zero.
    ZeroWindow,
    /// Two matrix operands whose row shapes share no common prefix.
    ShapePrefixMismatch,
    /// An element count that exceeds what this machine can address.
    SizeOverflow,
}

} // verus!
