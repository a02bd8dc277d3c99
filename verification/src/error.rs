//! Why an operation was rejected.
use vstd::prelude::*;

verus! {

/// The reason an operation was rejected. A rejected operation changes nothing.
#[derive(Debug, Clone, Copy, PartialEq, Eq, Structural)]
pub enum TensorError {
    /// The operand shapes do not agree, or data does not fill the shape.
    ShapeMismatch,
    /// An operand has an element type the operation does not handle.
    DType,
    /// An operand has the wrong number of dimensions.
    Rank,
    /// A gradient to accumulate, or its target, is not contiguous.
    NonContiguous,
    /// The result would have more bytes than a machine word can count.
    TooLarge,
    /// An update does not fit the cache at the given position.
    CacheOverflow,
}

} // verus!
