//! Constructive solid geometry nodes that combine two signed distance fields.
//!
//! A node holds its two operands; evaluating a node at a point combines the
//! operands' distances there (the union takes the smaller, the subtraction
//! the larger of the first distance and the negated second one).

use vstd::prelude::*;

verus! {

/// The union of two shapes.
pub struct SDFUnion<A, B> {
    pub shape_a: A,
    pub shape_b: B,
}

impl<A, B> SDFUnion<A, B> {
    /// The union of `shape_a` and `shape_b`.
    pub fn new(shape_a: A, shape_b: B) -> (union: SDFUnion<A, B>)
        ensures
            union.shape_a == shape_a,
            union.shape_b == shape_b,
    {
        SDFUnion { shape_a, shape_b }
    }
}

/// `shape_b` cut out of `shape_a`.
pub struct SDFSubtraction<A, B> {
    pub shape_a: A,
    pub shape_b: B,
}

impl<A, B> SDFSubtraction<A, B> {
    /// `shape_b` cut out of `shape_a`.
    pub fn new(shape_a: A, shape_b: B) -> (subtraction: SDFSubtraction<A, B>)
        ensures
            subtraction.shape_a == shape_a,
            subtraction.shape_b == shape_b,
    {
        SDFSubtraction { shape_a, shape_b }
    }
}

} // verus!
