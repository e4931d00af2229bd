//! Linear indexing of three-dimensional arrays, as `ndshape` does it.

use vstd::prelude::*;
use ndshape::{RuntimeShape, Shape};

verus! {

/// The modulus of `u32` arithmetic.
pub open spec fn u32_modulus() -> int {
    0x1_0000_0000
}

/// `a * b` as `u32::wrapping_mul` computes it.
pub open spec fn wrapping_mul_u32(a: int, b: int) -> int {
    (a * b) % u32_modulus()
}

/// The shape `dims` can be built by `RuntimeShape::<u32, 3>::new` without an
/// overflow of its strides or of its size.
pub open spec fn shape_fits(dims: [u32; 3]) -> bool {
    &&& dims[0] * dims[1] <= u32::MAX
    &&& dims[0] * dims[1] * dims[2] <= u32::MAX
}

/// The number of elements of an array of shape `dims`.
pub open spec fn shape_size(dims: [u32; 3]) -> int {
    dims[0] * dims[1] * dims[2]
}

/// The linear index of `p` in an array of shape `dims`: `x + X * y + X * Y * z`,
/// where the two products wrap around as `u32` values.
pub open spec fn linear_index(dims: [u32; 3], p: [u32; 3]) -> int {
    p[0] + wrapping_mul_u32(dims[0] as int, p[1] as int) + wrapping_mul_u32(
        dims[0] * dims[1],
        p[2] as int,
    )
}

/// The linear index of `p` is computed without an overflow of the additions.
pub open spec fn linearizable(dims: [u32; 3], p: [u32; 3]) -> bool {
    linear_index(dims, p) <= u32::MAX
}

/// Calls `RuntimeShape::<u32, 3>::new(dims).linearize(p)`.
///
/// `new` stores the strides `[1, X, X * Y]`; `linearize` returns
/// `p[0] + X.wrapping_mul(p[1]) + (X * Y).wrapping_mul(p[2])`. The products in
/// `new` and the two additions in `linearize` are plain `u32` operations, so
/// the contract asks that none of them overflow.
#[verifier::external_body]
pub(crate) fn ndshape_linearize(dims: [u32; 3], p: [u32; 3]) -> (index: u32)
    requires
        shape_fits(dims),
        linearizable(dims, p),
    ensures
        index == linear_index(dims, p),
{
    RuntimeShape::<u32, 3>::new(dims).linearize(p)
}

/// Calls `RuntimeShape::<u32, 3>::new(dims).size()`, which `new` computes as
/// `X * Y * Z` with plain `u32` products.
#[verifier::external_body]
pub(crate) fn ndshape_size(dims: [u32; 3]) -> (size: u32)
    requires
        shape_fits(dims),
    ensures
        size == shape_size(dims),
{
    RuntimeShape::<u32, 3>::new(dims).size()
}

/// `x + X * y + X * Y * z` without any wrap-around.
pub open spec fn plain_index(dims: [u32; 3], p: [u32; 3]) -> int {
    p[0] + dims[0] * p[1] + dims[0] * dims[1] * p[2]
}

/// `p` lies inside `dims` coordinate by coordinate.
pub open spec fn in_shape(dims: [u32; 3], p: [u32; 3]) -> bool {
    p[0] < dims[0] && p[1] < dims[1] && p[2] < dims[2]
}

/// `p` is at most `q` coordinate by coordinate.
pub open spec fn coords_le(p: [u32; 3], q: [u32; 3]) -> bool {
    p[0] <= q[0] && p[1] <= q[1] && p[2] <= q[2]
}

/// Below a point whose plain index fits in `u32`, no product wraps, and the
/// linear index is the plain one and grows with each coordinate.
pub proof fn lemma_index_below(dims: [u32; 3], p: [u32; 3], q: [u32; 3])
    requires
        coords_le(p, q),
        plain_index(dims, q) <= u32::MAX,
    ensures
        linear_index(dims, p) == plain_index(dims, p),
        plain_index(dims, p) <= plain_index(dims, q),
{
    let x = dims[0] as int;
    let xy = dims[0] * dims[1];
    assert(x * p[1] <= x * q[1]) by (nonlinear_arith)
        requires x >= 0, p[1] <= q[1];
    assert(xy * p[2] <= xy * q[2]) by (nonlinear_arith)
        requires xy >= 0, p[2] <= q[2];
    assert(x * p[1] >= 0) by (nonlinear_arith)
        requires x >= 0;
    assert(xy * p[2] >= 0) by (nonlinear_arith)
        requires xy >= 0;
    assert(x * q[1] >= 0) by (nonlinear_arith)
        requires x >= 0;
    assert(xy * q[2] >= 0) by (nonlinear_arith)
        requires xy >= 0;
    assert(wrapping_mul_u32(x, p[1] as int) == x * p[1]) by {
        vstd::arithmetic::div_mod::lemma_small_mod((x * p[1]) as nat, u32_modulus() as nat);
    }
    assert(wrapping_mul_u32(xy, p[2] as int) == xy * p[2]) by {
        vstd::arithmetic::div_mod::lemma_small_mod((xy * p[2]) as nat, u32_modulus() as nat);
    }
}

/// Inside the shape, the plain index is below the shape's size.
pub proof fn lemma_index_in_shape(dims: [u32; 3], p: [u32; 3])
    requires
        in_shape(dims, p),
    ensures
        0 <= plain_index(dims, p) < shape_size(dims),
{
    let x = dims[0] as int;
    let y = dims[1] as int;
    let z = dims[2] as int;
    let (a, b, c) = (p[0] as int, p[1] as int, p[2] as int);
    assert(a + x * b + x * y * c < x * y * z) by (nonlinear_arith)
        requires 0 <= a < x, 0 <= b < y, 0 <= c < z;
    assert(a + x * b + x * y * c >= 0) by (nonlinear_arith)
        requires 0 <= a, 0 <= b, 0 <= c, 0 <= x, 0 <= y;
}

/// Inside the shape, distinct points have distinct indices.
pub proof fn lemma_index_injective(dims: [u32; 3], p: [u32; 3], q: [u32; 3])
    requires
        in_shape(dims, p),
        in_shape(dims, q),
        plain_index(dims, p) == plain_index(dims, q),
    ensures
        p == q,
{
    let x = dims[0] as int;
    let y = dims[1] as int;
    let (a, b, c) = (p[0] as int, p[1] as int, p[2] as int);
    let (d, e, f) = (q[0] as int, q[1] as int, q[2] as int);
    // a + x * (b + y * c) == d + x * (e + y * f)
    assert(x * b + x * y * c == x * (b + y * c)) by (nonlinear_arith);
    assert(x * e + x * y * f == x * (e + y * f)) by (nonlinear_arith);
    vstd::arithmetic::div_mod::lemma_fundamental_div_mod_converse(
        a + x * (b + y * c), x, b + y * c, a);
    vstd::arithmetic::div_mod::lemma_fundamental_div_mod_converse(
        d + x * (e + y * f), x, e + y * f, d);
    vstd::arithmetic::div_mod::lemma_fundamental_div_mod_converse(
        b + y * c, y, c, b);
    vstd::arithmetic::div_mod::lemma_fundamental_div_mod_converse(
        e + y * f, y, f, e);
    assert(p[0] == q[0] && p[1] == q[1] && p[2] == q[2]);
    assert(p =~= q);
}

} // verus!
