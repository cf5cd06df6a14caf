//! The scalar of the tree: a 64-bit integer whose two extreme values stand
//! for negative and positive infinity, with arithmetic that saturates there.

use vstd::prelude::*;

verus! {

/// The scalar that stands for positive infinity.
pub const INFINITY: i64 = i64::MAX;

/// The scalar that stands for negative infinity.
pub const NEG_INFINITY: i64 = i64::MIN;

/// The scalar nearest to the integer `x`: `x` itself where it fits, else the
/// infinity on its side.
pub open spec fn saturate(x: int) -> i64 {
    if x > i64::MAX {
        i64::MAX
    } else if x < i64::MIN {
        i64::MIN
    } else {
        x as i64
    }
}

/// A scalar is finite when it is neither of the two infinities.
pub open spec fn spec_is_finite(x: i64) -> bool {
    i64::MIN < x < i64::MAX
}

/// `num_traits::zero` at `i64`: the additive identity, 0.
#[verifier::external_body]
pub(crate) fn zero() -> (r: i64)
    ensures
        r == 0,
{
    num_traits::zero()
}

/// `num_traits::Bounded::max_value` at `i64`: the largest value of the type.
#[verifier::external_body]
pub(crate) fn infinity() -> (r: i64)
    ensures
        r == INFINITY,
{
    num_traits::Bounded::max_value()
}

/// `num_traits::Bounded::min_value` at `i64`: the smallest value of the type.
#[verifier::external_body]
pub(crate) fn neg_infinity() -> (r: i64)
    ensures
        r == NEG_INFINITY,
{
    num_traits::Bounded::min_value()
}

/// `num_traits::SaturatingAdd::saturating_add` at `i64`: the sum, held at the
/// bound of the type that it would pass.
#[verifier::external_body]
pub(crate) fn saturating_add(a: i64, b: i64) -> (r: i64)
    ensures
        r == saturate(a + b),
{
    num_traits::SaturatingAdd::saturating_add(&a, &b)
}

/// `num_traits::SaturatingSub::saturating_sub` at `i64`: the difference, held
/// at the bound of the type that it would pass.
#[verifier::external_body]
pub(crate) fn saturating_sub(a: i64, b: i64) -> (r: i64)
    ensures
        r == saturate(a - b),
{
    num_traits::SaturatingSub::saturating_sub(&a, &b)
}

/// `num_traits::SaturatingMul::saturating_mul` at `i64`: the product, held at
/// the bound of the type that it would pass.
#[verifier::external_body]
pub(crate) fn saturating_mul(a: i64, b: i64) -> (r: i64)
    ensures
        r == saturate(a * b),
{
    num_traits::SaturatingMul::saturating_mul(&a, &b)
}

/// `num_traits::Signed::is_negative` at `i64`: whether the value is below 0.
#[verifier::external_body]
pub(crate) fn is_negative(x: i64) -> (r: bool)
    ensures
        r == (x < 0),
{
    num_traits::Signed::is_negative(&x)
}

/// `num_traits::Signed::is_positive` at `i64`: whether the value is above 0.
#[verifier::external_body]
pub(crate) fn is_positive(x: i64) -> (r: bool)
    ensures
        r == (x > 0),
{
    num_traits::Signed::is_positive(&x)
}

/// Whether `x` is finite.
pub fn is_finite(x: i64) -> (r: bool)
    ensures
        r == spec_is_finite(x),
{
    neg_infinity() < x && x < infinity()
}

/// The midpoint of `lo` and `hi`, rounded up to the next integer.
pub open spec fn spec_midpoint(lo: int, hi: int) -> int {
    lo + (hi - lo + 1) / 2
}

/// The value at which a box that spans `lo..=hi` on an axis is cut in two:
/// the midpoint, rounded up. An integer lies below it exactly when it lies
/// below the midpoint itself.
pub fn midpoint(lo: i64, hi: i64) -> (r: i64)
    requires
        lo <= hi,
    ensures
        r == spec_midpoint(lo as int, hi as int),
        lo <= r <= hi,
        lo < hi ==> lo < r,
{
    let wide: i128 = lo as i128 + (hi as i128 - lo as i128 + 1) / 2;
    wide as i64
}

/// Cutting at the rounded midpoint parts the integers as cutting at the
/// exact midpoint `(lo + hi) / 2` does.
pub proof fn lemma_midpoint_is_exact(lo: int, hi: int, p: int)
    requires
        lo <= hi,
    ensures
        p < spec_midpoint(lo, hi) <==> 2 * p < lo + hi,
{
}

} // verus!
