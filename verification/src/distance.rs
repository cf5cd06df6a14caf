//! The squared Euclidean distance, the metric that the tree is made for.

use crate::metric::{
    bounds_from_below, box_distance, clamp_coordinate, clamped, is_clamped, is_metric, models,
    shifted, tree_distance,
};
use crate::scalar::{saturate, saturating_add, saturating_mul, saturating_sub, zero};
use crate::tree::in_box;
use vstd::prelude::*;

verus! {

/// The sum, over the first `n` axes, of the squares of the differences of
/// the coordinates of `a` and `b`.
pub open spec fn sum_of_squared_gaps(a: Seq<i64>, b: Seq<i64>, n: nat) -> int
    decreases n,
{
    if n == 0 {
        0
    } else {
        sum_of_squared_gaps(a, b, (n - 1) as nat) + (a[n - 1] - b[n - 1]) * (a[n - 1] - b[n - 1])
    }
}

/// The squared Euclidean distance between `a` and `b`, as a scalar.
pub open spec fn spec_squared_euclidean<const K: usize>(a: [i64; K], b: [i64; K]) -> i64 {
    saturate(sum_of_squared_gaps(a@, b@, K as nat))
}

/// A sum of squared differences is not negative.
pub proof fn lemma_gaps_nonnegative(a: Seq<i64>, b: Seq<i64>, n: nat)
    ensures
        sum_of_squared_gaps(a, b, n) >= 0,
    decreases n,
{
    if n > 0 {
        lemma_gaps_nonnegative(a, b, (n - 1) as nat);
        assert((a[n - 1] - b[n - 1]) * (a[n - 1] - b[n - 1]) >= 0) by (nonlinear_arith);
    }
}

/// The square of a difference of two scalars, held at the largest scalar,
/// is the square of the difference held at the bounds, held at the largest
/// scalar.
proof fn lemma_square_of_saturated(x: int)
    requires
        -0x1_0000_0000_0000_0000 < x < 0x1_0000_0000_0000_0000,
    ensures
        saturate(saturate(x) * saturate(x)) == saturate(x * x),
{
    if x > i64::MAX {
        assert(x * x > i64::MAX) by (nonlinear_arith)
            requires
                x > 0x7fff_ffff_ffff_ffff,
        ;
        assert(saturate(x) * saturate(x) > i64::MAX) by (nonlinear_arith)
            requires
                saturate(x) == 0x7fff_ffff_ffff_ffff,
        ;
    } else if x < i64::MIN {
        assert(x * x > i64::MAX) by (nonlinear_arith)
            requires
                x < -0x8000_0000_0000_0000,
        ;
        assert(saturate(x) * saturate(x) > i64::MAX) by (nonlinear_arith)
            requires
                saturate(x) == -0x8000_0000_0000_0000,
        ;
    }
}

/// The squared Euclidean distance between `a` and `b`: the sum of the
/// squares of the differences of their coordinates, and the largest scalar
/// where that sum is too large for a scalar.
pub fn squared_euclidean<const K: usize>(a: &[i64; K], b: &[i64; K]) -> (r: i64)
    ensures
        r == spec_squared_euclidean(*a, *b),
{
    let mut total: i64 = zero();
    let mut d: usize = 0;
    while d < K
        invariant
            0 <= d <= K,
            total == saturate(sum_of_squared_gaps(a@, b@, d as nat)),
        decreases K - d,
    {
        let gap = saturating_sub(a[d], b[d]);
        let square = saturating_mul(gap, gap);
        proof {
            let x = a@[d as int] - b@[d as int];
            lemma_square_of_saturated(x);
            lemma_gaps_nonnegative(a@, b@, d as nat);
            assert(x * x >= 0) by (nonlinear_arith);
        }
        total = saturating_add(total, square);
        d += 1;
    }
    total
}

/// The function that says what `squared_euclidean` returns.
pub open spec fn squared_euclidean_model<const K: usize>() -> spec_fn([i64; K], [i64; K]) -> i64 {
    |a: [i64; K], b: [i64; K]| spec_squared_euclidean(a, b)
}

/// The squared Euclidean distance is a metric as the tree asks for one,
/// and `squared_euclidean_model` says what it returns.
pub proof fn lemma_squared_euclidean_is_metric<const K: usize>()
    ensures
        is_metric::<_, K>(squared_euclidean::<K>),
        models::<_, K>(squared_euclidean::<K>, squared_euclidean_model::<K>()),
{
}

/// Some point is `p` clamped to the box between `lo` and `hi` on the first
/// `n` axes.
proof fn lemma_clamped_so_far<const K: usize>(p: [i64; K], lo: [i64; K], hi: [i64; K], n: nat) -> (c:
    [i64; K])
    requires
        n <= K,
    ensures
        forall|d: int| 0 <= d < n ==> #[trigger] c@[d] == clamp_coordinate(p@[d], lo@[d], hi@[d]),
    decreases n,
{
    broadcast use vstd::array::group_array_axioms;

    if n == 0 {
        p
    } else {
        let before = lemma_clamped_so_far(p, lo, hi, (n - 1) as nat);
        let c = shifted(before, n - 1, clamp_coordinate(p@[n - 1], lo@[n - 1], hi@[n - 1]));
        assert forall|d: int| 0 <= d < n implies #[trigger] c@[d] == clamp_coordinate(
            p@[d],
            lo@[d],
            hi@[d],
        ) by {
            if d < n - 1 {
                assert(c@[d] == before@[d]);
            }
        }
        c
    }
}

/// The point of a box nearest to `p` is `p` clamped to the box.
pub proof fn lemma_clamped_is_clamped<const K: usize>(p: [i64; K], lo: [i64; K], hi: [i64; K])
    ensures
        is_clamped(clamped(p, lo, hi), p, lo, hi),
{
    let c = lemma_clamped_so_far(p, lo, hi, K as nat);
    assert(is_clamped(c, p, lo, hi));
}

/// On the first `n` axes, a point clamped to a box lies no farther from
/// the point it was clamped from than any point of the box does.
proof fn lemma_clamped_gaps<const K: usize>(
    q: [i64; K],
    c: [i64; K],
    p: [i64; K],
    lo: [i64; K],
    hi: [i64; K],
    n: nat,
)
    requires
        n <= K,
        is_clamped(c, q, lo, hi),
        in_box(p, lo, hi),
    ensures
        sum_of_squared_gaps(q@, c@, n) <= sum_of_squared_gaps(q@, p@, n),
    decreases n,
{
    if n > 0 {
        lemma_clamped_gaps(q, c, p, lo, hi, (n - 1) as nat);
        let d = n - 1;
        let near = q@[d] - c@[d];
        let far = q@[d] - p@[d];
        assert(c@[d] == clamp_coordinate(q@[d], lo@[d], hi@[d]));
        assert(lo@[d] <= p@[d] <= hi@[d]);
        assert(near * near <= far * far) by (nonlinear_arith)
            requires
                (0 <= near <= far) || (far <= near <= 0),
        ;
    }
}

/// With the squared Euclidean distance on a domain that is not periodic, a
/// search may rely on bounding boxes, whatever point it starts from.
pub proof fn lemma_squared_euclidean_bounds_from_below<const K: usize>(q: [i64; K])
    ensures
        bounds_from_below(squared_euclidean_model::<K>(), None, q),
{
    let m = squared_euclidean_model::<K>();
    assert forall|lo: [i64; K], hi: [i64; K], p: [i64; K]| #[trigger]
        in_box(p, lo, hi) implies box_distance(m, q, lo, hi) <= tree_distance(m, None, q, p) by {
        let c = clamped(q, lo, hi);
        lemma_clamped_is_clamped(q, lo, hi);
        lemma_clamped_gaps(q, c, p, lo, hi, K as nat);
    }
    assert forall|p: [i64; K]| 0 <= #[trigger] tree_distance(m, None, q, p) by {
        lemma_gaps_nonnegative(q@, p@, K as nat);
    }
}

} // verus!
