//! The caller's metric as the tree sees it: what is asked of it, the
//! distance from a point to a box, and the distance between two points on a
//! periodic domain.

use crate::scalar::{saturate, saturating_add, saturating_mul, saturating_sub, zero};
use crate::tree::in_box;
use vstd::prelude::*;

verus! {

/// What the tree asks of a metric before it calls it: that it accepts any
/// two points, and that its result is a function of them.
pub open spec fn is_metric<F, const K: usize>(f: F) -> bool where
    F: Fn(&[i64; K], &[i64; K]) -> i64,
 {
    &&& forall|a: [i64; K], b: [i64; K]| #[trigger] f.requires((&a, &b))
    &&& forall|a: [i64; K], b: [i64; K], r1: i64, r2: i64|
        #[trigger] f.ensures((&a, &b), r1) && #[trigger] f.ensures((&a, &b), r2) ==> r1 == r2
}

/// Whether the function `m` says what the metric `f` returns: whatever `f`
/// may return for two points is the value of `m` at them. Contracts speak
/// of distances through such a function.
pub open spec fn models<F, const K: usize>(f: F, m: spec_fn([i64; K], [i64; K]) -> i64) -> bool where
    F: Fn(&[i64; K], &[i64; K]) -> i64,
 {
    forall|a: [i64; K], b: [i64; K], r: i64| #[trigger] f.ensures((&a, &b), r) ==> r == m(a, b)
}

/// A function that says what the metric `f` returns, if `f` is a metric.
pub open spec fn metric_value<F, const K: usize>(f: F) -> spec_fn([i64; K], [i64; K]) -> i64 where
    F: Fn(&[i64; K], &[i64; K]) -> i64,
 {
    |a: [i64; K], b: [i64; K]| choose|r: i64| f.ensures((&a, &b), r)
}

/// Every metric has a function that says what it returns.
pub proof fn lemma_metric_has_model<F, const K: usize>(f: F) where
    F: Fn(&[i64; K], &[i64; K]) -> i64,

    requires
        is_metric::<F, K>(f),
    ensures
        models::<F, K>(f, metric_value::<F, K>(f)),
{
}

/// Calls the metric.
pub fn measure<F, const K: usize>(f: &F, a: &[i64; K], b: &[i64; K]) -> (r: i64) where
    F: Fn(&[i64; K], &[i64; K]) -> i64,

    requires
        is_metric::<F, K>(*f),
    ensures
        f.ensures((a, b), r),
        forall|m: spec_fn([i64; K], [i64; K]) -> i64| #[trigger] models::<F, K>(*f, m) ==> r == m(*a, *b),
{
    f(a, b)
}

/// The coordinate nearest to `x` in the interval from `lo` to `hi`: `lo` if
/// `x` lies below it, else `hi` if `x` lies above it, else `x`.
pub open spec fn clamp_coordinate(x: i64, lo: i64, hi: i64) -> i64 {
    if x < lo {
        lo
    } else if x > hi {
        hi
    } else {
        x
    }
}

/// Whether `c` is the point of the box between `lo` and `hi` nearest to
/// `p`: `p` with each coordinate clamped to the box.
pub open spec fn is_clamped<const K: usize>(
    c: [i64; K],
    p: [i64; K],
    lo: [i64; K],
    hi: [i64; K],
) -> bool {
    forall|d: int| 0 <= d < K ==> #[trigger] c@[d] == clamp_coordinate(p@[d], lo@[d], hi@[d])
}

/// The point of the box between `lo` and `hi` nearest to `p`.
pub open spec fn clamped<const K: usize>(p: [i64; K], lo: [i64; K], hi: [i64; K]) -> [i64; K] {
    choose|c: [i64; K]| is_clamped(c, p, lo, hi)
}

/// The distance from `p` to the box between `lo` and `hi`: that from `p` to
/// the nearest point of the box.
pub open spec fn box_distance<const K: usize>(
    m: spec_fn([i64; K], [i64; K]) -> i64,
    p: [i64; K],
    lo: [i64; K],
    hi: [i64; K],
) -> i64 {
    m(p, clamped(p, lo, hi))
}

/// The distance from `point` to the box between `min_bounds` and
/// `max_bounds`, by the given metric.
pub fn distance_to_space<F, const K: usize>(
    point: &[i64; K],
    min_bounds: &[i64; K],
    max_bounds: &[i64; K],
    distance: &F,
) -> (r: i64) where F: Fn(&[i64; K], &[i64; K]) -> i64
    requires
        is_metric::<F, K>(*distance),
    ensures
        forall|m: spec_fn([i64; K], [i64; K]) -> i64| #[trigger]
            models::<F, K>(*distance, m) ==> r == box_distance(
                m,
                *point,
                *min_bounds,
                *max_bounds,
            ),
{
    let mut nearest: [i64; K] = *point;
    let mut d: usize = 0;
    while d < K
        invariant
            0 <= d <= K,
            forall|j: int|
                0 <= j < d ==> #[trigger] nearest@[j] == clamp_coordinate(
                    point@[j],
                    min_bounds@[j],
                    max_bounds@[j],
                ),
        decreases K - d,
    {
        if point[d] < min_bounds[d] {
            nearest[d] = min_bounds[d];
        } else if point[d] > max_bounds[d] {
            nearest[d] = max_bounds[d];
        } else {
            nearest[d] = point[d];
        }
        d += 1;
    }
    proof {
        let chosen = clamped(*point, *min_bounds, *max_bounds);
        assert(is_clamped(nearest, *point, *min_bounds, *max_bounds));
        assert(is_clamped(chosen, *point, *min_bounds, *max_bounds));
        assert(chosen =~= nearest);
    }
    measure(distance, point, &nearest)
}

/// The sum of the squares of the first `n` items of `l`.
pub open spec fn sum_of_squares(l: Seq<i64>, n: nat) -> int
    decreases n,
{
    if n == 0 {
        0
    } else {
        sum_of_squares(l, (n - 1) as nat) + l[n - 1] * l[n - 1]
    }
}

/// The sum of the squares of the side lengths of a periodic cell, as a
/// scalar: no two points of the cell lie farther apart than this.
pub open spec fn spec_period_bound<const K: usize>(periodic: [i64; K]) -> i64 {
    saturate(sum_of_squares(periodic@, K as nat))
}

/// A sum of squares is not negative.
pub proof fn lemma_sum_of_squares_nonnegative(l: Seq<i64>, n: nat)
    ensures
        sum_of_squares(l, n) >= 0,
    decreases n,
{
    if n > 0 {
        lemma_sum_of_squares_nonnegative(l, (n - 1) as nat);
        assert(l[n - 1] * l[n - 1] >= 0) by (nonlinear_arith);
    }
}

/// The sum of the squares of the side lengths of a periodic cell.
pub fn period_bound<const K: usize>(periodic: &[i64; K]) -> (r: i64)
    ensures
        r == spec_period_bound(*periodic),
{
    let mut total: i64 = zero();
    let mut d: usize = 0;
    while d < K
        invariant
            0 <= d <= K,
            total == saturate(sum_of_squares(periodic@, d as nat)),
        decreases K - d,
    {
        let square = saturating_mul(periodic[d], periodic[d]);
        proof {
            lemma_sum_of_squares_nonnegative(periodic@, d as nat);
            assert(periodic@[d as int] * periodic@[d as int] >= 0) by (nonlinear_arith);
        }
        total = saturating_add(total, square);
        d += 1;
    }
    total
}

/// The point `img` with coordinate `axis` replaced by `v`.
pub open spec fn shifted<const K: usize>(img: [i64; K], axis: int, v: i64) -> [i64; K] {
    vstd::array::spec_array_update(img, axis, v)
}

/// The least of three scalars.
pub open spec fn least_of(x: i64, y: i64, z: i64) -> i64 {
    if x <= y && x <= z {
        x
    } else if y <= z {
        y
    } else {
        z
    }
}

/// The least distance to `b` among the images of `a` that agree with `img`
/// on the axes before `axis` and, on each later axis, are `a` moved by one
/// period down, not at all, or one period up.
pub open spec fn least_over_images<const K: usize>(
    m: spec_fn([i64; K], [i64; K]) -> i64,
    periodic: [i64; K],
    a: [i64; K],
    img: [i64; K],
    b: [i64; K],
    axis: nat,
) -> i64
    decreases K - axis,
{
    if axis >= K {
        m(img, b)
    } else {
        let x = a@[axis as int];
        let l = periodic@[axis as int];
        least_of(
            least_over_images(m, periodic, a, shifted(img, axis as int, saturate(x - l)), b, axis + 1),
            least_over_images(m, periodic, a, shifted(img, axis as int, x), b, axis + 1),
            least_over_images(m, periodic, a, shifted(img, axis as int, saturate(x + l)), b, axis + 1),
        )
    }
}

/// The distance from a query point `a` to a stored point `b` as a tree of
/// the given period measures it: the metric's own where the tree is not
/// periodic; else the least over the images of `a`, moved on each axis by
/// one period down, not at all or one period up, and never more than the
/// sum of the squares of the side lengths.
pub open spec fn tree_distance<const K: usize>(
    m: spec_fn([i64; K], [i64; K]) -> i64,
    periodic: Option<[i64; K]>,
    a: [i64; K],
    b: [i64; K],
) -> i64 {
    match periodic {
        None => m(a, b),
        Some(l) => {
            let least = least_over_images(m, l, a, a, b, 0);
            if least < spec_period_bound(l) {
                least
            } else {
                spec_period_bound(l)
            }
        },
    }
}

/// The least distance over the images of `a`, taken from the unmoved point
/// on, never exceeds the distance from `a` itself.
pub proof fn lemma_least_is_no_more_than_plain<const K: usize>(
    m: spec_fn([i64; K], [i64; K]) -> i64,
    periodic: [i64; K],
    a: [i64; K],
    b: [i64; K],
    axis: nat,
)
    requires
        axis <= K,
    ensures
        least_over_images(m, periodic, a, a, b, axis) <= m(a, b),
    decreases K - axis,
{
    broadcast use vstd::array::group_array_axioms;

    if axis < K {
        lemma_least_is_no_more_than_plain(m, periodic, a, b, axis + 1);
        assert(shifted(a, axis as int, a@[axis as int]) =~= a);
    }
}

/// The distance by which a tree ranks a stored point never exceeds the
/// distance between the two points as they stand.
pub proof fn lemma_tree_distance_is_no_more_than_plain<const K: usize>(
    m: spec_fn([i64; K], [i64; K]) -> i64,
    periodic: Option<[i64; K]>,
    a: [i64; K],
    b: [i64; K],
)
    ensures
        tree_distance(m, periodic, a, b) <= m(a, b),
{
    if periodic is Some {
        lemma_least_is_no_more_than_plain(m, periodic.unwrap(), a, b, 0);
    }
}

/// The least distance to `b` among the images of `a` that agree with
/// `image` before `axis`.
fn min_over_images<F, const K: usize>(
    a: &[i64; K],
    b: &[i64; K],
    distance: &F,
    periodic: &[i64; K],
    image: [i64; K],
    axis: usize,
) -> (r: i64) where F: Fn(&[i64; K], &[i64; K]) -> i64
    requires
        is_metric::<F, K>(*distance),
    ensures
        forall|m: spec_fn([i64; K], [i64; K]) -> i64| #[trigger]
            models::<F, K>(*distance, m) ==> r == least_over_images(
                m,
                *periodic,
                *a,
                image,
                *b,
                axis as nat,
            ),
    decreases K - axis,
{
    if axis >= K {
        return measure(distance, &image, b);
    }
    let mut down: [i64; K] = image;
    down[axis] = saturating_sub(a[axis], periodic[axis]);
    assert(down =~= shifted(image, axis as int, saturate(a@[axis as int] - periodic@[axis as int])));
    let below = min_over_images(a, b, distance, periodic, down, axis + 1);
    let mut level: [i64; K] = image;
    level[axis] = a[axis];
    assert(level =~= shifted(image, axis as int, a@[axis as int]));
    let same = min_over_images(a, b, distance, periodic, level, axis + 1);
    let mut up: [i64; K] = image;
    up[axis] = saturating_add(a[axis], periodic[axis]);
    assert(up =~= shifted(image, axis as int, saturate(a@[axis as int] + periodic@[axis as int])));
    let above = min_over_images(a, b, distance, periodic, up, axis + 1);
    if below <= same && below <= above {
        below
    } else if same <= above {
        same
    } else {
        above
    }
}

/// The distance from a query point `a` to a stored point `b`, by the given
/// metric: on a periodic domain, the least over the images of `a`.
pub fn get_distance<F, const K: usize>(
    a: &[i64; K],
    b: &[i64; K],
    distance: &F,
    periodic: Option<[i64; K]>,
) -> (r: i64) where F: Fn(&[i64; K], &[i64; K]) -> i64
    requires
        is_metric::<F, K>(*distance),
    ensures
        forall|m: spec_fn([i64; K], [i64; K]) -> i64| #[trigger]
            models::<F, K>(*distance, m) ==> r == tree_distance(m, periodic, *a, *b),
{
    match periodic {
        None => measure(distance, a, b),
        Some(l) => {
            let bound = period_bound(&l);
            let least = min_over_images(a, b, distance, &l, *a, 0);
            if least < bound {
                least
            } else {
                bound
            }
        },
    }
}

/// Whether, as seen from `q`, the distance to a box never exceeds the
/// tree's distance to a point inside the box, and no distance is negative:
/// what lets a query pass over a subtree whose box lies too far away.
/// Without a period the squared Euclidean distance is bounded so from every
/// point. With a period the tree's distance is the least over the images,
/// which may lie below the distance to the box: of such a tree the queries
/// state what follows from the bound without a period, between the points
/// as they stand.
pub open spec fn bounds_from_below<const K: usize>(
    m: spec_fn([i64; K], [i64; K]) -> i64,
    periodic: Option<[i64; K]>,
    q: [i64; K],
) -> bool {
    &&& forall|lo: [i64; K], hi: [i64; K], p: [i64; K]| #[trigger]
        in_box(p, lo, hi) ==> box_distance(m, q, lo, hi) <= tree_distance(m, periodic, q, p)
    &&& forall|p: [i64; K]| 0 <= #[trigger] tree_distance(m, periodic, q, p)
}

} // verus!
