//! Why the squared Euclidean distance wraps: on a periodic domain the
//! searches from a point and from its images find the minimum-image
//! distance.

use crate::distance::{
    lemma_squared_euclidean_bounds_from_below, squared_euclidean_model, sum_of_squared_gaps,
};
use crate::metric::{bounds_from_below, least_over_images, shifted, sum_of_squares, tree_distance};
use crate::periodic::{
    images_for, spec_image_coordinate, spec_images, spec_side_dist2, spec_side_gap, wraps,
    wraps_at,
};
use crate::scalar::saturate;
use crate::tree::in_cell;
use vstd::prelude::*;

verus! {

/// The sum of the first `n` values of `f`.
pub open spec fn total(f: spec_fn(int) -> int, n: nat) -> int
    decreases n,
{
    if n == 0 {
        0
    } else {
        total(f, (n - 1) as nat) + f(n - 1)
    }
}

/// The sum of the values of `f` from `from` to below `k`.
pub open spec fn total_from(f: spec_fn(int) -> int, from: nat, k: nat) -> int
    decreases k - from,
{
    if from >= k {
        0
    } else {
        f(from as int) + total_from(f, from + 1, k)
    }
}

/// A sum is the sum of its first values and of the others.
pub proof fn lemma_total_split(f: spec_fn(int) -> int, from: nat, k: nat)
    requires
        from <= k,
    ensures
        total(f, from) + total_from(f, from, k) == total(f, k),
    decreases k - from,
{
    if from < k {
        lemma_total_split(f, from + 1, k);
    }
}

/// A sum of values that are no more, each, than those of another sum is no
/// more than that sum.
pub proof fn lemma_total_le(f: spec_fn(int) -> int, g: spec_fn(int) -> int, n: nat)
    requires
        forall|i: int| 0 <= i < n ==> #[trigger] f(i) <= g(i),
    ensures
        total(f, n) <= total(g, n),
    decreases n,
{
    if n > 0 {
        lemma_total_le(f, g, (n - 1) as nat);
    }
}

/// Two sums of the same values are the same.
pub proof fn lemma_total_eq(f: spec_fn(int) -> int, g: spec_fn(int) -> int, n: nat)
    requires
        forall|i: int| 0 <= i < n ==> #[trigger] f(i) == g(i),
    ensures
        total(f, n) == total(g, n),
    decreases n,
{
    if n > 0 {
        lemma_total_eq(f, g, (n - 1) as nat);
    }
}

/// The square of the difference of the coordinates of `a` and `b` on each
/// axis.
pub open spec fn square_gaps<const K: usize>(a: [i64; K], b: [i64; K]) -> spec_fn(int) -> int {
    |i: int| (a@[i] - b@[i]) * (a@[i] - b@[i])
}

/// The square of each side length.
pub open spec fn square_sides<const K: usize>(l: [i64; K]) -> spec_fn(int) -> int {
    |i: int| l@[i] * l@[i]
}

/// The least of the squares of the differences of `y` and of `x` moved by
/// one period `l` down, not at all, and one period up.
pub open spec fn least_square(x: i64, l: i64, y: i64) -> int {
    let down = (x - l - y) * (x - l - y);
    let level = (x - y) * (x - y);
    let up = (x + l - y) * (x + l - y);
    if down <= level && down <= up {
        down
    } else if level <= up {
        level
    } else {
        up
    }
}

/// The least square, on each axis, of the differences of the coordinates of
/// `b` and of `a` moved by one period down, not at all, and one period up.
pub open spec fn least_squares<const K: usize>(l: [i64; K], a: [i64; K], b: [i64; K]) -> spec_fn(
    int,
) -> int {
    |i: int| least_square(a@[i], l@[i], b@[i])
}

/// A sum of squared differences is the sum of the squares of the
/// differences.
pub proof fn lemma_gaps_are_total<const K: usize>(a: [i64; K], b: [i64; K], n: nat)
    ensures
        sum_of_squared_gaps(a@, b@, n) == total(square_gaps(a, b), n),
    decreases n,
{
    if n > 0 {
        lemma_gaps_are_total(a, b, (n - 1) as nat);
    }
}

/// A sum of squared side lengths is the sum of the squares of the sides.
pub proof fn lemma_sides_are_total<const K: usize>(l: [i64; K], n: nat)
    ensures
        sum_of_squares(l@, n) == total(square_sides(l), n),
    decreases n,
{
    if n > 0 {
        lemma_sides_are_total(l, (n - 1) as nat);
    }
}

/// Whether the side lengths `l` and the coordinates of `a` are small enough
/// for `a` to be moved by a period without leaving the scalars.
pub open spec fn fits<const K: usize>(l: [i64; K], a: [i64; K]) -> bool {
    forall|i: int|
        0 <= i < K ==> 0 <= #[trigger] l@[i] <= 0x1fff_ffff_ffff_ffff && -0x4000_0000_0000_0000
            <= a@[i] <= 0x4000_0000_0000_0000
}

/// The least distance over the images of `a` from an axis on is the sum of
/// the squares already fixed and of the least squares on the later axes.
pub proof fn lemma_least_in_closed_form<const K: usize>(
    l: [i64; K],
    a: [i64; K],
    img: [i64; K],
    b: [i64; K],
    axis: nat,
)
    requires
        axis <= K,
        fits(l, a),
    ensures
        least_over_images(squared_euclidean_model::<K>(), l, a, img, b, axis) == saturate(
            total(square_gaps(img, b), axis) + total_from(least_squares(l, a, b), axis, K as nat),
        ),
    decreases K - axis,
{
    broadcast use vstd::array::group_array_axioms;

    let m = squared_euclidean_model::<K>();
    if axis >= K {
        lemma_gaps_are_total(img, b, K as nat);
    } else {
        let x = a@[axis as int];
        let side = l@[axis as int];
        let y = b@[axis as int];
        assert(0 <= side <= 0x1fff_ffff_ffff_ffff);
        let down = shifted(img, axis as int, saturate(x - side));
        let level = shifted(img, axis as int, x);
        let up = shifted(img, axis as int, saturate(x + side));
        lemma_least_in_closed_form(l, a, down, b, axis + 1);
        lemma_least_in_closed_form(l, a, level, b, axis + 1);
        lemma_least_in_closed_form(l, a, up, b, axis + 1);
        let fixed = total(square_gaps(img, b), axis);
        let later = total_from(least_squares(l, a, b), axis + 1, K as nat);
        assert forall|i: int| 0 <= i < axis implies #[trigger] square_gaps(down, b)(i)
            == square_gaps(img, b)(i) by {}
        assert forall|i: int| 0 <= i < axis implies #[trigger] square_gaps(level, b)(i)
            == square_gaps(img, b)(i) by {}
        assert forall|i: int| 0 <= i < axis implies #[trigger] square_gaps(up, b)(i)
            == square_gaps(img, b)(i) by {}
        lemma_total_eq(square_gaps(down, b), square_gaps(img, b), axis);
        lemma_total_eq(square_gaps(level, b), square_gaps(img, b), axis);
        lemma_total_eq(square_gaps(up, b), square_gaps(img, b), axis);
        assert(total(square_gaps(down, b), axis + 1) == fixed + (x - side - y) * (x - side - y));
        assert(total(square_gaps(level, b), axis + 1) == fixed + (x - y) * (x - y));
        assert(total(square_gaps(up, b), axis + 1) == fixed + (x + side - y) * (x + side - y));
        assert(least_squares(l, a, b)(axis as int) == least_square(x, side, y));
    }
}

/// Of two numbers, the one nearer to zero has the lesser square.
pub proof fn lemma_square_order(x: int, y: int)
    requires
        -y <= x <= y,
    ensures
        x * x <= y * y,
{
    assert(x * x <= y * y) by (nonlinear_arith)
        requires
            -y <= x <= y,
    ;
}

/// The coordinate `x` of a point in the cell, moved across the nearer face
/// of the cell of side length `l`, as an integer.
pub open spec fn across(x: i64, l: i64) -> int {
    if x < l - x {
        x + l
    } else {
        x - l
    }
}

/// What holds on one axis of a periodic cell of side length `l`, for the
/// coordinates `x` of the query point and `y` of a stored point, both in
/// the cell. The least square from the image across the nearer face is the
/// least square from `x`; the lesser of the squares from `x` and from that
/// image is the least square; the image lies no nearer to `y` than `x` to
/// the nearer face; and the least square is no more than the square of the
/// side.
pub proof fn lemma_axis_wraps(x: i64, y: i64, l: i64)
    requires
        0 <= x < l,
        0 <= y < l,
        l <= 0x1fff_ffff_ffff_ffff,
    ensures
        spec_image_coordinate(x, l) == across(x, l),
        least_square(spec_image_coordinate(x, l), l, y) == least_square(x, l, y),
        least_square(x, l, y) <= (x - y) * (x - y),
        least_square(x, l, y) <= (across(x, l) - y) * (across(x, l) - y),
        least_square(x, l, y) == (x - y) * (x - y) || least_square(x, l, y) == (across(x, l) - y)
            * (across(x, l) - y),
        spec_side_dist2(x, l) <= (across(x, l) - y) * (across(x, l) - y),
        least_square(x, l, y) <= l * l,
        0 <= least_square(x, l, y),
{
    let gap = x - y;
    let e = across(x, l);
    assert(0 <= gap * gap) by (nonlinear_arith);
    assert(0 <= (gap - l) * (gap - l)) by (nonlinear_arith);
    assert(0 <= (gap + l) * (gap + l)) by (nonlinear_arith);
    lemma_square_order(gap, l as int);
    if x < l - x {
        assert(e == x + l);
        lemma_square_order(gap, l - gap);
        lemma_square_order(gap + l, gap + 2 * l);
        lemma_square_order(x as int, gap + l);
        assert((e - l - y) * (e - l - y) == gap * gap);
        assert((e - y) * (e - y) == (gap + l) * (gap + l));
        assert((e + l - y) * (e + l - y) == (gap + 2 * l) * (gap + 2 * l));
        assert((x - l - y) * (x - l - y) == (gap - l) * (gap - l));
        assert((gap - l) * (gap - l) == (l - gap) * (l - gap)) by (nonlinear_arith);
        assert(spec_side_gap(x, l) == x);
    } else {
        assert(e == x - l);
        lemma_square_order(gap, gap + l);
        lemma_square_order(l - gap, 2 * l - gap);
        lemma_square_order(spec_side_gap(x, l), l - gap);
        assert((e + l - y) * (e + l - y) == gap * gap);
        assert((e - y) * (e - y) == (gap - l) * (gap - l));
        assert((e - l - y) * (e - l - y) == (gap - 2 * l) * (gap - 2 * l));
        assert((gap - 2 * l) * (gap - 2 * l) == (2 * l - gap) * (2 * l - gap)) by (nonlinear_arith);
        assert((gap - l) * (gap - l) == (l - gap) * (l - gap)) by (nonlinear_arith);
        assert((x + l - y) * (x + l - y) == (gap + l) * (gap + l));
    }
}

/// The distance by which a periodic tree ranks a point `b` of the cell from
/// `a` is the sum of the least squares on all axes, where each of these is
/// no more than the square of the side.
pub proof fn lemma_tree_distance_in_closed_form<const K: usize>(
    l: [i64; K],
    a: [i64; K],
    b: [i64; K],
)
    requires
        fits(l, a),
        forall|i: int| 0 <= i < K ==> #[trigger] least_squares(l, a, b)(i) <= l@[i] * l@[i],
    ensures
        tree_distance(squared_euclidean_model::<K>(), Some(l), a, b) == saturate(
            total(least_squares(l, a, b), K as nat),
        ),
{
    lemma_least_in_closed_form(l, a, a, b, 0);
    lemma_total_split(least_squares(l, a, b), 0, K as nat);
    lemma_sides_are_total(l, K as nat);
    assert forall|i: int| 0 <= i < K implies #[trigger] least_squares(l, a, b)(i)
        <= square_sides(l)(i) by {}
    lemma_total_le(least_squares(l, a, b), square_sides(l), K as nat);
}

/// Whether each coordinate of `r` is that of `q` or that of `q` moved
/// across the nearer face of the cell.
pub open spec fn is_image_of<const K: usize>(r: [i64; K], q: [i64; K], l: [i64; K]) -> bool {
    forall|i: int|
        0 <= i < K ==> #[trigger] r@[i] == q@[i] || r@[i] == spec_image_coordinate(q@[i], l@[i])
}

/// Each of the images searched from is the point moved across the nearer
/// face on some axes.
pub proof fn lemma_images_are_images<const K: usize>(
    q: [i64; K],
    l: [i64; K],
    cutoff: i64,
    axes: nat,
    image: [i64; K],
    sum: int,
    moved: bool,
    j: int,
)
    requires
        axes <= K,
        is_image_of(image, q, l),
        0 <= j < spec_images(q, l, cutoff, axes, image, sum, moved).len(),
    ensures
        is_image_of(spec_images(q, l, cutoff, axes, image, sum, moved)[j], q, l),
    decreases axes,
{
    broadcast use vstd::array::group_array_axioms;

    if axes > 0 {
        let d = axes - 1;
        let first = spec_images(q, l, cutoff, d as nat, image, sum, moved);
        let other = shifted(image, d, spec_image_coordinate(q@[d], l@[d]));
        assert forall|i: int| 0 <= i < K implies #[trigger] other@[i] == q@[i] || other@[i]
            == spec_image_coordinate(q@[i], l@[i]) by {
            if i != d {
                assert(other@[i] == image@[i]);
            }
        }
        if j < first.len() {
            lemma_images_are_images(q, l, cutoff, d as nat, image, sum, moved, j);
        } else {
            lemma_images_are_images(
                q,
                l,
                cutoff,
                d as nat,
                other,
                sum + spec_side_dist2(q@[d], l@[d]),
                true,
                j - first.len(),
            );
        }
    }
}

/// The square of the distance from `q` to the nearer face on each axis on
/// which the image of `q` lies nearer to `p` than `q` itself, and zero on
/// the others.
pub open spec fn faces_crossed<const K: usize>(q: [i64; K], l: [i64; K], p: [i64; K]) -> spec_fn(
    int,
) -> int {
    |i: int|
        if crosses(q@[i], l@[i], p@[i]) {
            spec_side_dist2(q@[i], l@[i])
        } else {
            0
        }
}

/// Whether the image of the coordinate `x` across the nearer face lies
/// nearer to `y` than `x` itself.
pub open spec fn crosses(x: i64, l: i64, y: i64) -> bool {
    (across(x, l) - y) * (across(x, l) - y) < (x - y) * (x - y)
}

/// Among the images searched from is the one that crosses just the faces
/// across which `p` lies nearer, if the squares of the distances to those
/// faces add up to less than the cutoff.
pub proof fn lemma_nearest_image_is_searched<const K: usize>(
    q: [i64; K],
    l: [i64; K],
    p: [i64; K],
    cutoff: i64,
    axes: nat,
    image: [i64; K],
    sum: int,
    moved: bool,
) -> (j: int)
    requires
        axes <= K,
        sum + total(faces_crossed(q, l, p), axes) < cutoff,
        moved || exists|i: int| 0 <= i < axes && crosses(q@[i], l@[i], p@[i]),
        forall|i: int| 0 <= i < axes ==> #[trigger] image@[i] == q@[i],
    ensures
        0 <= j < spec_images(q, l, cutoff, axes, image, sum, moved).len(),
        forall|i: int|
            0 <= i < axes ==> (#[trigger] spec_images(
                q,
                l,
                cutoff,
                axes,
                image,
                sum,
                moved,
            )[j]@[i]) == (if crosses(q@[i], l@[i], p@[i]) {
                spec_image_coordinate(q@[i], l@[i])
            } else {
                q@[i]
            }),
        forall|i: int|
            axes <= i < K ==> (#[trigger] spec_images(
                q,
                l,
                cutoff,
                axes,
                image,
                sum,
                moved,
            )[j]@[i]) == image@[i],
    decreases axes,
{
    broadcast use vstd::array::group_array_axioms;

    if axes == 0 {
        0
    } else {
        let d = axes - 1;
        let first = spec_images(q, l, cutoff, d as nat, image, sum, moved);
        if crosses(q@[d], l@[d], p@[d]) {
            let other = shifted(image, d, spec_image_coordinate(q@[d], l@[d]));
            let k = lemma_nearest_image_is_searched(
                q,
                l,
                p,
                cutoff,
                d as nat,
                other,
                sum + spec_side_dist2(q@[d], l@[d]),
                true,
            );
            let found = spec_images(
                q,
                l,
                cutoff,
                d as nat,
                other,
                sum + spec_side_dist2(q@[d], l@[d]),
                true,
            )[k];
            assert(found@[d] == other@[d]);
            first.len() + k
        } else {
            if !moved {
                let i = choose|i: int| 0 <= i < axes && crosses(q@[i], l@[i], p@[i]);
                assert(i < d);
            }
            let k = lemma_nearest_image_is_searched(q, l, p, cutoff, d as nat, image, sum, moved);
            k
        }
    }
}

/// Whether no side length of `l` is greater than a scalar can be moved by,
/// three times over.
pub open spec fn small_enough<const K: usize>(l: [i64; K]) -> bool {
    forall|i: int| 0 <= i < K ==> #[trigger] l@[i] <= 0x1fff_ffff_ffff_ffff
}

/// A sum of values that are not negative is not negative.
pub proof fn lemma_total_nonnegative(f: spec_fn(int) -> int, n: nat)
    requires
        forall|i: int| 0 <= i < n ==> 0 <= #[trigger] f(i),
    ensures
        0 <= total(f, n),
    decreases n,
{
    if n > 0 {
        lemma_total_nonnegative(f, (n - 1) as nat);
    }
}

/// The squared Euclidean distance from an image of `q` to a point `p` of
/// the cell, by which a tree with or without the period ranks `p`, is no
/// less than the minimum-image distance.
proof fn lemma_image_is_no_nearer<const K: usize>(
    l: [i64; K],
    mode: Option<[i64; K]>,
    q: [i64; K],
    p: [i64; K],
    r: [i64; K],
)
    requires
        in_cell(q, l),
        in_cell(p, l),
        small_enough(l),
        mode is None || mode == Some(l),
        is_image_of(r, q, l),
    ensures
        tree_distance(squared_euclidean_model::<K>(), Some(l), q, p) <= tree_distance(
            squared_euclidean_model::<K>(),
            mode,
            r,
            p,
        ),
{
    let m = squared_euclidean_model::<K>();
    let least = least_squares(l, q, p);
    assert forall|i: int| 0 <= i < K implies #[trigger] least(i) <= l@[i] * l@[i] && least(i)
        <= square_gaps(r, p)(i) && least_squares(l, r, p)(i) == least(i) by {
        assert(0 <= q@[i] < l@[i]);
        assert(0 <= p@[i] < l@[i]);
        assert(l@[i] <= 0x1fff_ffff_ffff_ffff);
        lemma_axis_wraps(q@[i], p@[i], l@[i]);
    }
    assert(fits(l, q)) by {
        assert forall|i: int| 0 <= i < K implies 0 <= #[trigger] l@[i] <= 0x1fff_ffff_ffff_ffff
            && -0x4000_0000_0000_0000 <= q@[i] <= 0x4000_0000_0000_0000 by {
            assert(0 <= q@[i] < l@[i]);
        }
    }
    lemma_tree_distance_in_closed_form(l, q, p);
    if mode is None {
        lemma_gaps_are_total(r, p, K as nat);
        lemma_total_le(least, square_gaps(r, p), K as nat);
    } else {
        assert(fits(l, r)) by {
            assert forall|i: int| 0 <= i < K implies 0 <= #[trigger] l@[i]
                <= 0x1fff_ffff_ffff_ffff && -0x4000_0000_0000_0000 <= r@[i]
                <= 0x4000_0000_0000_0000 by {
                assert(0 <= q@[i] < l@[i]);
                assert(0 <= p@[i] < l@[i]);
                lemma_axis_wraps(q@[i], p@[i], l@[i]);
                assert(r@[i] == q@[i] || r@[i] == spec_image_coordinate(q@[i], l@[i]));
            }
        }
        assert forall|i: int| 0 <= i < K implies #[trigger] least_squares(l, r, p)(i) <= l@[i]
            * l@[i] by {
            assert(least_squares(l, r, p)(i) == least(i));
        }
        lemma_tree_distance_in_closed_form(l, r, p);
        lemma_total_eq(least_squares(l, r, p), least, K as nat);
    }
}

/// A point `p` of the cell whose minimum-image distance from `q` lies below
/// the cutoff lies at that distance, as the points stand, from `q` or from
/// one of the images searched from.
proof fn lemma_some_search_reaches<const K: usize>(
    l: [i64; K],
    q: [i64; K],
    p: [i64; K],
    cutoff: i64,
)
    requires
        in_cell(q, l),
        in_cell(p, l),
        small_enough(l),
        tree_distance(squared_euclidean_model::<K>(), Some(l), q, p) < cutoff,
    ensures
        squared_euclidean_model::<K>()(q, p) == tree_distance(
            squared_euclidean_model::<K>(),
            Some(l),
            q,
            p,
        ) || exists|j: int|
            0 <= j < images_for(q, l, cutoff).len() && squared_euclidean_model::<K>()(
                #[trigger] images_for(q, l, cutoff)[j],
                p,
            ) == tree_distance(squared_euclidean_model::<K>(), Some(l), q, p),
{
    let m = squared_euclidean_model::<K>();
    let least = least_squares(l, q, p);
    let faces = faces_crossed(q, l, p);
    assert forall|i: int| 0 <= i < K implies #[trigger] least(i) <= l@[i] * l@[i] && 0 <= least(
        i,
    ) && faces(i) <= least(i) && (crosses(q@[i], l@[i], p@[i]) ==> least(i) == (across(
        q@[i],
        l@[i],
    ) - p@[i]) * (across(q@[i], l@[i]) - p@[i])) && (!crosses(q@[i], l@[i], p@[i]) ==> least(i)
        == (q@[i] - p@[i]) * (q@[i] - p@[i])) && spec_image_coordinate(q@[i], l@[i]) == across(
        q@[i],
        l@[i],
    ) by {
        assert(0 <= q@[i] < l@[i]);
        assert(0 <= p@[i] < l@[i]);
        assert(l@[i] <= 0x1fff_ffff_ffff_ffff);
        lemma_axis_wraps(q@[i], p@[i], l@[i]);
    }
    assert(fits(l, q)) by {
        assert forall|i: int| 0 <= i < K implies 0 <= #[trigger] l@[i] <= 0x1fff_ffff_ffff_ffff
            && -0x4000_0000_0000_0000 <= q@[i] <= 0x4000_0000_0000_0000 by {
            assert(0 <= q@[i] < l@[i]);
        }
    }
    lemma_tree_distance_in_closed_form(l, q, p);
    lemma_total_nonnegative(least, K as nat);
    lemma_total_le(faces, least, K as nat);
    if exists|i: int| 0 <= i < K && crosses(q@[i], l@[i], p@[i]) {
        let j = lemma_nearest_image_is_searched(q, l, p, cutoff, K as nat, q, 0, false);
        let r = images_for(q, l, cutoff)[j];
        assert forall|i: int| 0 <= i < K implies #[trigger] square_gaps(r, p)(i) == least(i) by {
            assert(r@[i] == (if crosses(q@[i], l@[i], p@[i]) {
                spec_image_coordinate(q@[i], l@[i])
            } else {
                q@[i]
            }));
        }
        lemma_total_eq(square_gaps(r, p), least, K as nat);
        lemma_gaps_are_total(r, p, K as nat);
        assert(m(r, p) == tree_distance(m, Some(l), q, p));
    } else {
        assert forall|i: int| 0 <= i < K implies #[trigger] square_gaps(q, p)(i) == least(i) by {
            assert(!crosses(q@[i], l@[i], p@[i]));
        }
        lemma_total_eq(square_gaps(q, p), least, K as nat);
        lemma_gaps_are_total(q, p, K as nat);
    }
}

/// The squared Euclidean distance wraps: a periodic search from a point of
/// the cell, on a tree without a period or with the period of the cell,
/// finds the minimum-image distances, if no side of the cell is too long
/// for a scalar to be moved by it.
pub proof fn lemma_squared_euclidean_wraps<const K: usize>(
    l: [i64; K],
    mode: Option<[i64; K]>,
    q: [i64; K],
)
    requires
        in_cell(q, l),
        small_enough(l),
        mode is None || mode == Some(l),
    ensures
        wraps(squared_euclidean_model::<K>(), l, mode, q),
{
    let m = squared_euclidean_model::<K>();
    lemma_squared_euclidean_bounds_from_below::<K>(q);
    assert forall|c: i64, j: int| 0 <= j < images_for(q, l, c).len() implies bounds_from_below(
        m,
        None,
        #[trigger] images_for(q, l, c)[j],
    ) by {
        lemma_squared_euclidean_bounds_from_below::<K>(images_for(q, l, c)[j]);
    }
    assert forall|p: [i64; K], c: i64| in_cell(p, l) implies #[trigger] wraps_at(
        m,
        l,
        mode,
        q,
        p,
        c,
    ) by {
        let imgs = images_for(q, l, c);
        assert(is_image_of(q, q, l));
        lemma_image_is_no_nearer(l, mode, q, p, q);
        assert forall|j: int| 0 <= j < imgs.len() implies tree_distance(m, Some(l), q, p)
            <= tree_distance(m, mode, #[trigger] imgs[j], p) by {
            lemma_images_are_images(q, l, c, K as nat, q, 0, false, j);
            lemma_image_is_no_nearer(l, mode, q, p, imgs[j]);
        }
        if tree_distance(m, Some(l), q, p) < c {
            lemma_some_search_reaches(l, q, p, c);
        }
    }
}

} // verus!
