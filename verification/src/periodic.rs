//! Queries on a periodic domain: besides the query point itself, its images
//! across the nearer faces of the cell are searched from.

use crate::errors::ErrorKind;
use crate::lemmas::lemma_empty_multiset;
use crate::metric::{bounds_from_below, is_metric, models, shifted, tree_distance};
use crate::metric::lemma_tree_distance_is_no_more_than_plain;
use crate::nearest::{
    exactly_within, is_nearest, is_nearest_of, is_within, is_within_of, nearest_among,
    within_among,
};
use vstd::multiset::Multiset;
use crate::search::beyond;
use crate::nearest_one::{is_nearest_one, is_plainly_nearest};
use crate::scalar::{
    is_negative, is_positive, saturate, saturating_add, saturating_mul, saturating_sub, zero,
};
use crate::search::{ascending, found, insert_ascending, scored};
use crate::tree::{in_cell, spec_check_point, KdTree};
use vstd::prelude::*;

verus! {

/// The distance from the coordinate `p` to the nearer face of a cell of
/// side length `l`.
pub open spec fn spec_side_gap(p: i64, l: i64) -> int {
    if l - p < p {
        l - p
    } else {
        p as int
    }
}

/// The square of the distance from the coordinate `p` to the nearer face of
/// a cell of side length `l`.
pub open spec fn spec_side_dist2(p: i64, l: i64) -> int {
    spec_side_gap(p, l) * spec_side_gap(p, l)
}

/// The coordinate `p` moved across the nearer face of a cell of side length
/// `l`: up by `l` from the lower half of the cell, down by `l` from the upper
/// half.
pub open spec fn spec_image_coordinate(p: i64, l: i64) -> i64 {
    if p < l - p {
        saturate(p + l)
    } else {
        saturate(p - l)
    }
}

/// The images of `point` that differ from `image` on some of the first
/// `axes` axes, or are `image` itself if that is `moved` already: those
/// whose squared distance from `point` to the faces crossed, `total` and
/// what the first `axes` axes add, lies below `cutoff`. They stand in the
/// order of the numbers whose binary digits tell, lowest axis lowest, which
/// axes were moved.
pub open spec fn spec_images<const K: usize>(
    point: [i64; K],
    periodic: [i64; K],
    cutoff: i64,
    axes: nat,
    image: [i64; K],
    total: int,
    moved: bool,
) -> Seq<[i64; K]>
    decreases axes,
{
    if axes == 0 {
        if moved && total < cutoff {
            seq![image]
        } else {
            Seq::empty()
        }
    } else {
        let d = axes - 1;
        spec_images(point, periodic, cutoff, d as nat, image, total, moved) + spec_images(
            point,
            periodic,
            cutoff,
            d as nat,
            shifted(image, d, spec_image_coordinate(point@[d], periodic@[d])),
            total + spec_side_dist2(point@[d], periodic@[d]),
            true,
        )
    }
}

/// The images of `point` to search from, in a cell of side lengths
/// `periodic`, when nothing at `cutoff` or beyond is looked for: for each
/// choice of axes, not none, `point` moved across the nearer face on each
/// chosen axis, if the squares of its distances to those faces add up to
/// less than `cutoff`.
pub open spec fn images_for<const K: usize>(
    point: [i64; K],
    periodic: [i64; K],
    cutoff: i64,
) -> Seq<[i64; K]> {
    spec_images(point, periodic, cutoff, K as nat, point, 0, false)
}

/// Whether `point` lies in the cell of side lengths `periodic`.
pub fn in_periodic_cell<const K: usize>(point: &[i64; K], periodic: &[i64; K]) -> (r: bool)
    ensures
        r == in_cell(*point, *periodic),
{
    let mut d: usize = 0;
    while d < K
        invariant
            0 <= d <= K,
            forall|j: int| 0 <= j < d ==> 0 <= #[trigger] point@[j] < periodic@[j],
        decreases K - d,
    {
        let upper = saturating_sub(periodic[d], point[d]);
        if is_negative(point[d]) || !is_positive(upper) {
            assert(!(0 <= point@[d as int] < periodic@[d as int]));
            return false;
        }
        d += 1;
    }
    true
}

/// The square of the distance from `point` to the nearer face of the cell,
/// on each axis.
pub fn closest_side_dist2<const K: usize>(point: &[i64; K], periodic: &[i64; K]) -> (r: [i64; K])
    requires
        in_cell(*point, *periodic),
    ensures
        forall|d: int|
            0 <= d < K ==> #[trigger] r@[d] == saturate(
                spec_side_dist2(point@[d], periodic@[d]),
            ),
{
    let mut sides: [i64; K] = [zero();K];
    let mut d: usize = 0;
    while d < K
        invariant
            0 <= d <= K,
            in_cell(*point, *periodic),
            forall|j: int|
                0 <= j < d ==> #[trigger] sides@[j] == saturate(
                    spec_side_dist2(point@[j], periodic@[j]),
                ),
        decreases K - d,
    {
        assert(0 <= point@[d as int] < periodic@[d as int]);
        let upper = saturating_sub(periodic[d], point[d]);
        let gap = if upper < point[d] {
            upper
        } else {
            point[d]
        };
        sides[d] = saturating_mul(gap, gap);
        d += 1;
    }
    sides
}

/// Puts into `out` the images of `point` that `spec_images` names, in its
/// order.
fn collect_images<const K: usize>(
    point: &[i64; K],
    periodic: &[i64; K],
    sides: &[i64; K],
    cutoff: i64,
    axes: usize,
    image: [i64; K],
    total: i64,
    moved: bool,
    out: &mut Vec<[i64; K]>,
    Ghost(exact): Ghost<int>,
)
    requires
        axes <= K,
        in_cell(*point, *periodic),
        forall|d: int|
            0 <= d < K ==> #[trigger] sides@[d] == saturate(
                spec_side_dist2(point@[d], periodic@[d]),
            ),
        exact >= 0,
        total == saturate(exact),
    ensures
        final(out)@ == old(out)@ + spec_images(
            *point,
            *periodic,
            cutoff,
            axes as nat,
            image,
            exact,
            moved,
        ),
    decreases axes,
{
    if axes == 0 {
        if moved && total < cutoff {
            out.push(image);
            assert(out@ =~= old(out)@ + seq![image]);
        } else {
            assert(out@ =~= old(out)@ + Seq::<[i64; K]>::empty());
        }
        return ;
    }
    let d = axes - 1;
    assert(0 <= point@[d as int] < periodic@[d as int]);
    collect_images(point, periodic, sides, cutoff, d, image, total, moved, out, Ghost(exact));
    let ghost halfway = out@;
    let mut other: [i64; K] = image;
    let upper = saturating_sub(periodic[d], point[d]);
    if point[d] < upper {
        other[d] = saturating_add(point[d], periodic[d]);
    } else {
        other[d] = saturating_sub(point[d], periodic[d]);
    }
    let ghost gap2 = spec_side_dist2(point@[d as int], periodic@[d as int]);
    proof {
        assert(other =~= shifted(
            image,
            d as int,
            spec_image_coordinate(point@[d as int], periodic@[d as int]),
        ));
        assert(gap2 >= 0) by (nonlinear_arith)
            requires
                gap2 == spec_side_gap(point@[d as int], periodic@[d as int]) * spec_side_gap(
                    point@[d as int],
                    periodic@[d as int],
                ),
        ;
    }
    collect_images(
        point,
        periodic,
        sides,
        cutoff,
        d,
        other,
        saturating_add(total, sides[d]),
        true,
        out,
        Ghost(exact + gap2),
    );
    proof {
        let first = spec_images(*point, *periodic, cutoff, d as nat, image, exact, moved);
        let second = spec_images(
            *point,
            *periodic,
            cutoff,
            d as nat,
            other,
            exact + gap2,
            true,
        );
        assert(out@ =~= old(out)@ + (first + second));
    }
}

/// The images of `point` to search from when nothing at `cutoff` or beyond
/// is looked for.
pub fn images_to_check<const K: usize>(point: &[i64; K], periodic: &[i64; K], cutoff: i64) -> (r:
    Vec<[i64; K]>)
    requires
        in_cell(*point, *periodic),
    ensures
        r@ == images_for(*point, *periodic, cutoff),
{
    let sides = closest_side_dist2(point, periodic);
    let mut out: Vec<[i64; K]> = Vec::new();
    collect_images(point, periodic, &sides, cutoff, K, *point, zero(), false, &mut out, Ghost(0int));
    assert(out@ =~= images_for(*point, *periodic, cutoff));
    out
}

/// The verdict on a point that is handed to a periodic query of a tree of
/// period `mode`, with the cell `periodic`: what the tree itself says of
/// the point and then, if that is no refusal, whether the point lies in the
/// cell.
pub open spec fn spec_check_periodic<const K: usize>(
    point: [i64; K],
    mode: Option<[i64; K]>,
    periodic: [i64; K],
) -> Result<(), ErrorKind> {
    match spec_check_point(point, mode) {
        Err(e) => Err(e),
        Ok(()) => if in_cell(point, periodic) {
            Ok(())
        } else {
            Err(ErrorKind::PeriodicOutOfBounds)
        },
    }
}

/// Whether every point of `items` lies in the cell of side lengths `l`.
pub open spec fn stored_in_cell<T, const K: usize>(items: Seq<([i64; K], T)>, l: [i64; K]) -> bool {
    forall|i: int| 0 <= i < items.len() ==> in_cell((#[trigger] items[i]).0, l)
}

/// What a periodic search from `q`, on a tree of period `mode`, needs of
/// the metric at a stored point `p`, where nothing at `cutoff` or beyond is
/// looked for. The minimum-image distance from `q` to `p` is no more than
/// the distance by which the tree ranks `p` from `q` or from an image of
/// `q`; and if it lies below `cutoff`, it is the distance from `q` or from
/// one of the images searched from to `p`, as the points stand.
pub open spec fn wraps_at<const K: usize>(
    m: spec_fn([i64; K], [i64; K]) -> i64,
    l: [i64; K],
    mode: Option<[i64; K]>,
    q: [i64; K],
    p: [i64; K],
    cutoff: i64,
) -> bool {
    let least = tree_distance(m, Some(l), q, p);
    let imgs = images_for(q, l, cutoff);
    &&& least <= tree_distance(m, mode, q, p)
    &&& forall|j: int| 0 <= j < imgs.len() ==> least <= tree_distance(m, mode, #[trigger] imgs[j], p)
    &&& least < cutoff ==> m(q, p) == least || exists|j: int|
        0 <= j < imgs.len() && m(#[trigger] imgs[j], p) == least
}

/// What a periodic search from `q` in the cell of side lengths `l`, on a
/// tree of period `mode`, needs of the metric: boxes bound distances from
/// below, from `q` and from each of its images; and at every point of the
/// cell the metric is as `wraps_at` says, whatever the cutoff. The squared
/// Euclidean distance is such a metric.
pub open spec fn wraps<const K: usize>(
    m: spec_fn([i64; K], [i64; K]) -> i64,
    l: [i64; K],
    mode: Option<[i64; K]>,
    q: [i64; K],
) -> bool {
    &&& bounds_from_below(m, None, q)
    &&& forall|c: i64, j: int|
        0 <= j < images_for(q, l, c).len() ==> bounds_from_below(
            m,
            None,
            #[trigger] images_for(q, l, c)[j],
        )
    &&& forall|p: [i64; K], c: i64| in_cell(p, l) ==> #[trigger] wraps_at(m, l, mode, q, p, c)
}

/// The largest distance in `s`, and zero if none is larger.
pub open spec fn spec_largest<T>(s: Seq<(i64, T)>) -> i64
    decreases s.len(),
{
    if s.len() == 0 {
        0
    } else {
        let rest = spec_largest(s.drop_last());
        if s.last().0 > rest {
            s.last().0
        } else {
            rest
        }
    }
}

/// How a periodic search for the `num` nearest pairs comes to `res`, as
/// the distances of `m` show it: `first` is what the search from `point`
/// finds; `others` holds what the searches from the images of `point` find,
/// for the images that the largest distance in `first` lets through; and
/// `res` holds the nearest of all these, as many as `first` has. A stored
/// pair that is found from two of these points counts twice.
pub open spec fn merged_nearest<T, const K: usize>(
    items: Seq<([i64; K], T)>,
    m: spec_fn([i64; K], [i64; K]) -> i64,
    mode: Option<[i64; K]>,
    point: [i64; K],
    periodic: [i64; K],
    num: usize,
    first: Seq<(i64, T)>,
    others: Seq<Seq<(i64, T)>>,
    res: Seq<(i64, T)>,
) -> bool {
    let imgs = images_for(point, periodic, spec_largest(first));
    &&& is_nearest(scored(items, m, mode, point), num, first, bounds_from_below(m, mode, point))
    &&& first.len() == 0 ==> res.len() == 0
    &&& first.len() > 0 ==> {
        &&& others.len() == imgs.len()
        &&& forall|j: int|
            0 <= j < imgs.len() ==> is_nearest(
                scored(items, m, mode, imgs[j]),
                num,
                #[trigger] others[j],
                bounds_from_below(m, mode, imgs[j]),
            )
        &&& is_nearest(first + others.flatten(), first.len() as usize, res, true)
    }
}

/// What a periodic search for the `num` nearest pairs returns as `res`.
pub open spec fn is_periodic_nearest<T, const K: usize>(
    items: Seq<([i64; K], T)>,
    m: spec_fn([i64; K], [i64; K]) -> i64,
    mode: Option<[i64; K]>,
    point: [i64; K],
    periodic: [i64; K],
    num: usize,
    res: Seq<(i64, T)>,
) -> bool {
    exists|first: Seq<(i64, T)>, others: Seq<Seq<(i64, T)>>| #[trigger]
        merged_nearest(items, m, mode, point, periodic, num, first, others, res)
}

/// How a periodic search for the pairs within `radius` comes to `res`, as
/// the distances of `m` show it: `parts` holds what the search from `point`
/// finds, and then what the searches from the images of `point` find, for
/// the images that `radius` lets through; `res` holds all of these. A
/// stored pair that is found from two of these points counts twice.
pub open spec fn merged_within<T, const K: usize>(
    items: Seq<([i64; K], T)>,
    m: spec_fn([i64; K], [i64; K]) -> i64,
    mode: Option<[i64; K]>,
    point: [i64; K],
    periodic: [i64; K],
    radius: i64,
    parts: Seq<Seq<(i64, T)>>,
    res: Seq<(i64, T)>,
) -> bool {
    let queries = seq![point] + images_for(point, periodic, radius);
    &&& parts.len() == queries.len()
    &&& forall|j: int|
        0 <= j < queries.len() ==> is_within(
            scored(items, m, mode, queries[j]),
            radius,
            #[trigger] parts[j],
            bounds_from_below(m, mode, queries[j]),
        )
    &&& res.to_multiset() =~= parts.flatten().to_multiset()
}

/// What a periodic search for the pairs within `radius` returns as `res`.
pub open spec fn is_periodic_within<T, const K: usize>(
    items: Seq<([i64; K], T)>,
    m: spec_fn([i64; K], [i64; K]) -> i64,
    mode: Option<[i64; K]>,
    point: [i64; K],
    periodic: [i64; K],
    radius: i64,
    res: Seq<(i64, T)>,
) -> bool {
    exists|parts: Seq<Seq<(i64, T)>>| #[trigger]
        merged_within(items, m, mode, point, periodic, radius, parts, res)
}

/// How a periodic search for the nearest pair comes to `best`, as the
/// distances of `m` show it: `first` is what the search from `point` finds;
/// `others` holds what the searches from the images of `point` find, for
/// the images that the distance of `first` lets through; and `best` is one
/// of these, and none of them lies nearer.
pub open spec fn merged_nearest_one<T, const K: usize>(
    items: Seq<([i64; K], T)>,
    m: spec_fn([i64; K], [i64; K]) -> i64,
    mode: Option<[i64; K]>,
    point: [i64; K],
    periodic: [i64; K],
    first: (i64, T),
    others: Seq<(i64, T)>,
    best: (i64, T),
) -> bool {
    let imgs = images_for(point, periodic, first.0);
    &&& is_nearest_one(scored(items, m, mode, point), first, bounds_from_below(m, mode, point))
    &&& others.len() == imgs.len()
    &&& forall|j: int|
        0 <= j < imgs.len() ==> is_nearest_one(
            scored(items, m, mode, imgs[j]),
            #[trigger] others[j],
            bounds_from_below(m, mode, imgs[j]),
        )
    &&& best.0 <= first.0
    &&& forall|j: int| 0 <= j < others.len() ==> best.0 <= (#[trigger] others[j]).0
    &&& best == first || exists|j: int| 0 <= j < others.len() && best == #[trigger] others[j]
}

/// What a periodic search for the nearest pair returns as `best`.
pub open spec fn is_periodic_nearest_one<T, const K: usize>(
    items: Seq<([i64; K], T)>,
    m: spec_fn([i64; K], [i64; K]) -> i64,
    mode: Option<[i64; K]>,
    point: [i64; K],
    periodic: [i64; K],
    best: (i64, T),
) -> bool {
    exists|first: (i64, T), others: Seq<(i64, T)>| #[trigger]
        merged_nearest_one(items, m, mode, point, periodic, first, others, best)
}

/// The largest distance in `v`, and zero if none is larger.
pub fn largest_distance<T>(v: &Vec<(i64, &T)>) -> (r: i64)
    ensures
        r == spec_largest(found(v@)),
{
    let mut largest: i64 = zero();
    let mut i: usize = 0;
    while i < v.len()
        invariant
            0 <= i <= v@.len(),
            largest == spec_largest(found(v@).take(i as int)),
        decreases v@.len() - i,
    {
        proof {
            assert(found(v@).take(i + 1).drop_last() =~= found(v@).take(i as int));
        }
        if v[i].0 > largest {
            largest = v[i].0;
        }
        i += 1;
    }
    proof {
        assert(found(v@).take(v@.len() as int) =~= found(v@));
    }
    largest
}

/// The first `n` pairs of a sequence in the order of its distances are its
/// `n` nearest.
pub proof fn lemma_first_are_nearest<T>(all: Seq<(i64, T)>, full: Seq<(i64, T)>, n: usize)
    requires
        ascending(full),
        full.to_multiset() =~= all.to_multiset(),
        n <= full.len(),
    ensures
        is_nearest(all, n, full.take(n as int), true),
{
    broadcast use vstd::multiset::group_multiset_axioms;

    let head = full.take(n as int);
    let tail = full.skip(n as int);
    assert(full =~= head + tail);
    vstd::seq_lib::lemma_multiset_commutative(head, tail);
    full.to_multiset_ensures();
    all.to_multiset_ensures();
    tail.to_multiset_ensures();
    assert forall|x: (i64, T)| all.to_multiset().sub(head.to_multiset()).count(x)
        > 0 implies crate::nearest::farther_than_all(x, head) by {
        assert(tail.to_multiset().count(x) > 0);
        assert(tail.contains(x));
        let j = choose|j: int| 0 <= j < tail.len() && tail[j] == x;
        assert forall|i: int| 0 <= i < head.len() implies (#[trigger] head[i]).0 <= x.0 by {
            assert(full[i].0 <= full[n + j].0);
        }
    }
    if n >= all.len() {
        assert(head =~= full);
    }
}

/// Puts each pair of `part` into `merged`, in the order of the distances.
fn merge_sorted<'b, T>(merged: &mut Vec<(i64, &'b T)>, part: &Vec<(i64, &'b T)>)
    requires
        ascending(old(merged)@),
    ensures
        ascending(final(merged)@),
        found(final(merged)@).to_multiset() =~= found(old(merged)@).to_multiset().add(
            found(part@).to_multiset(),
        ),
{
    broadcast use vstd::multiset::group_multiset_axioms;

    let mut i: usize = 0;
    proof {
        lemma_empty_multiset(found(part@).take(0));
    }
    while i < part.len()
        invariant
            0 <= i <= part@.len(),
            ascending(merged@),
            found(merged@).to_multiset() =~= found(old(merged)@).to_multiset().add(
                found(part@).take(i as int).to_multiset(),
            ),
        decreases part@.len() - i,
    {
        let e = part[i];
        let ghost before = merged@;
        let at = insert_ascending(merged, e.0, e.1);
        proof {
            let x = (e.0, *e.1);
            before.insert_ensures(at as int, e);
            assert(found(merged@) =~= found(before).insert(at as int, x));
            vstd::seq_lib::to_multiset_insert(found(before), at as int, x);
            assert(found(part@).take(i + 1) =~= found(part@).take(i as int).push(x));
            vstd::seq_lib::to_multiset_build(found(part@).take(i as int), x);
        }
        i += 1;
    }
    proof {
        assert(found(part@).take(part@.len() as int) =~= found(part@));
    }
}

/// Puts each pair of `part` at the end of `merged`.
fn merge_unsorted<'b, T>(merged: &mut Vec<(i64, &'b T)>, part: &Vec<(i64, &'b T)>)
    ensures
        found(final(merged)@) =~= found(old(merged)@) + found(part@),
{
    let mut i: usize = 0;
    while i < part.len()
        invariant
            0 <= i <= part@.len(),
            found(merged@) =~= found(old(merged)@) + found(part@).take(i as int),
        decreases part@.len() - i,
    {
        let ghost before = merged@;
        merged.push(part[i]);
        proof {
            let x = (part@[i as int].0, *part@[i as int].1);
            assert(found(merged@) =~= found(before).push(x));
            assert(found(part@).take(i + 1) =~= found(part@).take(i as int).push(x));
        }
        i += 1;
    }
    proof {
        assert(found(part@).take(part@.len() as int) =~= found(part@));
    }
}

/// What the searches from each of the points `queries` for the pairs of
/// `tree` within `radius` return, taken together, in whatever order.
pub open spec fn pooled_within<T, const K: usize>(
    tree: KdTree<T, K>,
    m: spec_fn([i64; K], [i64; K]) -> i64,
    queries: Seq<[i64; K]>,
    radius: i64,
) -> Multiset<(i64, T)>
    decreases queries.len(),
{
    if queries.len() == 0 {
        Multiset::empty()
    } else {
        pooled_within(tree, m, queries.drop_last(), radius).add(
            exactly_within(tree, m, queries.last(), radius),
        )
    }
}

/// What a periodic search from `q` for the pairs of `tree` within `radius`
/// returns, in whatever order: what the searches from `q` and from each of
/// its images that `radius` lets through return.
pub open spec fn exactly_within_periodic<T, const K: usize>(
    tree: KdTree<T, K>,
    m: spec_fn([i64; K], [i64; K]) -> i64,
    q: [i64; K],
    l: [i64; K],
    radius: i64,
) -> Multiset<(i64, T)> {
    pooled_within(tree, m, seq![q] + images_for(q, l, radius), radius)
}

/// What a periodic search for the pairs within `radius` returns as `res`,
/// against the stored pairs as the minimum-image distance from `q` shows
/// them: every stored pair whose minimum-image distance lies below `radius`
/// is listed at that distance; and each listed pair is a stored pair, at a
/// distance within `radius` and no less than its minimum-image distance.
pub open spec fn wrapped_within<T, const K: usize>(
    items: Seq<([i64; K], T)>,
    m: spec_fn([i64; K], [i64; K]) -> i64,
    l: [i64; K],
    q: [i64; K],
    radius: i64,
    res: Seq<(i64, T)>,
) -> bool {
    let wrapped = scored(items, m, Some(l), q);
    &&& forall|i: int|
        0 <= i < wrapped.len() && (#[trigger] wrapped[i]).0 < radius ==> res.contains(wrapped[i])
    &&& forall|k: int|
        0 <= k < res.len() ==> (#[trigger] res[k]).0 <= radius && exists|i: int|
            0 <= i < wrapped.len() && (#[trigger] wrapped[i]).1 == res[k].1 && wrapped[i].0
                <= res[k].0
}

/// An item of one of the sequences `parts` is an item of all of them put
/// end to end.
pub proof fn lemma_part_in_flatten<E>(parts: Seq<Seq<E>>, t: int, k: int) -> (at: int)
    requires
        0 <= t < parts.len(),
        0 <= k < parts[t].len(),
    ensures
        0 <= at < parts.flatten().len(),
        parts.flatten()[at] == parts[t][k],
    decreases parts.len(),
{
    if t == 0 {
        k
    } else {
        let later = lemma_part_in_flatten(parts.drop_first(), t - 1, k);
        parts.first().len() + later
    }
}

/// An item of sequences put end to end is an item of one of them.
pub proof fn lemma_flatten_somewhere<E>(parts: Seq<Seq<E>>, at: int) -> (r: (int, int))
    requires
        0 <= at < parts.flatten().len(),
    ensures
        0 <= r.0 < parts.len(),
        0 <= r.1 < parts[r.0].len(),
        parts[r.0][r.1] == parts.flatten()[at],
    decreases parts.len(),
{
    if parts.len() == 0 {
        (0, 0)
    } else if at < parts.first().len() {
        (0, at)
    } else {
        let later = lemma_flatten_somewhere(parts.drop_first(), at - parts.first().len());
        (later.0 + 1, later.1)
    }
}

/// What the searches from a point and from its images find within a radius
/// is, against the minimum-image distances, as `wrapped_within` says, where
/// the metric wraps and the stored points lie in the cell.
pub proof fn lemma_within_of_searches<T, const K: usize>(
    items: Seq<([i64; K], T)>,
    m: spec_fn([i64; K], [i64; K]) -> i64,
    mode: Option<[i64; K]>,
    l: [i64; K],
    q: [i64; K],
    radius: i64,
    parts: Seq<Seq<(i64, T)>>,
    res: Seq<(i64, T)>,
)
    requires
        wraps(m, l, mode, q),
        stored_in_cell(items, l),
        parts.len() == 1 + images_for(q, l, radius).len(),
        forall|j: int|
            0 <= j < parts.len() ==> is_within_of(
                items,
                m,
                mode,
                (seq![q] + images_for(q, l, radius))[j],
                radius,
                #[trigger] parts[j],
            ),
        res.to_multiset() =~= parts.flatten().to_multiset(),
        forall|k: int| 0 <= k < res.len() ==> (#[trigger] res[k]).0 <= radius,
    ensures
        wrapped_within(items, m, l, q, radius, res),
{
    let imgs = images_for(q, l, radius);
    let queries = seq![q] + imgs;
    let wrapped = scored(items, m, Some(l), q);
    let flat = parts.flatten();
    res.to_multiset_ensures();
    flat.to_multiset_ensures();
    assert forall|i: int| 0 <= i < wrapped.len() && (#[trigger] wrapped[i]).0
        < radius implies res.contains(wrapped[i]) by {
        let p = items[i].0;
        assert(in_cell(p, l));
        assert(wraps_at(m, l, mode, q, p, radius));
        let least = tree_distance(m, Some(l), q, p);
        let t: int = if m(q, p) == least {
            0
        } else {
            let j = choose|j: int| 0 <= j < imgs.len() && m(#[trigger] imgs[j], p) == least;
            j + 1
        };
        let from = queries[t];
        assert(m(from, p) == least);
        assert(least <= tree_distance(m, mode, from, p)) by {
            if t > 0 {
                assert(from == imgs[t - 1]);
            }
        }
        assert(bounds_from_below(m, None, from)) by {
            if t > 0 {
                assert(from == images_for(q, l, radius)[t - 1]);
            }
        }
        lemma_tree_distance_is_no_more_than_plain(m, mode, from, p);
        assert(is_within_of(items, m, mode, from, radius, parts[t]));
        let (chosen, rest) = choose|chosen: Seq<([i64; K], T)>, rest: Seq<([i64; K], T)>| #[trigger]
            within_among(items, m, mode, from, radius, parts[t], chosen, rest);
        crate::lemmas::lemma_item_of_selection(chosen + rest, items, i);
        let k = choose|k: int| 0 <= k < (chosen + rest).len() && (chosen + rest)[k] == items[i];
        if k >= chosen.len() {
            assert(rest[k - chosen.len()] == items[i]);
            assert(m(from, rest[k - chosen.len()].0) > radius);
        }
        assert(chosen[k] == items[i]);
        assert(scored(chosen, m, mode, from)[k] == wrapped[i]);
        assert(parts[t][k] == wrapped[i]);
        let at = lemma_part_in_flatten(parts, t, k);
        assert(flat[at] == wrapped[i]);
        assert(flat.contains(wrapped[i]));
        assert(flat.to_multiset().count(wrapped[i]) > 0);
        assert(res.to_multiset().count(wrapped[i]) > 0);
    }
    assert forall|k: int| 0 <= k < res.len() implies (#[trigger] res[k]).0 <= radius && exists|
        i: int,
    |
        0 <= i < wrapped.len() && (#[trigger] wrapped[i]).1 == res[k].1 && wrapped[i].0
            <= res[k].0 by {
        assert(res.contains(res[k]));
        assert(flat.to_multiset().count(res[k]) > 0);
        assert(flat.contains(res[k]));
        let at = choose|at: int| 0 <= at < flat.len() && flat[at] == res[k];
        let w = lemma_flatten_somewhere(parts, at);
        let from = queries[w.0];
        assert(is_within_of(items, m, mode, from, radius, parts[w.0]));
        let (chosen, rest) = choose|chosen: Seq<([i64; K], T)>, rest: Seq<([i64; K], T)>| #[trigger]
            within_among(items, m, mode, from, radius, parts[w.0], chosen, rest);
        assert(scored(chosen, m, mode, from)[w.1] == res[k]);
        assert((chosen + rest)[w.1] == chosen[w.1]);
        crate::lemmas::lemma_item_of_selection(items, chosen + rest, w.1);
        let i = choose|i: int| 0 <= i < items.len() && items[i] == (chosen + rest)[w.1];
        assert(in_cell(items[i].0, l));
        assert(wraps_at(m, l, mode, q, items[i].0, radius));
        if w.0 > 0 {
            assert(from == imgs[w.0 - 1]);
        }
        assert(wrapped[i].1 == res[k].1);
    }
}

/// What a periodic search for the nearest pairs returns as `res`, against
/// the stored pairs as the minimum-image distance from `q` shows them: a
/// stored pair that is not listed at its minimum-image distance lies, by
/// that distance, no nearer than any listed pair; and each listed pair is a
/// stored pair, at a distance no less than its minimum-image distance.
pub open spec fn wrapped_nearest<T, const K: usize>(
    items: Seq<([i64; K], T)>,
    m: spec_fn([i64; K], [i64; K]) -> i64,
    l: [i64; K],
    q: [i64; K],
    res: Seq<(i64, T)>,
) -> bool {
    let wrapped = scored(items, m, Some(l), q);
    &&& forall|i: int, k: int|
        0 <= i < wrapped.len() && 0 <= k < res.len() && !res.contains(#[trigger] wrapped[i]) ==> (
        #[trigger] res[k]).0 <= wrapped[i].0
    &&& forall|k: int|
        0 <= k < res.len() ==> exists|i: int|
            0 <= i < wrapped.len() && (#[trigger] wrapped[i]).1 == (#[trigger] res[k]).1
                && wrapped[i].0 <= res[k].0
}

/// The largest distance in `s` is no less than any distance in `s`.
pub proof fn lemma_largest_is_largest<T>(s: Seq<(i64, T)>, j: int)
    requires
        0 <= j < s.len(),
    ensures
        s[j].0 <= spec_largest(s),
        0 <= spec_largest(s),
    decreases s.len(),
{
    if j < s.len() - 1 {
        lemma_largest_is_largest(s.drop_last(), j);
    } else if s.len() > 1 {
        lemma_largest_is_largest(s.drop_last(), 0);
    } else {
        reveal_with_fuel(spec_largest, 2);
    }
}

/// Of as many pairs of `pool` as `res` lists, where `res` lists the
/// nearest of `pool`, one lies no nearer than the last that `res` lists.
pub proof fn lemma_one_is_no_nearer<T>(
    pool: Seq<(i64, T)>,
    res: Seq<(i64, T)>,
    part: Seq<(i64, T)>,
) -> (j: int)
    requires
        is_nearest(pool, res.len() as usize, res, true),
        res.len() <= usize::MAX,
        part.to_multiset().subset_of(pool.to_multiset()),
        part.len() == res.len(),
        res.len() > 0,
    ensures
        0 <= j < part.len(),
        res.last().0 <= part[j].0,
{
    broadcast use vstd::multiset::group_multiset_axioms;

    let last = res.last();
    if forall|j: int| 0 <= j < part.len() ==> (#[trigger] part[j]).0 < last.0 {
        part.to_multiset_ensures();
        res.to_multiset_ensures();
        pool.to_multiset_ensures();
        assert forall|x: (i64, T)| part.to_multiset().count(x) <= res.to_multiset().count(x) by {
            if part.to_multiset().count(x) > 0 {
                assert(part.contains(x));
                let j = choose|j: int| 0 <= j < part.len() && part[j] == x;
                assert(part[j].0 < last.0);
                if pool.to_multiset().sub(res.to_multiset()).count(x) > 0 {
                    assert(crate::nearest::farther_than_all(x, res));
                    assert(res[res.len() - 1].0 <= x.0);
                }
            }
        }
        let more = res.to_multiset().sub(part.to_multiset());
        assert(res.to_multiset() =~= part.to_multiset().add(more));
        assert(more.len() == 0);
        vstd::multiset::lemma_multiset_empty_len(more);
        assert(res.to_multiset() =~= part.to_multiset());
        assert(res.contains(last));
        assert(part.to_multiset().count(last) > 0);
        assert(part.contains(last));
        let j = choose|j: int| 0 <= j < part.len() && part[j] == last;
        assert(false);
        0
    } else {
        choose|j: int| 0 <= j < part.len() && !((#[trigger] part[j]).0 < last.0)
    }
}

/// What the searches from a point and from its images find as the nearest
/// pairs is, against the minimum-image distances, as `wrapped_nearest`
/// says, where the metric wraps and the stored points lie in the cell.
pub proof fn lemma_nearest_of_searches<T, const K: usize>(
    items: Seq<([i64; K], T)>,
    m: spec_fn([i64; K], [i64; K]) -> i64,
    mode: Option<[i64; K]>,
    l: [i64; K],
    q: [i64; K],
    num: usize,
    first: Seq<(i64, T)>,
    others: Seq<Seq<(i64, T)>>,
    res: Seq<(i64, T)>,
)
    requires
        wraps(m, l, mode, q),
        stored_in_cell(items, l),
        first.len() > 0,
        others.len() == images_for(q, l, spec_largest(first)).len(),
        is_nearest(scored(items, m, mode, q), num, first, false),
        is_nearest_of(items, m, mode, q, first),
        forall|j: int|
            0 <= j < others.len() ==> is_nearest(
                scored(items, m, mode, images_for(q, l, spec_largest(first))[j]),
                num,
                #[trigger] others[j],
                false,
            ) && is_nearest_of(items, m, mode, images_for(q, l, spec_largest(first))[j], others[j]),
        is_nearest(first + others.flatten(), first.len() as usize, res, true),
    ensures
        wrapped_nearest(items, m, l, q, res),
{
    broadcast use vstd::multiset::group_multiset_axioms;

    let cutoff = spec_largest(first);
    let imgs = images_for(q, l, cutoff);
    let queries = seq![q] + imgs;
    let parts = seq![first] + others;
    let wrapped = scored(items, m, Some(l), q);
    let pool = first + others.flatten();
    assert(parts.drop_first() =~= others);
    assert(parts.flatten() =~= pool);
    res.to_multiset_ensures();
    pool.to_multiset_ensures();
    first.to_multiset_ensures();
    vstd::seq_lib::lemma_multiset_commutative(first, others.flatten());
    assert(res.len() == first.len());
    let last = res.last();
    let j0 = lemma_one_is_no_nearer(pool, res, first);
    lemma_largest_is_largest(first, j0);
    assert(last.0 <= cutoff);
    assert forall|i: int, k: int|
        0 <= i < wrapped.len() && 0 <= k < res.len() && !res.contains(
            #[trigger] wrapped[i],
        ) implies (#[trigger] res[k]).0 <= wrapped[i].0 by {
        assert(res[k].0 <= res[res.len() - 1].0);
        if wrapped[i].0 < last.0 {
            let p = items[i].0;
            assert(in_cell(p, l));
            assert(wraps_at(m, l, mode, q, p, cutoff));
            let least = tree_distance(m, Some(l), q, p);
            let t: int = if m(q, p) == least {
                0
            } else {
                let j = choose|j: int| 0 <= j < imgs.len() && m(#[trigger] imgs[j], p) == least;
                j + 1
            };
            let from = queries[t];
            assert(m(from, p) == least);
            assert(least <= tree_distance(m, mode, from, p) && bounds_from_below(m, None, from)
                && is_nearest_of(items, m, mode, from, parts[t]) && parts[t].len()
                == first.len()) by {
                if t > 0 {
                    assert(from == images_for(q, l, cutoff)[t - 1]);
                    assert(parts[t] == others[t - 1]);
                }
            }
            lemma_tree_distance_is_no_more_than_plain(m, mode, from, p);
            let (chosen, rest) = choose|chosen: Seq<([i64; K], T)>, rest: Seq<([i64; K], T)>| #[trigger]
                nearest_among(items, m, mode, from, parts[t], chosen, rest);
            crate::lemmas::lemma_item_of_selection(chosen + rest, items, i);
            let c = choose|c: int| 0 <= c < (chosen + rest).len() && (chosen + rest)[c] == items[i];
            let at0 = lemma_part_in_flatten(parts, t, 0);
            if c >= chosen.len() {
                assert(rest[c - chosen.len()] == items[i]);
                assert(parts[t].to_multiset().subset_of(pool.to_multiset())) by {
                    parts[t].to_multiset_ensures();
                    assert forall|x: (i64, T)| parts[t].to_multiset().count(x)
                        <= pool.to_multiset().count(x) by {
                        lemma_part_counts(parts, t, x);
                    }
                }
                let j = lemma_one_is_no_nearer(pool, res, parts[t]);
                assert(parts[t][j].0 <= m(from, rest[c - chosen.len()].0));
                assert(false);
            }
            assert(chosen[c] == items[i]);
            assert(scored(chosen, m, mode, from)[c] == wrapped[i]);
            assert(parts[t][c] == wrapped[i]);
            let at = lemma_part_in_flatten(parts, t, c);
            assert(pool[at] == wrapped[i]);
            assert(pool.contains(wrapped[i]));
            assert(pool.to_multiset().count(wrapped[i]) > 0);
            assert(res.to_multiset().count(wrapped[i]) == 0) by {
                if res.to_multiset().count(wrapped[i]) > 0 {
                    assert(res.contains(wrapped[i]));
                }
            }
            assert(pool.to_multiset().sub(res.to_multiset()).count(wrapped[i]) > 0);
            assert(crate::nearest::farther_than_all(wrapped[i], res));
            assert(res[res.len() - 1].0 <= wrapped[i].0);
        }
    }
    assert forall|k: int| 0 <= k < res.len() implies exists|i: int|
        0 <= i < wrapped.len() && (#[trigger] wrapped[i]).1 == (#[trigger] res[k]).1
            && wrapped[i].0 <= res[k].0 by {
        assert(res.contains(res[k]));
        assert(pool.to_multiset().count(res[k]) > 0);
        assert(pool.contains(res[k]));
        let at = choose|at: int| 0 <= at < pool.len() && pool[at] == res[k];
        let w = lemma_flatten_somewhere(parts, at);
        let from = queries[w.0];
        assert(is_nearest_of(items, m, mode, from, parts[w.0])) by {
            if w.0 > 0 {
                assert(from == images_for(q, l, cutoff)[w.0 - 1]);
                assert(parts[w.0] == others[w.0 - 1]);
            }
        }
        let (chosen, rest) = choose|chosen: Seq<([i64; K], T)>, rest: Seq<([i64; K], T)>| #[trigger]
            nearest_among(items, m, mode, from, parts[w.0], chosen, rest);
        assert(scored(chosen, m, mode, from)[w.1] == res[k]);
        assert((chosen + rest)[w.1] == chosen[w.1]);
        crate::lemmas::lemma_item_of_selection(items, chosen + rest, w.1);
        let i = choose|i: int| 0 <= i < items.len() && items[i] == (chosen + rest)[w.1];
        assert(in_cell(items[i].0, l));
        assert(wraps_at(m, l, mode, q, items[i].0, cutoff));
        if w.0 > 0 {
            assert(from == imgs[w.0 - 1]);
        }
        assert(wrapped[i].1 == res[k].1);
    }
}

/// A pair is listed in all of the sequences `parts`, put end to end, at
/// least as often as in one of them.
pub proof fn lemma_part_counts<E>(parts: Seq<Seq<E>>, t: int, x: E)
    requires
        0 <= t < parts.len(),
    ensures
        parts[t].to_multiset().count(x) <= parts.flatten().to_multiset().count(x),
    decreases parts.len(),
{
    broadcast use vstd::multiset::group_multiset_axioms;

    vstd::seq_lib::lemma_multiset_commutative(parts.first(), parts.drop_first().flatten());
    if t > 0 {
        lemma_part_counts(parts.drop_first(), t - 1, x);
    }
}

/// The nearest of what the searches from a point and from its images find
/// is a pair at the least minimum-image distance, where the metric wraps
/// and the stored points lie in the cell.
pub proof fn lemma_least_of_searches<T, const K: usize>(
    items: Seq<([i64; K], T)>,
    m: spec_fn([i64; K], [i64; K]) -> i64,
    mode: Option<[i64; K]>,
    l: [i64; K],
    q: [i64; K],
    first: (i64, T),
    others: Seq<(i64, T)>,
    best: (i64, T),
)
    requires
        wraps(m, l, mode, q),
        stored_in_cell(items, l),
        is_nearest_one(scored(items, m, mode, q), first, false),
        is_plainly_nearest(items, m, q, first.0),
        others.len() == images_for(q, l, first.0).len(),
        forall|j: int|
            0 <= j < others.len() ==> is_nearest_one(
                scored(items, m, mode, images_for(q, l, first.0)[j]),
                #[trigger] others[j],
                false,
            ) && is_plainly_nearest(items, m, images_for(q, l, first.0)[j], others[j].0),
        best.0 <= first.0,
        forall|j: int| 0 <= j < others.len() ==> best.0 <= (#[trigger] others[j]).0,
        best == first || exists|j: int| 0 <= j < others.len() && best == #[trigger] others[j],
    ensures
        is_nearest_one(scored(items, m, Some(l), q), best, true),
{
    let imgs = images_for(q, l, first.0);
    let wrapped = scored(items, m, Some(l), q);
    assert forall|i: int| 0 <= i < wrapped.len() implies best.0 <= (#[trigger] wrapped[i]).0 by {
        let p = items[i].0;
        assert(in_cell(p, l));
        assert(wraps_at(m, l, mode, q, p, first.0));
        let least = tree_distance(m, Some(l), q, p);
        if least < first.0 {
            assert(first.0 <= m(q, items[i].0));
            let j = choose|j: int| 0 <= j < imgs.len() && m(#[trigger] imgs[j], p) == least;
            assert(bounds_from_below(m, None, images_for(q, l, first.0)[j]));
            assert(is_plainly_nearest(items, m, imgs[j], others[j].0));
            assert(others[j].0 <= m(imgs[j], items[i].0));
        }
    }
    let from = if best == first {
        q
    } else {
        let j = choose|j: int| 0 <= j < others.len() && best == #[trigger] others[j];
        imgs[j]
    };
    let seen = scored(items, m, mode, from);
    assert(seen.to_multiset().count(best) > 0);
    seen.to_multiset_ensures();
    wrapped.to_multiset_ensures();
    assert(seen.contains(best));
    let k = choose|k: int| 0 <= k < seen.len() && seen[k] == best;
    assert(in_cell(items[k].0, l));
    assert(wraps_at(m, l, mode, q, items[k].0, first.0));
    assert(tree_distance(m, Some(l), q, items[k].0) <= best.0);
    assert(best.0 <= wrapped[k].0);
    assert(wrapped[k] == best);
    assert(wrapped.contains(best));
}

impl<T, const K: usize> KdTree<T, K> {
    /// Checks a point that is handed to a periodic query: as the tree
    /// itself checks it, and then against the cell.
    pub(crate) fn check_periodic(&self, point: &[i64; K], periodic: &[i64; K]) -> (r: Result<
        (),
        ErrorKind,
    >)
        ensures
            r == spec_check_periodic(*point, self.periodic, *periodic),
    {
        match self.check_point(point) {
            Err(e) => Err(e),
            Ok(()) => if in_periodic_cell(point, periodic) {
                Ok(())
            } else {
                Err(ErrorKind::PeriodicOutOfBounds)
            },
        }
    }

    /// Finds the `num` nearest pairs to `point` on a periodic domain of
    /// side lengths `periodic`: among what is found from `point` and from
    /// those of its images across the nearer faces of the cell that may
    /// hold something nearer. A point outside the cell is refused.
    pub fn nearest_periodic<F>(
        &self,
        point: &[i64; K],
        num: usize,
        distance: &F,
        periodic: &[i64; K],
    ) -> (r: Result<Vec<(i64, &T)>, ErrorKind>) where F: Fn(&[i64; K], &[i64; K]) -> i64
        requires
            self.wf(),
            is_metric::<F, K>(*distance),
        ensures
            r is Err <==> spec_check_periodic(*point, self.spec_periodic(), *periodic) is Err,
            r matches Err(e) ==> spec_check_periodic(*point, self.spec_periodic(), *periodic)
                == Err::<(), ErrorKind>(e),
            r matches Ok(v) ==> {
                &&& v@.len() == if num < self.spec_size() {
                    num
                } else {
                    self.spec_size()
                }
                &&& ascending(v@)
                &&& forall|m: spec_fn([i64; K], [i64; K]) -> i64| #[trigger]
                    models::<F, K>(*distance, m) ==> is_periodic_nearest(
                        self.entries(),
                        m,
                        self.spec_periodic(),
                        *point,
                        *periodic,
                        num,
                        found(v@),
                    )
                &&& forall|m: spec_fn([i64; K], [i64; K]) -> i64| #[trigger]
                    models::<F, K>(*distance, m) && wraps(
                        m,
                        *periodic,
                        self.spec_periodic(),
                        *point,
                    ) && stored_in_cell(self.entries(), *periodic) ==> wrapped_nearest(
                        self.entries(),
                        m,
                        *periodic,
                        *point,
                        found(v@),
                    )
            },
    {
        broadcast use vstd::multiset::group_multiset_axioms;

        match self.check_periodic(point, periodic) {
            Err(e) => {
                return Err(e);
            },
            Ok(()) => {},
        }
        let mut merged = self.nearest_from(point, num, distance);
        let ghost first = found(merged@);
        let ghost mut others: Seq<Seq<(i64, T)>> = Seq::empty();
        let keep = merged.len();
        if keep == 0 {
            proof {
                assert forall|m: spec_fn([i64; K], [i64; K]) -> i64| #[trigger]
                    models::<F, K>(*distance, m) implies is_periodic_nearest(
                    self.entries(),
                    m,
                    self.periodic,
                    *point,
                    *periodic,
                    num,
                    found(merged@),
                ) by {
                    assert(merged_nearest(
                        self.entries(),
                        m,
                        self.periodic,
                        *point,
                        *periodic,
                        num,
                        first,
                        others,
                        found(merged@),
                    ));
                }
                assert forall|m: spec_fn([i64; K], [i64; K]) -> i64|
                    #[trigger] models::<F, K>(*distance, m) implies wrapped_nearest(
                    self.entries(),
                    m,
                    *periodic,
                    *point,
                    found(merged@),
                ) by {}
            }
            return Ok(merged);
        }
        let cutoff = largest_distance(&merged);
        let images = images_to_check(point, periodic, cutoff);
        let mut j: usize = 0;
        proof {
            assert(others.flatten() =~= Seq::<(i64, T)>::empty());
            assert(first + others.flatten() =~= first);
        }
        while j < images.len()
            invariant
                0 <= j <= images@.len(),
                self.wf(),
                is_metric::<F, K>(*distance),
                ascending(merged@),
                others.len() == j,
                found(merged@).to_multiset() =~= (first + others.flatten()).to_multiset(),
                forall|m: spec_fn([i64; K], [i64; K]) -> i64, i: int|
                    #![trigger models::<F, K>(*distance, m), others[i]]
                    models::<F, K>(*distance, m) && 0 <= i < j ==> is_nearest(
                        scored(self.entries(), m, self.periodic, images@[i]),
                        num,
                        others[i],
                        bounds_from_below(m, self.periodic, images@[i]),
                    ) && is_nearest_of(self.entries(), m, self.periodic, images@[i], others[i]),
            decreases images@.len() - j,
        {
            let part = self.nearest_from(&images[j], num, distance);
            merge_sorted(&mut merged, &part);
            proof {
                let before = others;
                others = others.push(found(part@));
                before.lemma_flatten_push(found(part@));
                vstd::seq_lib::lemma_multiset_commutative(first, before.flatten());
                vstd::seq_lib::lemma_multiset_commutative(first, others.flatten());
                vstd::seq_lib::lemma_multiset_commutative(before.flatten(), found(part@));
                assert forall|m: spec_fn([i64; K], [i64; K]) -> i64, i: int|
                    #![trigger models::<F, K>(*distance, m), others[i]]
                    models::<F, K>(*distance, m) && 0 <= i < j + 1 implies is_nearest(
                    scored(self.entries(), m, self.periodic, images@[i]),
                    num,
                    others[i],
                    bounds_from_below(m, self.periodic, images@[i]),
                ) && is_nearest_of(self.entries(), m, self.periodic, images@[i], others[i]) by {
                    if i < j {
                        assert(others[i] == before[i]);
                    }
                }
            }
            j += 1;
        }
        let ghost full = found(merged@);
        proof {
            full.to_multiset_ensures();
            (first + others.flatten()).to_multiset_ensures();
            lemma_first_are_nearest(first + others.flatten(), full, keep);
            assert forall|a: int, b: int| 0 <= a <= b < full.len() implies full[a].0
                <= full[b].0 by {
                assert(merged@[a].0 <= merged@[b].0);
            }
        }
        merged.truncate(keep);
        proof {
            assert(found(merged@) =~= full.take(keep as int));
            assert forall|m: spec_fn([i64; K], [i64; K]) -> i64| #[trigger]
                models::<F, K>(*distance, m) implies is_periodic_nearest(
                self.entries(),
                m,
                self.periodic,
                *point,
                *periodic,
                num,
                found(merged@),
            ) by {
                assert forall|i: int| 0 <= i < images@.len() implies is_nearest(
                    scored(self.entries(), m, self.periodic, images@[i]),
                    num,
                    #[trigger] others[i],
                    bounds_from_below(m, self.periodic, images@[i]),
                ) by {}
                assert(merged_nearest(
                    self.entries(),
                    m,
                    self.periodic,
                    *point,
                    *periodic,
                    num,
                    first,
                    others,
                    found(merged@),
                ));
            }
            assert forall|m: spec_fn([i64; K], [i64; K]) -> i64| #[trigger]
                models::<F, K>(*distance, m) && wraps(m, *periodic, self.periodic, *point)
                    && stored_in_cell(self.entries(), *periodic) implies wrapped_nearest(
                self.entries(),
                m,
                *periodic,
                *point,
                found(merged@),
            ) by {
                assert forall|i: int| 0 <= i < others.len() implies is_nearest(
                    scored(
                        self.entries(),
                        m,
                        self.periodic,
                        images_for(*point, *periodic, spec_largest(first))[i],
                    ),
                    num,
                    #[trigger] others[i],
                    false,
                ) && is_nearest_of(
                    self.entries(),
                    m,
                    self.periodic,
                    images_for(*point, *periodic, spec_largest(first))[i],
                    others[i],
                ) by {}
                lemma_nearest_of_searches(
                    self.entries(),
                    m,
                    self.periodic,
                    *periodic,
                    *point,
                    num,
                    first,
                    others,
                    found(merged@),
                );
            }
        }
        Ok(merged)
    }

    /// Finds the pair nearest to `point` on a periodic domain of side
    /// lengths `periodic`: the nearest of what is found from `point` and
    /// from those of its images across the nearer faces of the cell that
    /// may hold something nearer. An empty tree has none, whatever the
    /// point; a point outside the cell is refused.
    pub fn nearest_one_periodic<F>(&self, point: &[i64; K], distance: &F, periodic: &[i64; K]) -> (r:
        Result<(i64, &T), ErrorKind>) where F: Fn(&[i64; K], &[i64; K]) -> i64
        requires
            self.wf(),
            is_metric::<F, K>(*distance),
        ensures
            self.spec_size() == 0 ==> r == Err::<(i64, &T), ErrorKind>(ErrorKind::Empty),
            self.spec_size() > 0 ==> (r is Err <==> spec_check_periodic(
                *point,
                self.spec_periodic(),
                *periodic,
            ) is Err),
            self.spec_size() > 0 ==> (r matches Err(e) ==> spec_check_periodic(
                *point,
                self.spec_periodic(),
                *periodic,
            ) == Err::<(), ErrorKind>(e)),
            r matches Ok(best) ==> forall|m: spec_fn([i64; K], [i64; K]) -> i64| #[trigger]
                models::<F, K>(*distance, m) ==> is_periodic_nearest_one(
                    self.entries(),
                    m,
                    self.spec_periodic(),
                    *point,
                    *periodic,
                    (best.0, *best.1),
                ),
            r matches Ok(best) ==> forall|m: spec_fn([i64; K], [i64; K]) -> i64| #[trigger]
                models::<F, K>(*distance, m) && wraps(m, *periodic, self.spec_periodic(), *point)
                    && stored_in_cell(self.entries(), *periodic) ==> is_nearest_one(
                    scored(self.entries(), m, Some(*periodic), *point),
                    (best.0, *best.1),
                    true,
                ),
    {
        if self.size == 0 {
            return Err(ErrorKind::Empty);
        }
        match self.check_periodic(point, periodic) {
            Err(e) => {
                return Err(e);
            },
            Ok(()) => {},
        }
        let canonical = match self.nearest_one_from(point, distance) {
            Some(found_one) => found_one,
            None => {
                return Err(ErrorKind::Empty);
            },
        };
        let mut best_dist: i64 = canonical.0;
        let mut best_elem: &T = canonical.1;
        let ghost first = (canonical.0, *canonical.1);
        let ghost mut others: Seq<(i64, T)> = Seq::empty();
        let images = images_to_check(point, periodic, canonical.0);
        let mut j: usize = 0;
        while j < images.len()
            invariant
                0 <= j <= images@.len(),
                self.wf(),
                self.size > 0,
                is_metric::<F, K>(*distance),
                others.len() == j,
                best_dist <= first.0,
                forall|i: int| 0 <= i < j ==> best_dist <= (#[trigger] others[i]).0,
                (best_dist, *best_elem) == first || exists|i: int|
                    0 <= i < j && (best_dist, *best_elem) == #[trigger] others[i],
                forall|m: spec_fn([i64; K], [i64; K]) -> i64, i: int|
                    #![trigger models::<F, K>(*distance, m), others[i]]
                    models::<F, K>(*distance, m) && 0 <= i < j ==> is_nearest_one(
                        scored(self.entries(), m, self.periodic, images@[i]),
                        others[i],
                        bounds_from_below(m, self.periodic, images@[i]),
                    ) && is_plainly_nearest(self.entries(), m, images@[i], others[i].0),
            decreases images@.len() - j,
        {
            let ghost before = others;
            let ghost best_before = (best_dist, *best_elem);
            match self.nearest_one_from(&images[j], distance) {
                Some(image_best) => {
                    proof {
                        others = others.push((image_best.0, *image_best.1));
                    }
                    if image_best.0 < best_dist {
                        best_dist = image_best.0;
                        best_elem = image_best.1;
                    }
                },
                None => {},
            }
            proof {
                assert forall|i: int| 0 <= i < j + 1 implies best_dist <= (#[trigger] others[i]).0 by {
                    if i < j {
                        assert(others[i] == before[i]);
                    }
                }
                assert forall|m: spec_fn([i64; K], [i64; K]) -> i64, i: int|
                    #![trigger models::<F, K>(*distance, m), others[i]]
                    models::<F, K>(*distance, m) && 0 <= i < j + 1 implies is_nearest_one(
                    scored(self.entries(), m, self.periodic, images@[i]),
                    others[i],
                    bounds_from_below(m, self.periodic, images@[i]),
                ) && is_plainly_nearest(self.entries(), m, images@[i], others[i].0) by {
                    if i < j {
                        assert(others[i] == before[i]);
                    }
                }
                if (best_dist, *best_elem) != first {
                    if (best_dist, *best_elem) == best_before {
                        let i = choose|i: int| 0 <= i < j && best_before == #[trigger] before[i];
                        assert(others[i] == before[i]);
                    } else {
                        assert((best_dist, *best_elem) == others[j as int]);
                    }
                }
            }
            j += 1;
        }
        proof {
            assert forall|m: spec_fn([i64; K], [i64; K]) -> i64| #[trigger]
                models::<F, K>(*distance, m) implies is_periodic_nearest_one(
                self.entries(),
                m,
                self.periodic,
                *point,
                *periodic,
                (best_dist, *best_elem),
            ) by {
                assert forall|i: int| 0 <= i < images@.len() implies is_nearest_one(
                    scored(self.entries(), m, self.periodic, images@[i]),
                    #[trigger] others[i],
                    bounds_from_below(m, self.periodic, images@[i]),
                ) by {}
                assert(merged_nearest_one(
                    self.entries(),
                    m,
                    self.periodic,
                    *point,
                    *periodic,
                    first,
                    others,
                    (best_dist, *best_elem),
                ));
            }
            assert forall|m: spec_fn([i64; K], [i64; K]) -> i64| #[trigger]
                models::<F, K>(*distance, m) && wraps(m, *periodic, self.periodic, *point)
                    && stored_in_cell(self.entries(), *periodic) implies is_nearest_one(
                scored(self.entries(), m, Some(*periodic), *point),
                (best_dist, *best_elem),
                true,
            ) by {
                lemma_least_of_searches(
                    self.entries(),
                    m,
                    self.periodic,
                    *periodic,
                    *point,
                    first,
                    others,
                    (best_dist, *best_elem),
                );
            }
        }
        Ok((best_dist, best_elem))
    }

    /// Finds the pairs within `radius` of `point` on a periodic domain of
    /// side lengths `periodic`, nearest first or, if not `sorted`, in the
    /// order in which they are found, without checking the point.
    pub(crate) fn within_periodic_from<F>(
        &self,
        point: &[i64; K],
        radius: i64,
        distance: &F,
        periodic: &[i64; K],
        sorted: bool,
    ) -> (r: Vec<(i64, &T)>) where F: Fn(&[i64; K], &[i64; K]) -> i64
        requires
            self.wf(),
            is_metric::<F, K>(*distance),
            in_cell(*point, *periodic),
        ensures
            sorted ==> ascending(r@),
            forall|i: int| 0 <= i < r@.len() ==> (#[trigger] r@[i]).0 <= radius,
            forall|m: spec_fn([i64; K], [i64; K]) -> i64| #[trigger]
                models::<F, K>(*distance, m) ==> is_periodic_within(
                    self.entries(),
                    m,
                    self.periodic,
                    *point,
                    *periodic,
                    radius,
                    found(r@),
                ),
            forall|m: spec_fn([i64; K], [i64; K]) -> i64| #[trigger]
                models::<F, K>(*distance, m) && wraps(m, *periodic, self.periodic, *point)
                    && stored_in_cell(self.entries(), *periodic) ==> wrapped_within(
                    self.entries(),
                    m,
                    *periodic,
                    *point,
                    radius,
                    found(r@),
                ),
            forall|m: spec_fn([i64; K], [i64; K]) -> i64| #[trigger]
                models::<F, K>(*distance, m) ==> found(r@).to_multiset()
                    =~= exactly_within_periodic(*self, m, *point, *periodic, radius),
    {
        broadcast use vstd::multiset::group_multiset_axioms;

        let mut merged = self.within_from(point, radius, distance);
        let ghost mut parts: Seq<Seq<(i64, T)>> = seq![found(merged@)];
        let images = images_to_check(point, periodic, radius);
        let ghost queries = seq![*point] + images@;
        let mut j: usize = 0;
        proof {
            Seq::<Seq<(i64, T)>>::empty().lemma_flatten_push(found(merged@));
            assert(parts =~= Seq::<Seq<(i64, T)>>::empty().push(found(merged@)));
            assert(Seq::<Seq<(i64, T)>>::empty().flatten() =~= Seq::<(i64, T)>::empty());
            assert(parts.flatten() =~= found(merged@));
            crate::metric::lemma_metric_has_model::<F, K>(*distance);
            let own = crate::metric::metric_value::<F, K>(*distance);
            assert(is_within(
                scored(self.entries(), own, self.periodic, *point),
                radius,
                found(merged@),
                bounds_from_below(own, self.periodic, *point),
            ));
            assert forall|m: spec_fn([i64; K], [i64; K]) -> i64| #[trigger]
                models::<F, K>(*distance, m) implies found(merged@).to_multiset()
                =~= pooled_within(*self, m, queries.take(1), radius) by {
                assert(queries.take(1).drop_last() =~= Seq::<[i64; K]>::empty());
                assert(queries.take(1).last() == *point);
                assert(pooled_within(*self, m, queries.take(1).drop_last(), radius)
                    =~= Multiset::<(i64, T)>::empty());
            }
            assert forall|i: int| 0 <= i < merged@.len() implies (#[trigger] merged@[i]).0
                <= radius by {
                assert(found(merged@)[i].0 <= radius);
            }
        }
        while j < images.len()
            invariant
                0 <= j <= images@.len(),
                self.wf(),
                is_metric::<F, K>(*distance),
                queries == seq![*point] + images@,
                sorted ==> ascending(merged@),
                parts.len() == j + 1,
                forall|m: spec_fn([i64; K], [i64; K]) -> i64| #[trigger]
                    models::<F, K>(*distance, m) ==> found(merged@).to_multiset()
                        =~= pooled_within(*self, m, queries.take(j + 1), radius),
                found(merged@).to_multiset() =~= parts.flatten().to_multiset(),
                forall|i: int| 0 <= i < found(merged@).len() ==> (#[trigger] found(merged@)[i]).0
                    <= radius,
                forall|m: spec_fn([i64; K], [i64; K]) -> i64, i: int|
                    #![trigger models::<F, K>(*distance, m), parts[i]]
                    models::<F, K>(*distance, m) && 0 <= i < j + 1 ==> is_within(
                        scored(self.entries(), m, self.periodic, queries[i]),
                        radius,
                        parts[i],
                        bounds_from_below(m, self.periodic, queries[i]),
                    ) && is_within_of(self.entries(), m, self.periodic, queries[i], radius, parts[i]),
            decreases images@.len() - j,
        {
            let part = self.within_from(&images[j], radius, distance);
            let ghost merged_before = found(merged@);
            if sorted {
                merge_sorted(&mut merged, &part);
            } else {
                merge_unsorted(&mut merged, &part);
                proof {
                    vstd::seq_lib::lemma_multiset_commutative(merged_before, found(part@));
                }
            }
            proof {
                assert forall|m: spec_fn([i64; K], [i64; K]) -> i64| #[trigger]
                    models::<F, K>(*distance, m) implies found(merged@).to_multiset()
                    =~= pooled_within(*self, m, queries.take(j + 2), radius) by {
                    assert(queries.take(j + 2).drop_last() =~= queries.take(j + 1));
                    assert(queries.take(j + 2).last() == images@[j as int]);
                    assert(merged_before.to_multiset() =~= pooled_within(
                        *self,
                        m,
                        queries.take(j + 1),
                        radius,
                    ));
                }
            }
            proof {
                let before = parts;
                parts = parts.push(found(part@));
                before.lemma_flatten_push(found(part@));
                vstd::seq_lib::lemma_multiset_commutative(before.flatten(), found(part@));
                assert(queries[j + 1] == images@[j as int]);
                assert forall|m: spec_fn([i64; K], [i64; K]) -> i64, i: int|
                    #![trigger models::<F, K>(*distance, m), parts[i]]
                    models::<F, K>(*distance, m) && 0 <= i < j + 2 implies is_within(
                    scored(self.entries(), m, self.periodic, queries[i]),
                    radius,
                    parts[i],
                    bounds_from_below(m, self.periodic, queries[i]),
                ) && is_within_of(
                    self.entries(),
                    m,
                    self.periodic,
                    queries[i],
                    radius,
                    parts[i],
                ) by {
                    if i < j + 1 {
                        assert(parts[i] == before[i]);
                    }
                }
                let own = crate::metric::metric_value::<F, K>(*distance);
                crate::metric::lemma_metric_has_model::<F, K>(*distance);
                assert(is_within(
                    scored(self.entries(), own, self.periodic, images@[j as int]),
                    radius,
                    found(part@),
                    bounds_from_below(own, self.periodic, images@[j as int]),
                ));
                let now = found(merged@);
                now.to_multiset_ensures();
                merged_before.to_multiset_ensures();
                found(part@).to_multiset_ensures();
                assert forall|i: int| 0 <= i < now.len() implies (#[trigger] now[i]).0
                    <= radius by {
                    assert(now.contains(now[i]));
                    assert(now.to_multiset().count(now[i]) > 0);
                    if merged_before.to_multiset().count(now[i]) > 0 {
                        assert(merged_before.contains(now[i]));
                        let k = choose|k: int|
                            0 <= k < merged_before.len() && merged_before[k] == now[i];
                        assert(merged_before[k].0 <= radius);
                    } else {
                        assert(found(part@).contains(now[i]));
                        let k = choose|k: int|
                            0 <= k < found(part@).len() && found(part@)[k] == now[i];
                        assert(found(part@)[k].0 <= radius);
                    }
                }
            }
            j += 1;
        }
        proof {
            assert forall|i: int| 0 <= i < merged@.len() implies (#[trigger] merged@[i]).0
                <= radius by {
                assert(found(merged@)[i].0 <= radius);
            }
            assert forall|m: spec_fn([i64; K], [i64; K]) -> i64| #[trigger]
                models::<F, K>(*distance, m) implies is_periodic_within(
                self.entries(),
                m,
                self.periodic,
                *point,
                *periodic,
                radius,
                found(merged@),
            ) by {
                assert forall|i: int| 0 <= i < queries.len() implies is_within(
                    scored(self.entries(), m, self.periodic, queries[i]),
                    radius,
                    #[trigger] parts[i],
                    bounds_from_below(m, self.periodic, queries[i]),
                ) by {}
                assert(merged_within(
                    self.entries(),
                    m,
                    self.periodic,
                    *point,
                    *periodic,
                    radius,
                    parts,
                    found(merged@),
                ));
            }
            assert(queries.take(queries.len() as int) =~= queries);
            assert forall|m: spec_fn([i64; K], [i64; K]) -> i64| #[trigger]
                models::<F, K>(*distance, m) && wraps(m, *periodic, self.periodic, *point)
                    && stored_in_cell(self.entries(), *periodic) implies wrapped_within(
                self.entries(),
                m,
                *periodic,
                *point,
                radius,
                found(merged@),
            ) by {
                assert forall|i: int| 0 <= i < parts.len() implies is_within_of(
                    self.entries(),
                    m,
                    self.periodic,
                    (seq![*point] + images_for(*point, *periodic, radius))[i],
                    radius,
                    #[trigger] parts[i],
                ) by {}
                lemma_within_of_searches(
                    self.entries(),
                    m,
                    self.periodic,
                    *periodic,
                    *point,
                    radius,
                    parts,
                    found(merged@),
                );
            }
        }
        merged
    }

    /// Finds the pairs within `radius` of `point` on a periodic domain of
    /// side lengths `periodic`, nearest first: what is found from `point`
    /// and from those of its images across the nearer faces of the cell
    /// that may hold something within `radius`. On an empty tree the answer
    /// is empty, whatever the point; a point outside the cell is refused.
    pub fn within_periodic<F>(
        &self,
        point: &[i64; K],
        radius: i64,
        distance: &F,
        periodic: &[i64; K],
    ) -> (r: Result<Vec<(i64, &T)>, ErrorKind>) where F: Fn(&[i64; K], &[i64; K]) -> i64
        requires
            self.wf(),
            is_metric::<F, K>(*distance),
        ensures
            self.spec_size() == 0 ==> (r matches Ok(v) && v@.len() == 0),
            self.spec_size() > 0 ==> (r is Err <==> spec_check_periodic(
                *point,
                self.spec_periodic(),
                *periodic,
            ) is Err),
            r matches Err(e) ==> spec_check_periodic(*point, self.spec_periodic(), *periodic)
                == Err::<(), ErrorKind>(e),
            r matches Ok(v) ==> {
                &&& ascending(v@)
                &&& forall|i: int| 0 <= i < v@.len() ==> (#[trigger] v@[i]).0 <= radius
                &&& self.spec_size() > 0 ==> forall|m: spec_fn([i64; K], [i64; K]) -> i64| #[trigger]
                    models::<F, K>(*distance, m) ==> is_periodic_within(
                        self.entries(),
                        m,
                        self.spec_periodic(),
                        *point,
                        *periodic,
                        radius,
                        found(v@),
                    )
                &&& self.spec_size() > 0 ==> forall|m: spec_fn([i64; K], [i64; K]) -> i64| #[trigger]
                    models::<F, K>(*distance, m) && wraps(
                        m,
                        *periodic,
                        self.spec_periodic(),
                        *point,
                    ) && stored_in_cell(self.entries(), *periodic) ==> wrapped_within(
                        self.entries(),
                        m,
                        *periodic,
                        *point,
                        radius,
                        found(v@),
                    )
                &&& self.spec_size() > 0 ==> forall|m: spec_fn([i64; K], [i64; K]) -> i64| #[trigger]
                    models::<F, K>(*distance, m) ==> found(v@).to_multiset()
                        =~= exactly_within_periodic(*self, m, *point, *periodic, radius)
            },
    {
        if self.size == 0 {
            return Ok(Vec::new());
        }
        match self.check_periodic(point, periodic) {
            Err(e) => Err(e),
            Ok(()) => Ok(self.within_periodic_from(point, radius, distance, periodic, true)),
        }
    }

    /// Finds the pairs within `radius` of `point` on a periodic domain of
    /// side lengths `periodic`, in the order in which they are found: what
    /// is found from `point` and from those of its images across the nearer
    /// faces of the cell that may hold something within `radius`. On an
    /// empty tree the answer is empty, whatever the point; a point outside
    /// the cell is refused.
    pub fn within_unsorted_periodic<F>(
        &self,
        point: &[i64; K],
        radius: i64,
        distance: &F,
        periodic: &[i64; K],
    ) -> (r: Result<Vec<(i64, &T)>, ErrorKind>) where F: Fn(&[i64; K], &[i64; K]) -> i64
        requires
            self.wf(),
            is_metric::<F, K>(*distance),
        ensures
            self.spec_size() == 0 ==> (r matches Ok(v) && v@.len() == 0),
            self.spec_size() > 0 ==> (r is Err <==> spec_check_periodic(
                *point,
                self.spec_periodic(),
                *periodic,
            ) is Err),
            r matches Err(e) ==> spec_check_periodic(*point, self.spec_periodic(), *periodic)
                == Err::<(), ErrorKind>(e),
            r matches Ok(v) ==> {
                &&& forall|i: int| 0 <= i < v@.len() ==> (#[trigger] v@[i]).0 <= radius
                &&& self.spec_size() > 0 ==> forall|m: spec_fn([i64; K], [i64; K]) -> i64| #[trigger]
                    models::<F, K>(*distance, m) ==> is_periodic_within(
                        self.entries(),
                        m,
                        self.spec_periodic(),
                        *point,
                        *periodic,
                        radius,
                        found(v@),
                    )
                &&& self.spec_size() > 0 ==> forall|m: spec_fn([i64; K], [i64; K]) -> i64| #[trigger]
                    models::<F, K>(*distance, m) && wraps(
                        m,
                        *periodic,
                        self.spec_periodic(),
                        *point,
                    ) && stored_in_cell(self.entries(), *periodic) ==> wrapped_within(
                        self.entries(),
                        m,
                        *periodic,
                        *point,
                        radius,
                        found(v@),
                    )
                &&& self.spec_size() > 0 ==> forall|m: spec_fn([i64; K], [i64; K]) -> i64| #[trigger]
                    models::<F, K>(*distance, m) ==> found(v@).to_multiset()
                        =~= exactly_within_periodic(*self, m, *point, *periodic, radius)
            },
    {
        if self.size == 0 {
            return Ok(Vec::new());
        }
        match self.check_periodic(point, periodic) {
            Err(e) => Err(e),
            Ok(()) => Ok(self.within_periodic_from(point, radius, distance, periodic, false)),
        }
    }
}

} // verus!
