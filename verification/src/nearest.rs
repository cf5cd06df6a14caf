//! The nearest pairs to a point, and the pairs within a radius of it.

use crate::errors::ErrorKind;
use crate::lemmas::{lemma_empty_multiset, lemma_pop_multiset};
use crate::metric::{
    bounds_from_below, is_metric, lemma_metric_has_model,
    lemma_tree_distance_is_no_more_than_plain, metric_value, models, tree_distance,
};
use crate::scalar::{infinity, zero, INFINITY};
use crate::search::{
    all_bounded, all_fit, all_keys_within, all_plainly_bounded, ascending, beyond,
    bounded_below, descending,
    descent_holds, descent_keeps, found, insert_ascending, lemma_none_nearer_counts,
    lemma_scored_of_both, lemma_scored_of_same_items, lemma_waiting_item_somewhere,
    lemma_waiting_items_pop, lemma_waiting_somewhere, plainly_bounded, scored, visited, waiting,
    waiting_items, waiting_visited, weight,
};
use crate::tree::{spec_check_point, KdTree, Node};
use vstd::multiset::Multiset;
use vstd::prelude::*;

verus! {

/// Whether the pair `x` has no place among the `num` nearest because
/// `kept` is full and holds none that is farther.
pub open spec fn crowded_out<T>(x: (i64, T), kept: Seq<(i64, T)>, num: usize) -> bool {
    kept.len() == num && (num > 0 ==> kept[num - 1].0 <= x.0)
}

/// Whether no pair of `res` lies farther than `x`.
pub open spec fn farther_than_all<T>(x: (i64, T), res: Seq<(i64, T)>) -> bool {
    forall|i: int| 0 <= i < res.len() ==> (#[trigger] res[i]).0 <= x.0
}

/// What the search for the `num` nearest pairs among `all` returns as
/// `res`: the lesser of `num` and the number of pairs, each of them one of
/// `all`, in the order of their distances. Where the search may rely on
/// bounding boxes (`sound`), no pair that it left out lies nearer than one
/// that it returned; and if it was asked for as many pairs as there are, it
/// returns them all.
pub open spec fn is_nearest<T>(all: Seq<(i64, T)>, num: usize, res: Seq<(i64, T)>, sound: bool) -> bool {
    &&& res.len() == if num < all.len() {
        num as int
    } else {
        all.len() as int
    }
    &&& ascending(res)
    &&& res.to_multiset().subset_of(all.to_multiset())
    &&& sound ==> forall|x: (i64, T)|
        all.to_multiset().sub(res.to_multiset()).count(x) > 0 ==> farther_than_all(x, res)
    &&& num >= all.len() ==> res.to_multiset() =~= all.to_multiset()
}

/// What the search for the pairs of `all` within `radius` returns as `res`:
/// pairs of `all`, none of them beyond `radius`, and, where the search may
/// rely on bounding boxes (`sound`), all such pairs.
pub open spec fn is_within<T>(all: Seq<(i64, T)>, radius: i64, res: Seq<(i64, T)>, sound: bool) -> bool {
    &&& res.to_multiset().subset_of(all.to_multiset())
    &&& forall|i: int| 0 <= i < res.len() ==> (#[trigger] res[i]).0 <= radius
    &&& sound ==> res.to_multiset() =~= all.to_multiset().filter(|x: (i64, T)| x.0 <= radius)
}

/// The part of the state of a search that no distance of an unvisited
/// pair enters: the subtrees wait in the order of their bounds, the nearest
/// last, and are well formed; the kept pairs are in the order of their
/// distances, at most `num`, and within `max_dist`; a search without a
/// bound on the distance has skipped no subtree; and each pair that was
/// seen and dropped lies beyond `max_dist` or is crowded out.
pub open spec fn search_fits<T, const K: usize>(
    kept: Seq<(i64, &T)>,
    pending: Seq<(i64, &KdTree<T, K>)>,
    skipped: Seq<([i64; K], T)>,
    dropped: Multiset<(i64, T)>,
    num: usize,
    max_dist: i64,
    periodic: Option<[i64; K]>,
) -> bool {
    &&& all_fit(pending, periodic)
    &&& descending(pending)
    &&& ascending(kept)
    &&& kept.len() <= num
    &&& forall|i: int| 0 <= i < kept.len() ==> (#[trigger] kept[i]).0 <= max_dist
    &&& max_dist == INFINITY ==> skipped.len() == 0
    &&& forall|x: (i64, T)|
        dropped.count(x) > 0 ==> x.0 > max_dist || crowded_out(x, found(kept), num)
}

/// The state of a search among the pairs `all` for those nearest to `q`
/// and within `max_dist`, as the distances of `m` show it. Each pair is
/// kept, waits in a subtree of `pending`, lies in a subtree that was
/// skipped, was seen and dropped, or is at `hand`. The key of each subtree
/// that waits bounds it from below; and where boxes bound distances from
/// below, every skipped pair lies beyond `max_dist`.
pub open spec fn search_holds<T, const K: usize>(
    m: spec_fn([i64; K], [i64; K]) -> i64,
    all: Seq<([i64; K], T)>,
    kept: Seq<(i64, &T)>,
    pending: Seq<(i64, &KdTree<T, K>)>,
    skipped: Seq<([i64; K], T)>,
    dropped: Multiset<(i64, T)>,
    hand: Multiset<(i64, T)>,
    max_dist: i64,
    periodic: Option<[i64; K]>,
    q: [i64; K],
) -> bool {
    &&& all_bounded(pending, m, periodic, q)
    &&& scored(all, m, periodic, q).to_multiset() =~= found(kept).to_multiset().add(
        waiting(pending, m, periodic, q),
    ).add(scored(skipped, m, periodic, q).to_multiset()).add(dropped).add(hand)
    &&& bounds_from_below(m, periodic, q) ==> forall|x: (i64, T)|
        scored(skipped, m, periodic, q).to_multiset().count(x) > 0 ==> x.0 > max_dist
}

/// Whether a stored pair that the tree ranks at the distance `d` from the
/// query point was rightly left behind by a search: it lies beyond
/// `max_dist`, or `kept` is full with `num` pairs, none of them farther.
pub open spec fn left_behind<T>(d: i64, kept: Seq<(i64, &T)>, num: usize, max_dist: i64) -> bool {
    d > max_dist || (kept.len() == num && (num > 0 ==> kept[num - 1].0 <= d))
}

/// The stored pairs of a search, accounted for: each of `all` is the pair
/// behind one that is kept, waits in a subtree of `pending`, lies in a
/// subtree that was skipped, was seen and dropped, or is at `hand`.
pub open spec fn items_fit<T, const K: usize>(
    all: Seq<([i64; K], T)>,
    kept: Seq<(i64, &T)>,
    kept_items: Seq<([i64; K], T)>,
    pending: Seq<(i64, &KdTree<T, K>)>,
    skipped: Seq<([i64; K], T)>,
    dropped_items: Seq<([i64; K], T)>,
    hand: Seq<([i64; K], T)>,
) -> bool {
    &&& kept_items.len() == kept.len()
    &&& all.to_multiset() =~= kept_items.to_multiset().add(
        waiting_items(pending).to_multiset(),
    ).add(skipped.to_multiset()).add(dropped_items.to_multiset()).add(hand.to_multiset())
}

/// What the distances of `m` show of the stored pairs of a search: the
/// kept pairs are the pairs `kept_items` as the query sees them; the key of
/// each subtree that waits is no more than the distance to any of its
/// points, as they stand; where boxes bound such distances from below,
/// each skipped point lies beyond `max_dist`; and each pair that was seen
/// and dropped was rightly left behind.
pub open spec fn items_hold<T, const K: usize>(
    m: spec_fn([i64; K], [i64; K]) -> i64,
    kept: Seq<(i64, &T)>,
    kept_items: Seq<([i64; K], T)>,
    pending: Seq<(i64, &KdTree<T, K>)>,
    skipped: Seq<([i64; K], T)>,
    dropped_items: Seq<([i64; K], T)>,
    num: usize,
    max_dist: i64,
    periodic: Option<[i64; K]>,
    q: [i64; K],
) -> bool {
    &&& scored(kept_items, m, periodic, q) =~= found(kept)
    &&& all_plainly_bounded(pending, m, q)
    &&& bounds_from_below(m, None, q) ==> beyond(skipped, m, q, max_dist)
    &&& forall|i: int|
        0 <= i < dropped_items.len() ==> left_behind(
            tree_distance(m, periodic, q, (#[trigger] dropped_items[i]).0),
            kept,
            num,
            max_dist,
        )
}

/// What a search that looks for nothing beyond `max_dist` has visited, as
/// the distances of `m` show it: the stored pairs that such a search visits
/// beneath `root` are those behind the kept pairs, those that it will visit
/// beneath the subtrees that wait, and those seen and dropped.
pub open spec fn visits_hold<T, const K: usize>(
    m: spec_fn([i64; K], [i64; K]) -> i64,
    root: KdTree<T, K>,
    kept_items: Seq<([i64; K], T)>,
    pending: Seq<(i64, &KdTree<T, K>)>,
    dropped_items: Seq<([i64; K], T)>,
    max_dist: i64,
    q: [i64; K],
) -> bool {
    visited(root, m, q, max_dist).to_multiset() =~= kept_items.to_multiset().add(
        waiting_visited(pending, m, q, max_dist),
    ).add(dropped_items.to_multiset())
}

/// How `res` answers a search for the nearest pairs among `items`, as the
/// distances of `m` show it: `res` is the pairs `chosen` as the query at `q`
/// sees them; these and the pairs `rest` are the stored pairs; and where
/// boxes bound distances from below, no point of `rest`, as it stands, lies
/// nearer to `q` than a pair of `res`. This holds of any tree, periodic or
/// not.
pub open spec fn nearest_among<T, const K: usize>(
    items: Seq<([i64; K], T)>,
    m: spec_fn([i64; K], [i64; K]) -> i64,
    periodic: Option<[i64; K]>,
    q: [i64; K],
    res: Seq<(i64, T)>,
    chosen: Seq<([i64; K], T)>,
    rest: Seq<([i64; K], T)>,
) -> bool {
    &&& (chosen + rest).to_multiset() =~= items.to_multiset()
    &&& scored(chosen, m, periodic, q) =~= res
    &&& bounds_from_below(m, None, q) ==> forall|i: int, j: int|
        0 <= i < rest.len() && 0 <= j < res.len() ==> (#[trigger] res[j]).0 <= m(
            q,
            (#[trigger] rest[i]).0,
        )
}

/// Whether `res` answers a search for the nearest pairs among `items`.
pub open spec fn is_nearest_of<T, const K: usize>(
    items: Seq<([i64; K], T)>,
    m: spec_fn([i64; K], [i64; K]) -> i64,
    periodic: Option<[i64; K]>,
    q: [i64; K],
    res: Seq<(i64, T)>,
) -> bool {
    exists|chosen: Seq<([i64; K], T)>, rest: Seq<([i64; K], T)>| #[trigger]
        nearest_among(items, m, periodic, q, res, chosen, rest)
}

/// How `res` answers a search for the pairs of `items` within `radius`, as
/// the distances of `m` show it: `res` is the pairs `chosen` as the query at
/// `q` sees them; these and the pairs `rest` are the stored pairs; and where
/// boxes bound distances from below, every point of `rest`, as it stands,
/// lies beyond `radius`. This holds of any tree, periodic or not.
pub open spec fn within_among<T, const K: usize>(
    items: Seq<([i64; K], T)>,
    m: spec_fn([i64; K], [i64; K]) -> i64,
    periodic: Option<[i64; K]>,
    q: [i64; K],
    radius: i64,
    res: Seq<(i64, T)>,
    chosen: Seq<([i64; K], T)>,
    rest: Seq<([i64; K], T)>,
) -> bool {
    &&& (chosen + rest).to_multiset() =~= items.to_multiset()
    &&& scored(chosen, m, periodic, q) =~= res
    &&& bounds_from_below(m, None, q) ==> beyond(rest, m, q, radius)
}

/// Whether `res` answers a search for the pairs of `items` within `radius`.
pub open spec fn is_within_of<T, const K: usize>(
    items: Seq<([i64; K], T)>,
    m: spec_fn([i64; K], [i64; K]) -> i64,
    periodic: Option<[i64; K]>,
    q: [i64; K],
    radius: i64,
    res: Seq<(i64, T)>,
) -> bool {
    exists|chosen: Seq<([i64; K], T)>, rest: Seq<([i64; K], T)>| #[trigger]
        within_among(items, m, periodic, q, radius, res, chosen, rest)
}

/// The stored pairs beneath `tree` that a search from `q` for the pairs
/// within `radius` visits: none for a radius below zero.
pub open spec fn within_reach<T, const K: usize>(
    tree: KdTree<T, K>,
    m: spec_fn([i64; K], [i64; K]) -> i64,
    q: [i64; K],
    radius: i64,
) -> Seq<([i64; K], T)> {
    if radius < 0 {
        Seq::empty()
    } else {
        visited(tree, m, q, radius)
    }
}

/// What a search from `q` for the pairs of `tree` within `radius` returns,
/// in whatever order: of the stored pairs that it visits, as the query sees
/// them, those within `radius`.
pub open spec fn exactly_within<T, const K: usize>(
    tree: KdTree<T, K>,
    m: spec_fn([i64; K], [i64; K]) -> i64,
    q: [i64; K],
    radius: i64,
) -> Multiset<(i64, T)> {
    scored(within_reach(tree, m, q, radius), m, tree.spec_periodic(), q).to_multiset().filter(
        |x: (i64, T)| x.0 <= radius,
    )
}

/// The pairs of a sequence from place `i` on are the pair at `i` and those
/// from `i + 1` on.
pub proof fn lemma_skip_multiset<E>(s: Seq<E>, i: int)
    requires
        0 <= i < s.len(),
    ensures
        s.skip(i).to_multiset() =~= s.skip(i + 1).to_multiset().insert(s[i]),
{
    broadcast use vstd::multiset::group_multiset_axioms;

    let from = s.skip(i);
    assert(from.remove(0) =~= s.skip(i + 1));
    vstd::seq_lib::to_multiset_remove(from, 0);
    from.to_multiset_ensures();
    assert(from[0] == s[i]);
    assert(from.contains(from[0]));
}

impl<T, const K: usize> KdTree<T, K> {
    /// The distance from a query point to a stored point, as this tree
    /// measures it.
    pub(crate) fn get_distance<F>(&self, a: &[i64; K], b: &[i64; K], distance: &F) -> (r: i64) where
        F: Fn(&[i64; K], &[i64; K]) -> i64,

        requires
            is_metric::<F, K>(*distance),
        ensures
            forall|m: spec_fn([i64; K], [i64; K]) -> i64| #[trigger]
                models::<F, K>(*distance, m) ==> r == tree_distance(m, self.periodic, *a, *b),
    {
        crate::metric::get_distance(a, b, distance, self.periodic)
    }

    /// One step of a search: takes the subtree with the nearest bounding
    /// box out of `pending`, walks down to a leaf of it, and offers each
    /// pair of that leaf to `evaluated`. A pair beyond `max_dist` is
    /// dropped; so is one that finds `evaluated` full with `num` pairs, none
    /// of them farther, and otherwise the farthest is dropped to make room.
    #[verifier::rlimit(100)]
    pub(crate) fn nearest_step<'b, F>(
        &self,
        point: &[i64; K],
        num: usize,
        max_dist: i64,
        distance: &F,
        pending: &mut Vec<(i64, &'b KdTree<T, K>)>,
        evaluated: &mut Vec<(i64, &'b T)>,
        Ghost(all): Ghost<Seq<([i64; K], T)>>,
        Ghost(skipped): Ghost<Seq<([i64; K], T)>>,
        Ghost(dropped): Ghost<Multiset<(i64, T)>>,
        Ghost(kept_items): Ghost<Seq<([i64; K], T)>>,
        Ghost(dropped_items): Ghost<Seq<([i64; K], T)>>,
    ) -> (r: (
        Ghost<Seq<([i64; K], T)>>,
        Ghost<Multiset<(i64, T)>>,
        Ghost<Seq<([i64; K], T)>>,
        Ghost<Seq<([i64; K], T)>>,
    )) where F: Fn(&[i64; K], &[i64; K]) -> i64
        requires
            is_metric::<F, K>(*distance),
            old(pending)@.len() > 0,
            items_fit(
                all,
                old(evaluated)@,
                kept_items,
                old(pending)@,
                skipped,
                dropped_items,
                Seq::empty(),
            ),
            forall|m: spec_fn([i64; K], [i64; K]) -> i64| #[trigger]
                models::<F, K>(*distance, m) ==> items_hold(
                    m,
                    old(evaluated)@,
                    kept_items,
                    old(pending)@,
                    skipped,
                    dropped_items,
                    num,
                    max_dist,
                    self.periodic,
                    *point,
                ) && visits_hold(
                    m,
                    *self,
                    kept_items,
                    old(pending)@,
                    dropped_items,
                    max_dist,
                    *point,
                ),
            search_fits(
                old(evaluated)@,
                old(pending)@,
                skipped,
                dropped,
                num,
                max_dist,
                self.periodic,
            ),
            forall|m: spec_fn([i64; K], [i64; K]) -> i64| #[trigger]
                models::<F, K>(*distance, m) ==> search_holds(
                    m,
                    all,
                    old(evaluated)@,
                    old(pending)@,
                    skipped,
                    dropped,
                    Multiset::empty(),
                    max_dist,
                    self.periodic,
                    *point,
                ),
        ensures
            search_fits(
                final(evaluated)@,
                final(pending)@,
                r.0@,
                r.1@,
                num,
                max_dist,
                self.periodic,
            ),
            forall|m: spec_fn([i64; K], [i64; K]) -> i64| #[trigger]
                models::<F, K>(*distance, m) ==> search_holds(
                    m,
                    all,
                    final(evaluated)@,
                    final(pending)@,
                    r.0@,
                    r.1@,
                    Multiset::empty(),
                    max_dist,
                    self.periodic,
                    *point,
                ),
            weight(final(pending)@) < weight(old(pending)@),
            all_keys_within(old(pending)@, max_dist) ==> all_keys_within(
                final(pending)@,
                max_dist,
            ),
            items_fit(
                all,
                final(evaluated)@,
                r.2@,
                final(pending)@,
                r.0@,
                r.3@,
                Seq::empty(),
            ),
            forall|m: spec_fn([i64; K], [i64; K]) -> i64| #[trigger]
                models::<F, K>(*distance, m) ==> items_hold(
                    m,
                    final(evaluated)@,
                    r.2@,
                    final(pending)@,
                    r.0@,
                    r.3@,
                    num,
                    max_dist,
                    self.periodic,
                    *point,
                ) && visits_hold(m, *self, r.2@, final(pending)@, r.3@, max_dist, *point),
    {
        broadcast use vstd::multiset::group_multiset_axioms;

        let ghost periodic = self.periodic;
        let ghost at_start = pending@;
        let top = pending.pop().unwrap();
        let curr: &'b KdTree<T, K> = top.1;
        let ghost popped = pending@;
        proof {
            lemma_waiting_items_pop(at_start);
            lemma_empty_multiset(Seq::<([i64; K], T)>::empty());
            assert(popped =~= at_start.drop_last());
            if all_keys_within(at_start, max_dist) {
                assert forall|j: int| 0 <= j < popped.len() implies (#[trigger] popped[j]).0
                    <= max_dist by {
                    assert(popped[j] == at_start[j]);
                }
            }
            assert(at_start[at_start.len() - 1].1.wf());
            assert forall|j: int| 0 <= j < popped.len() implies (#[trigger] popped[j]).1.wf()
                && popped[j].1.spec_periodic() == periodic by {
                assert(popped[j] == at_start[j]);
            }
        }
        let (leaf, Ghost(newly)) = Self::populate_pending(
            point,
            max_dist,
            distance,
            pending,
            curr,
            true,
        );
        let ghost passed = skipped + newly;
        let ghost mut gone = dropped;
        let ghost mut held = kept_items;
        let ghost mut gone_items = dropped_items;
        let ghost mut grew = false;
        let ghost items = leaf.entries();
        let ghost waits = pending@;
        proof {
            leaf.lemma_size_and_bounds();
            vstd::seq_lib::lemma_multiset_commutative(skipped, newly);
            assert(items.skip(0) =~= items);
            assert(all.to_multiset() =~= kept_items.to_multiset().add(
                waiting_items(waits).to_multiset(),
            ).add(passed.to_multiset()).add(dropped_items.to_multiset()).add(items.to_multiset()));
            assert forall|m: spec_fn([i64; K], [i64; K]) -> i64| #[trigger]
                models::<F, K>(*distance, m) implies items_hold(
                m,
                evaluated@,
                held,
                waits,
                passed,
                gone_items,
                num,
                max_dist,
                periodic,
                *point,
            ) by {
                assert(items_hold(
                    m,
                    evaluated@,
                    kept_items,
                    at_start,
                    skipped,
                    dropped_items,
                    num,
                    max_dist,
                    periodic,
                    *point,
                ));
                assert(descent_keeps(m, popped, waits, newly, max_dist, *point));
                assert(all_plainly_bounded(popped, m, *point)) by {
                    assert forall|j: int| 0 <= j < popped.len() implies plainly_bounded(
                        #[trigger] popped[j],
                        m,
                        *point,
                    ) by {
                        assert(popped[j] == at_start[j]);
                    }
                }
                if bounds_from_below(m, None, *point) {
                    assert forall|i: int| 0 <= i < passed.len() implies m(
                        *point,
                        (#[trigger] passed[i]).0,
                    ) > max_dist by {
                        if i < skipped.len() {
                            assert(passed[i] == skipped[i]);
                        } else {
                            assert(passed[i] == newly[i - skipped.len()]);
                        }
                    }
                }
            }
            assert forall|m: spec_fn([i64; K], [i64; K]) -> i64| #[trigger]
                models::<F, K>(*distance, m) implies search_holds(
                m,
                all,
                evaluated@,
                waits,
                passed,
                gone,
                scored(items, m, periodic, *point).skip(0).to_multiset(),
                max_dist,
                periodic,
                *point,
            ) by {
                assert(search_holds(
                    m,
                    all,
                    evaluated@,
                    at_start,
                    skipped,
                    dropped,
                    Multiset::empty(),
                    max_dist,
                    periodic,
                    *point,
                ));
                assert(descent_holds(
                    m,
                    popped,
                    waits,
                    curr,
                    leaf,
                    newly,
                    max_dist,
                    periodic,
                    *point,
                ));
                assert(all_bounded(popped, m, periodic, *point)) by {
                    assert forall|j: int| 0 <= j < popped.len() implies bounded_below(
                        #[trigger] popped[j],
                        m,
                        periodic,
                        *point,
                    ) by {
                        assert(popped[j] == at_start[j]);
                    }
                }
                crate::search::lemma_scored_of_both(skipped, newly, m, periodic, *point);
                assert(scored(items, m, periodic, *point).skip(0) =~= scored(
                    items,
                    m,
                    periodic,
                    *point,
                ));
            }
        }
        match &leaf.content {
            Node::Leaf { points, bucket, .. } => {
                let mut i: usize = 0;
                while i < points.len()
                    invariant
                        0 <= i <= points@.len(),
                        points@.len() == bucket@.len(),
                        items.len() == points@.len(),
                        leaf.content == (Node::Leaf {
                            points: *points,
                            bucket: *bucket,
                            capacity: leaf.content->Leaf_capacity,
                        }),
                        items == leaf.entries(),
                        periodic == self.periodic,
                        waits == pending@,
                        is_metric::<F, K>(*distance),
                        search_fits(evaluated@, waits, passed, gone, num, max_dist, periodic),
                        items_fit(
                            all,
                            evaluated@,
                            held,
                            waits,
                            passed,
                            gone_items,
                            items.skip(i as int),
                        ),
                        forall|m: spec_fn([i64; K], [i64; K]) -> i64| #[trigger]
                            models::<F, K>(*distance, m) ==> items_hold(
                                m,
                                evaluated@,
                                held,
                                waits,
                                passed,
                                gone_items,
                                num,
                                max_dist,
                                periodic,
                                *point,
                            ),
                        forall|m: spec_fn([i64; K], [i64; K]) -> i64| #[trigger]
                            models::<F, K>(*distance, m) ==> search_holds(
                                m,
                                all,
                                evaluated@,
                                waits,
                                passed,
                                gone,
                                scored(items, m, periodic, *point).skip(i as int).to_multiset(),
                                max_dist,
                                periodic,
                                *point,
                            ),
                    decreases points@.len() - i,
                {
                    let d = self.get_distance(point, &points[i], distance);
                    let payload: &'b T = &bucket[i];
                    let ghost x = (d, *payload);
                    let ghost kept_before = evaluated@;
                    let ghost gone_before = gone;
                    let ghost held_before = held;
                    let ghost gone_items_before = gone_items;
                    let ghost item = (points@[i as int], *payload);
                    let ghost took = 0int;
                    let ghost place = 0int;
                    assert(items[i as int] == item);
                    proof {
                        lemma_skip_multiset(items, i as int);
                    }
                    if d <= max_dist && evaluated.len() < num {
                        let at = insert_ascending(evaluated, d, payload);
                        proof {
                            took = 1;
                            place = at as int;
                            held = held_before.insert(at as int, item);
                            vstd::seq_lib::to_multiset_insert(held_before, at as int, item);
                            held_before.insert_ensures(at as int, item);
                            kept_before.insert_ensures(at as int, (d, payload));
                            assert(found(evaluated@) =~= found(kept_before).insert(at as int, x));
                            vstd::seq_lib::to_multiset_insert(found(kept_before), at as int, x);
                            assert forall|j: int| 0 <= j < evaluated@.len() implies (
                            #[trigger] evaluated@[j]).0 <= max_dist by {
                                if j < at {
                                    assert(evaluated@[j] == kept_before[j]);
                                } else if j > at {
                                    assert(evaluated@[j] == kept_before[j - 1]);
                                }
                            }
                            assert forall|z: (i64, T)| gone.count(z) > 0 implies z.0 > max_dist
                                || crowded_out(z, found(evaluated@), num) by {
                                if !(z.0 > max_dist) {
                                    assert(crowded_out(z, found(kept_before), num));
                                }
                            }
                        }
                    } else if d <= max_dist && num > 0 && d < evaluated[num - 1].0 {
                        let out = evaluated.pop().unwrap();
                        let ghost shorter = evaluated@;
                        let at = insert_ascending(evaluated, d, payload);
                        proof {
                            took = 2;
                            place = at as int;
                            let fewer = held_before.drop_last();
                            held = fewer.insert(at as int, item);
                            gone_items = gone_items_before.push(held_before.last());
                            lemma_pop_multiset(held_before);
                            vstd::seq_lib::to_multiset_insert(fewer, at as int, item);
                            vstd::seq_lib::to_multiset_build(gone_items_before, held_before.last());
                            fewer.insert_ensures(at as int, item);
                            let y = (out.0, *out.1);
                            gone = gone.insert(y);
                            assert(shorter =~= kept_before.drop_last());
                            lemma_pop_multiset(found(kept_before));
                            assert(found(kept_before).drop_last() =~= found(shorter));
                            assert(found(kept_before).last() == y);
                            shorter.insert_ensures(at as int, (d, payload));
                            assert(found(evaluated@) =~= found(shorter).insert(at as int, x));
                            vstd::seq_lib::to_multiset_insert(found(shorter), at as int, x);
                            assert forall|j: int| 0 <= j < evaluated@.len() implies (
                            #[trigger] evaluated@[j]).0 <= max_dist by {
                                if j < at {
                                    assert(evaluated@[j] == shorter[j]);
                                    assert(shorter[j] == kept_before[j]);
                                } else if j > at {
                                    assert(evaluated@[j] == shorter[j - 1]);
                                    assert(shorter[j - 1] == kept_before[j - 1]);
                                }
                            }
                            let last = evaluated@[num - 1];
                            assert(last.0 <= y.0) by {
                                if at == num - 1 {
                                } else {
                                    assert(evaluated@[num - 1] == shorter[num - 2]);
                                    assert(shorter[num - 2] == kept_before[num - 2]);
                                    assert(kept_before[num - 2].0 <= kept_before[num - 1].0);
                                }
                            }
                            assert(found(evaluated@)[num - 1].0 == last.0);
                            assert(found(kept_before)[num - 1].0 == y.0);
                            assert forall|z: (i64, T)| gone.count(z) > 0 implies z.0 > max_dist
                                || crowded_out(z, found(evaluated@), num) by {
                                if gone_before.count(z) > 0 {
                                    if !(z.0 > max_dist) {
                                        assert(crowded_out(z, found(kept_before), num));
                                    }
                                } else {
                                    assert(z == y);
                                }
                            }
                        }
                    } else {
                        proof {
                            gone_items = gone_items_before.push(item);
                            vstd::seq_lib::to_multiset_build(gone_items_before, item);
                            gone = gone.insert(x);
                            if d <= max_dist {
                                if num > 0 {
                                    assert(found(evaluated@)[num - 1].0 == evaluated@[num - 1].0);
                                }
                                assert(crowded_out(x, found(evaluated@), num));
                            }
                            assert forall|z: (i64, T)| gone.count(z) > 0 implies z.0 > max_dist
                                || crowded_out(z, found(evaluated@), num) by {
                                if gone_before.count(z) > 0 {
                                } else {
                                    assert(z == x);
                                }
                            }
                        }
                    }
                    proof {
                        assert forall|m: spec_fn([i64; K], [i64; K]) -> i64| #[trigger]
                            models::<F, K>(*distance, m) implies search_holds(
                            m,
                            all,
                            evaluated@,
                            waits,
                            passed,
                            gone,
                            scored(items, m, periodic, *point).skip(i + 1).to_multiset(),
                            max_dist,
                            periodic,
                            *point,
                        ) by {
                            let theirs = scored(items, m, periodic, *point);
                            assert(search_holds(
                                m,
                                all,
                                kept_before,
                                waits,
                                passed,
                                gone_before,
                                theirs.skip(i as int).to_multiset(),
                                max_dist,
                                periodic,
                                *point,
                            ));
                            lemma_skip_multiset(theirs, i as int);
                            assert(theirs[i as int] == x);
                        }
                        assert forall|m: spec_fn([i64; K], [i64; K]) -> i64| #[trigger]
                            models::<F, K>(*distance, m) implies items_hold(
                            m,
                            evaluated@,
                            held,
                            waits,
                            passed,
                            gone_items,
                            num,
                            max_dist,
                            periodic,
                            *point,
                        ) by {
                            assert(items_hold(
                                m,
                                kept_before,
                                held_before,
                                waits,
                                passed,
                                gone_items_before,
                                num,
                                max_dist,
                                periodic,
                                *point,
                            ));
                            let seen = scored(held_before, m, periodic, *point);
                            assert(d == tree_distance(m, periodic, *point, item.0));
                            if took == 1 {
                                assert forall|j: int| 0 <= j < held.len() implies scored(
                                    held,
                                    m,
                                    periodic,
                                    *point,
                                )[j] == found(evaluated@)[j] by {
                                    if j < place {
                                        assert(seen[j] == found(kept_before)[j]);
                                        assert(evaluated@[j] == kept_before[j]);
                                    } else if j > place {
                                        assert(seen[j - 1] == found(kept_before)[j - 1]);
                                        assert(evaluated@[j] == kept_before[j - 1]);
                                    }
                                }
                                assert forall|j: int|
                                    0 <= j < gone_items.len() implies left_behind(
                                    tree_distance(m, periodic, *point, (#[trigger] gone_items[j]).0),
                                    evaluated@,
                                    num,
                                    max_dist,
                                ) by {
                                    assert(left_behind(
                                        tree_distance(m, periodic, *point, gone_items_before[j].0),
                                        kept_before,
                                        num,
                                        max_dist,
                                    ));
                                }
                            } else if took == 2 {
                                let last = (num - 1) as int;
                                let fewer = held_before.drop_last();
                                let shorter = kept_before.drop_last();
                                assert(seen[last] == found(kept_before)[last]);
                                assert forall|j: int| 0 <= j < held.len() implies scored(
                                    held,
                                    m,
                                    periodic,
                                    *point,
                                )[j] == found(evaluated@)[j] by {
                                    if j < place {
                                        assert(seen[j] == found(kept_before)[j]);
                                        assert(evaluated@[j] == shorter[j]);
                                    } else if j > place {
                                        assert(seen[j - 1] == found(kept_before)[j - 1]);
                                        assert(evaluated@[j] == shorter[j - 1]);
                                    }
                                }
                                assert(evaluated@[last].0 <= kept_before[last].0);
                                assert forall|j: int|
                                    0 <= j < gone_items.len() implies left_behind(
                                    tree_distance(m, periodic, *point, (#[trigger] gone_items[j]).0),
                                    evaluated@,
                                    num,
                                    max_dist,
                                ) by {
                                    if j < gone_items_before.len() {
                                        assert(left_behind(
                                            tree_distance(m, periodic, *point, gone_items_before[j].0),
                                            kept_before,
                                            num,
                                            max_dist,
                                        ));
                                    }
                                }
                            } else {
                                assert forall|j: int|
                                    0 <= j < gone_items.len() implies left_behind(
                                    tree_distance(m, periodic, *point, (#[trigger] gone_items[j]).0),
                                    evaluated@,
                                    num,
                                    max_dist,
                                ) by {
                                    if j < gone_items_before.len() {
                                        assert(left_behind(
                                            tree_distance(m, periodic, *point, gone_items_before[j].0),
                                            kept_before,
                                            num,
                                            max_dist,
                                        ));
                                    }
                                }
                            }
                        }
                    }
                    i += 1;
                }
                proof {
                    assert forall|m: spec_fn([i64; K], [i64; K]) -> i64| #[trigger]
                        models::<F, K>(*distance, m) implies search_holds(
                        m,
                        all,
                        evaluated@,
                        waits,
                        passed,
                        gone,
                        Multiset::empty(),
                        max_dist,
                        periodic,
                        *point,
                    ) by {
                        lemma_empty_multiset(scored(items, m, periodic, *point).skip(i as int));
                    }
                    lemma_empty_multiset(items.skip(i as int));
                    assert(items_fit(
                        all,
                        evaluated@,
                        held,
                        waits,
                        passed,
                        gone_items,
                        items.skip(i as int),
                    ));
                    assert forall|v: ([i64; K], T)|
                        held.to_multiset().count(v) + gone_items.to_multiset().count(v)
                            == kept_items.to_multiset().count(v) + dropped_items.to_multiset().count(
                            v,
                        ) + items.to_multiset().count(v) by {
                        assert(all.to_multiset().count(v) == kept_items.to_multiset().add(
                            waiting_items(waits).to_multiset(),
                        ).add(passed.to_multiset()).add(dropped_items.to_multiset()).add(
                            items.to_multiset(),
                        ).count(v));
                        assert(all.to_multiset().count(v) == held.to_multiset().add(
                            waiting_items(waits).to_multiset(),
                        ).add(passed.to_multiset()).add(gone_items.to_multiset()).add(
                            items.skip(i as int).to_multiset(),
                        ).count(v));
                    }
                    grew = held.to_multiset().add(gone_items.to_multiset())
                        =~= kept_items.to_multiset().add(dropped_items.to_multiset()).add(
                        items.to_multiset(),
                    );
                    assert(grew);
                }
            },
            Node::Stem { .. } => {},
        }
        proof {
            lemma_empty_multiset(items.skip(items.len() as int));
            assert(Seq::<([i64; K], T)>::empty() =~= items.skip(items.len() as int));
            assert(grew);
            assert forall|m: spec_fn([i64; K], [i64; K]) -> i64| #[trigger]
                models::<F, K>(*distance, m) implies visits_hold(
                m,
                *self,
                held,
                waits,
                gone_items,
                max_dist,
                *point,
            ) by {
                assert(visits_hold(
                    m,
                    *self,
                    kept_items,
                    at_start,
                    dropped_items,
                    max_dist,
                    *point,
                ));
                assert(waiting_visited(at_start, m, *point, max_dist) =~= waiting_visited(
                    popped,
                    m,
                    *point,
                    max_dist,
                ).add(visited(*curr, m, *point, max_dist).to_multiset()));
            }
        }
        (Ghost(passed), Ghost(gone), Ghost(held), Ghost(gone_items))
    }

    /// A search that has not begun, in stored pairs: every pair of the tree
    /// waits, and the bound zero is no more than the distance to any.
    pub(crate) proof fn lemma_items_begin(
        &self,
        pending: Seq<(i64, &KdTree<T, K>)>,
        kept: Seq<(i64, &T)>,
        m: spec_fn([i64; K], [i64; K]) -> i64,
        num: usize,
        max_dist: i64,
        q: [i64; K],
    )
        requires
            pending.len() == 1,
            pending[0] == (0i64, self),
            kept.len() == 0,
        ensures
            items_fit(
                self.entries(),
                kept,
                Seq::empty(),
                pending,
                Seq::empty(),
                Seq::empty(),
                Seq::empty(),
            ),
            items_hold(
                m,
                kept,
                Seq::empty(),
                pending,
                Seq::empty(),
                Seq::empty(),
                num,
                max_dist,
                self.periodic,
                q,
            ),
            visits_hold(m, *self, Seq::empty(), pending, Seq::empty(), max_dist, q),
    {
        broadcast use vstd::multiset::group_multiset_axioms;

        let none = Seq::<([i64; K], T)>::empty();
        assert(waiting_visited(pending.drop_last(), m, q, max_dist) =~= Multiset::<
            ([i64; K], T),
        >::empty()) by {
            assert(pending.drop_last().len() == 0);
        }
        assert(pending.drop_last() =~= Seq::<(i64, &KdTree<T, K>)>::empty());
        assert(waiting_items(pending.drop_last()) =~= none);
        assert(waiting_items(pending) =~= self.entries());
        lemma_empty_multiset(none);
        assert(scored(none, m, self.periodic, q) =~= found(kept));
        if bounds_from_below(m, None, q) {
            assert forall|i: int| 0 <= i < self.entries().len() implies 0 <= m(
                q,
                (#[trigger] self.entries()[i]).0,
            ) by {
                assert(tree_distance(m, None, q, self.entries()[i].0) == m(q, self.entries()[i].0));
            }
        }
        assert(plainly_bounded(pending[0], m, q));
    }

    /// A search that has not begun: nothing kept, skipped or dropped, and
    /// the whole tree waiting with the bound zero.
    pub(crate) proof fn lemma_search_begins(
        &self,
        pending: Seq<(i64, &KdTree<T, K>)>,
        m: spec_fn([i64; K], [i64; K]) -> i64,
        max_dist: i64,
        q: [i64; K],
    )
        requires
            self.wf(),
            pending.len() == 1,
            pending[0] == (0i64, self),
        ensures
            all_fit(pending, self.periodic),
            descending(pending),
            search_holds(
                m,
                self.entries(),
                Seq::<(i64, &T)>::empty(),
                pending,
                Seq::<([i64; K], T)>::empty(),
                Multiset::<(i64, T)>::empty(),
                Multiset::<(i64, T)>::empty(),
                max_dist,
                self.periodic,
                q,
            ),
    {
        broadcast use vstd::multiset::group_multiset_axioms;

        let all = scored(self.entries(), m, self.periodic, q);
        assert(pending.drop_last() =~= Seq::<(i64, &KdTree<T, K>)>::empty());
        assert(waiting(pending.drop_last(), m, self.periodic, q) =~= Multiset::<
            (i64, T),
        >::empty());
        assert(waiting(pending, m, self.periodic, q) =~= all.to_multiset());
        lemma_empty_multiset(found(Seq::<(i64, &T)>::empty()));
        lemma_empty_multiset(scored(Seq::<([i64; K], T)>::empty(), m, self.periodic, q));
        if bounds_from_below(m, self.periodic, q) {
            assert forall|i: int| 0 <= i < all.len() implies 0 <= (#[trigger] all[i]).0 by {
                assert(all[i].0 == tree_distance(m, self.periodic, q, self.entries()[i].0));
            }
        }
        assert(bounded_below(pending[0], m, self.periodic, q));
    }

    /// Finds the `num` pairs nearest to `point`, or all pairs if the tree
    /// holds fewer, nearest first, without checking the point.
    pub(crate) fn nearest_from<F>(&self, point: &[i64; K], num: usize, distance: &F) -> (r: Vec<
        (i64, &T),
    >) where F: Fn(&[i64; K], &[i64; K]) -> i64
        requires
            self.wf(),
            is_metric::<F, K>(*distance),
        ensures
            r@.len() == if num < self.size {
                num
            } else {
                self.size
            },
            ascending(r@),
            forall|m: spec_fn([i64; K], [i64; K]) -> i64| #[trigger]
                models::<F, K>(*distance, m) ==> is_nearest(
                    scored(self.entries(), m, self.periodic, *point),
                    num,
                    found(r@),
                    bounds_from_below(m, self.periodic, *point),
                ) && is_nearest_of(self.entries(), m, self.periodic, *point, found(r@)),
    {
        broadcast use vstd::multiset::group_multiset_axioms;

        let ghost all = self.entries();
        let ghost asked = num;
        proof {
            self.lemma_size_and_bounds();
        }
        let num = if num < self.size {
            num
        } else {
            self.size
        };
        let mut evaluated: Vec<(i64, &T)> = Vec::new();
        if num == 0 {
            proof {
                lemma_empty_multiset(found(evaluated@));
                assert forall|m: spec_fn([i64; K], [i64; K]) -> i64| #[trigger]
                    models::<F, K>(*distance, m) implies is_nearest(
                    scored(all, m, self.periodic, *point),
                    asked,
                    found(evaluated@),
                    bounds_from_below(m, self.periodic, *point),
                ) && is_nearest_of(all, m, self.periodic, *point, found(evaluated@)) by {
                    if asked >= all.len() {
                        lemma_empty_multiset(scored(all, m, self.periodic, *point));
                    }
                    let none = Seq::<([i64; K], T)>::empty();
                    assert(none + all =~= all);
                    assert(scored(none, m, self.periodic, *point) =~= found(evaluated@));
                    assert(nearest_among(
                        all,
                        m,
                        self.periodic,
                        *point,
                        found(evaluated@),
                        none,
                        all,
                    ));
                }
            }
            return evaluated;
        }
        let mut pending: Vec<(i64, &KdTree<T, K>)> = Vec::new();
        pending.push((zero(), self));
        let ghost mut skipped: Seq<([i64; K], T)> = Seq::empty();
        let ghost mut dropped: Multiset<(i64, T)> = Multiset::empty();
        let ghost mut kept_items: Seq<([i64; K], T)> = Seq::empty();
        let ghost mut dropped_items: Seq<([i64; K], T)> = Seq::empty();
        proof {
            self.lemma_items_begin(
                pending@,
                evaluated@,
                metric_value::<F, K>(*distance),
                num,
                INFINITY,
                *point,
            );
            assert forall|m: spec_fn([i64; K], [i64; K]) -> i64| #[trigger]
                models::<F, K>(*distance, m) implies items_hold(
                m,
                evaluated@,
                kept_items,
                pending@,
                skipped,
                dropped_items,
                num,
                INFINITY,
                self.periodic,
                *point,
            ) && visits_hold(
                m,
                *self,
                kept_items,
                pending@,
                dropped_items,
                INFINITY,
                *point,
            ) by {
                self.lemma_items_begin(pending@, evaluated@, m, num, INFINITY, *point);
            }
            self.lemma_search_begins(pending@, metric_value::<F, K>(*distance), INFINITY, *point);
            assert forall|m: spec_fn([i64; K], [i64; K]) -> i64| #[trigger]
                models::<F, K>(*distance, m) implies search_holds(
                m,
                all,
                evaluated@,
                pending@,
                skipped,
                dropped,
                Multiset::empty(),
                INFINITY,
                self.periodic,
                *point,
            ) by {
                self.lemma_search_begins(pending@, m, INFINITY, *point);
            }
        }
        while pending.len() > 0 && (evaluated.len() < num || pending[pending.len() - 1].0
            <= evaluated[evaluated.len() - 1].0)
            invariant
                is_metric::<F, K>(*distance),
                num >= 1,
                search_fits(evaluated@, pending@, skipped, dropped, num, INFINITY, self.periodic),
                items_fit(
                    all,
                    evaluated@,
                    kept_items,
                    pending@,
                    skipped,
                    dropped_items,
                    Seq::empty(),
                ),
                forall|m: spec_fn([i64; K], [i64; K]) -> i64| #[trigger]
                    models::<F, K>(*distance, m) ==> items_hold(
                        m,
                        evaluated@,
                        kept_items,
                        pending@,
                        skipped,
                        dropped_items,
                        num,
                        INFINITY,
                        self.periodic,
                        *point,
                    ) && visits_hold(
                        m,
                        *self,
                        kept_items,
                        pending@,
                        dropped_items,
                        INFINITY,
                        *point,
                    ),
                forall|m: spec_fn([i64; K], [i64; K]) -> i64| #[trigger]
                    models::<F, K>(*distance, m) ==> search_holds(
                        m,
                        all,
                        evaluated@,
                        pending@,
                        skipped,
                        dropped,
                        Multiset::empty(),
                        INFINITY,
                        self.periodic,
                        *point,
                    ),
            decreases weight(pending@),
        {
            let (
                Ghost(next_skipped),
                Ghost(next_dropped),
                Ghost(next_kept_items),
                Ghost(next_dropped_items),
            ) = self.nearest_step(
                point,
                num,
                infinity(),
                distance,
                &mut pending,
                &mut evaluated,
                Ghost(all),
                Ghost(skipped),
                Ghost(dropped),
                Ghost(kept_items),
                Ghost(dropped_items),
            );
            proof {
                skipped = next_skipped;
                dropped = next_dropped;
                kept_items = next_kept_items;
                dropped_items = next_dropped_items;
            }
        }
        proof {
            let kept = found(evaluated@);
            kept.to_multiset_ensures();
            assert(skipped =~= Seq::<([i64; K], T)>::empty());
            let last = kept[num - 1];
            let own = metric_value::<F, K>(*distance);
            lemma_metric_has_model::<F, K>(*distance);
            assert(kept.len() == num) by {
                let rest = waiting(pending@, own, self.periodic, *point);
                let total = scored(all, own, self.periodic, *point);
                total.to_multiset_ensures();
                assert(search_holds(
                    own,
                    all,
                    evaluated@,
                    pending@,
                    skipped,
                    dropped,
                    Multiset::empty(),
                    INFINITY,
                    self.periodic,
                    *point,
                ));
                lemma_empty_multiset(scored(skipped, own, self.periodic, *point));
                assert(total.to_multiset().len() == kept.to_multiset().len() + rest.len()
                    + dropped.len());
                if pending@.len() == 0 {
                    assert(rest =~= Multiset::<(i64, T)>::empty());
                }
                if dropped.len() > 0 {
                    let x = dropped.choose();
                    assert(dropped.count(x) > 0);
                    assert(crowded_out(x, kept, num));
                }
            }
            let rest = waiting_items(pending@) + dropped_items;
            vstd::seq_lib::lemma_multiset_commutative(waiting_items(pending@), dropped_items);
            vstd::seq_lib::lemma_multiset_commutative(kept_items, rest);
            lemma_empty_multiset(skipped);
            lemma_empty_multiset(Seq::<([i64; K], T)>::empty());
            assert forall|m: spec_fn([i64; K], [i64; K]) -> i64| #[trigger]
                models::<F, K>(*distance, m) implies is_nearest_of(
                all,
                m,
                self.periodic,
                *point,
                kept,
            ) by {
                assert(items_hold(
                    m,
                    evaluated@,
                    kept_items,
                    pending@,
                    skipped,
                    dropped_items,
                    num,
                    INFINITY,
                    self.periodic,
                    *point,
                ));
                if bounds_from_below(m, None, *point) {
                    assert forall|i: int, j: int|
                        0 <= i < rest.len() && 0 <= j < kept.len() implies (#[trigger] kept[j]).0
                        <= m(*point, (#[trigger] rest[i]).0) by {
                        assert(evaluated@[j].0 <= evaluated@[num - 1].0);
                        if i < waiting_items(pending@).len() {
                            let w = lemma_waiting_item_somewhere(pending@, i);
                            assert(plainly_bounded(pending@[w.0], m, *point));
                            assert(pending@[w.0].0 >= pending@[pending@.len() - 1].0);
                        } else {
                            let k = i - waiting_items(pending@).len();
                            assert(rest[i] == dropped_items[k]);
                            lemma_tree_distance_is_no_more_than_plain(
                                m,
                                self.periodic,
                                *point,
                                dropped_items[k].0,
                            );
                            assert(left_behind(
                                tree_distance(m, self.periodic, *point, dropped_items[k].0),
                                evaluated@,
                                num,
                                INFINITY,
                            ));
                        }
                    }
                }
                assert(nearest_among(all, m, self.periodic, *point, kept, kept_items, rest));
            }
            assert forall|m: spec_fn([i64; K], [i64; K]) -> i64| #[trigger]
                models::<F, K>(*distance, m) implies is_nearest(
                scored(all, m, self.periodic, *point),
                asked,
                kept,
                bounds_from_below(m, self.periodic, *point),
            ) by {
                let total = scored(all, m, self.periodic, *point);
                let rest = waiting(pending@, m, self.periodic, *point);
                total.to_multiset_ensures();
                assert(search_holds(
                    m,
                    all,
                    evaluated@,
                    pending@,
                    skipped,
                    dropped,
                    Multiset::empty(),
                    INFINITY,
                    self.periodic,
                    *point,
                ));
                lemma_empty_multiset(scored(skipped, m, self.periodic, *point));
                assert forall|i: int, j: int| 0 <= i <= j < kept.len() implies kept[i].0
                    <= kept[j].0 by {
                    assert(evaluated@[i].0 <= evaluated@[j].0);
                }
                assert(total.to_multiset().len() == kept.to_multiset().len() + rest.len()
                    + dropped.len());
                if bounds_from_below(m, self.periodic, *point) {
                    assert forall|x: (i64, T)|
                        total.to_multiset().sub(kept.to_multiset()).count(x)
                            > 0 implies farther_than_all(x, kept) by {
                        assert forall|i: int| 0 <= i < kept.len() implies kept[i].0 <= last.0 by {
                            assert(evaluated@[i].0 <= evaluated@[num - 1].0);
                        }
                        if dropped.count(x) > 0 {
                            assert(crowded_out(x, kept, num));
                        } else {
                            assert(rest.count(x) > 0);
                            let j = lemma_waiting_somewhere(
                                pending@,
                                m,
                                self.periodic,
                                *point,
                                x,
                            );
                            assert(bounded_below(pending@[j], m, self.periodic, *point));
                            lemma_none_nearer_counts(
                                pending@[j].0,
                                scored(pending@[j].1.entries(), m, self.periodic, *point),
                                x,
                            );
                            assert(pending@[j].0 >= pending@[pending@.len() - 1].0);
                            assert(last.0 == evaluated@[num - 1].0);
                        }
                    }
                }
            }
        }
        evaluated
    }

    /// Finds the `num` pairs nearest to `point`, or all pairs if the tree
    /// holds fewer, nearest first. Which of several pairs at one distance
    /// comes first, and which of them is left out, is not fixed. The
    /// distances are those that the metric returns: whatever function `m`
    /// says what it returns, the answer is the nearest by `m`.
    pub fn nearest<F>(&self, point: &[i64; K], num: usize, distance: &F) -> (r: Result<
        Vec<(i64, &T)>,
        ErrorKind,
    >) where F: Fn(&[i64; K], &[i64; K]) -> i64
        requires
            self.wf(),
            is_metric::<F, K>(*distance),
        ensures
            r is Err <==> spec_check_point(*point, self.spec_periodic()) is Err,
            r matches Err(e) ==> spec_check_point(*point, self.spec_periodic()) == Err::<
                (),
                ErrorKind,
            >(e),
            r matches Ok(v) ==> {
                &&& v@.len() == if num < self.spec_size() {
                    num
                } else {
                    self.spec_size()
                }
                &&& ascending(v@)
                &&& forall|m: spec_fn([i64; K], [i64; K]) -> i64| #[trigger]
                    models::<F, K>(*distance, m) ==> is_nearest(
                        scored(self.entries(), m, self.spec_periodic(), *point),
                        num,
                        found(v@),
                        bounds_from_below(m, self.spec_periodic(), *point),
                    ) && is_nearest_of(self.entries(), m, self.spec_periodic(), *point, found(v@))
            },
    {
        match self.check_point(point) {
            Err(e) => Err(e),
            Ok(()) => Ok(self.nearest_from(point, num, distance)),
        }
    }

    /// Finds the pairs within `radius` of `point`, nearest first, without
    /// checking the point.
    pub(crate) fn within_from<F>(&self, point: &[i64; K], radius: i64, distance: &F) -> (r: Vec<
        (i64, &T),
    >) where F: Fn(&[i64; K], &[i64; K]) -> i64
        requires
            self.wf(),
            is_metric::<F, K>(*distance),
        ensures
            ascending(r@),
            forall|i: int| 0 <= i < r@.len() ==> (#[trigger] r@[i]).0 <= radius,
            forall|m: spec_fn([i64; K], [i64; K]) -> i64| #[trigger]
                models::<F, K>(*distance, m) ==> is_within(
                    scored(self.entries(), m, self.periodic, *point),
                    radius,
                    found(r@),
                    bounds_from_below(m, self.periodic, *point),
                ) && is_within_of(self.entries(), m, self.periodic, *point, radius, found(r@))
                    && found(r@).to_multiset() =~= exactly_within(*self, m, *point, radius),
    {
        broadcast use vstd::multiset::group_multiset_axioms;

        let ghost all = self.entries();
        proof {
            self.lemma_size_and_bounds();
        }
        let mut evaluated: Vec<(i64, &T)> = Vec::new();
        if radius < zero() {
            proof {
                assert forall|m: spec_fn([i64; K], [i64; K]) -> i64| #[trigger]
                    models::<F, K>(*distance, m) implies is_within(
                    scored(self.entries(), m, self.periodic, *point),
                    radius,
                    found(evaluated@),
                    bounds_from_below(m, self.periodic, *point),
                ) && is_within_of(
                    self.entries(),
                    m,
                    self.periodic,
                    *point,
                    radius,
                    found(evaluated@),
                ) && found(evaluated@).to_multiset() =~= exactly_within(
                    *self,
                    m,
                    *point,
                    radius,
                ) by {
                    self.lemma_nothing_below_zero(evaluated@, radius, m, *point);
                }
            }
            return evaluated;
        }
        let mut pending: Vec<(i64, &KdTree<T, K>)> = Vec::new();
        pending.push((zero(), self));
        let ghost mut skipped: Seq<([i64; K], T)> = Seq::empty();
        let ghost mut dropped: Multiset<(i64, T)> = Multiset::empty();
        let ghost mut kept_items: Seq<([i64; K], T)> = Seq::empty();
        let ghost mut dropped_items: Seq<([i64; K], T)> = Seq::empty();
        let num = self.size;
        proof {
            self.lemma_items_begin(
                pending@,
                evaluated@,
                metric_value::<F, K>(*distance),
                num,
                radius,
                *point,
            );
            assert forall|m: spec_fn([i64; K], [i64; K]) -> i64| #[trigger]
                models::<F, K>(*distance, m) implies items_hold(
                m,
                evaluated@,
                kept_items,
                pending@,
                skipped,
                dropped_items,
                num,
                radius,
                self.periodic,
                *point,
            ) && visits_hold(m, *self, kept_items, pending@, dropped_items, radius, *point) by {
                self.lemma_items_begin(pending@, evaluated@, m, num, radius, *point);
            }
            self.lemma_search_begins(pending@, metric_value::<F, K>(*distance), radius, *point);
            assert forall|m: spec_fn([i64; K], [i64; K]) -> i64| #[trigger]
                models::<F, K>(*distance, m) implies search_holds(
                m,
                all,
                evaluated@,
                pending@,
                skipped,
                dropped,
                Multiset::empty(),
                radius,
                self.periodic,
                *point,
            ) by {
                self.lemma_search_begins(pending@, m, radius, *point);
            }
        }
        while pending.len() > 0 && pending[pending.len() - 1].0 <= radius
            invariant
                is_metric::<F, K>(*distance),
                radius == INFINITY ==> skipped.len() == 0,
                radius >= 0,
                all_keys_within(pending@, radius),
                search_fits(evaluated@, pending@, skipped, dropped, num, radius, self.periodic),
                items_fit(
                    all,
                    evaluated@,
                    kept_items,
                    pending@,
                    skipped,
                    dropped_items,
                    Seq::empty(),
                ),
                forall|m: spec_fn([i64; K], [i64; K]) -> i64| #[trigger]
                    models::<F, K>(*distance, m) ==> items_hold(
                        m,
                        evaluated@,
                        kept_items,
                        pending@,
                        skipped,
                        dropped_items,
                        num,
                        radius,
                        self.periodic,
                        *point,
                    ) && visits_hold(
                        m,
                        *self,
                        kept_items,
                        pending@,
                        dropped_items,
                        radius,
                        *point,
                    ),
                forall|m: spec_fn([i64; K], [i64; K]) -> i64| #[trigger]
                    models::<F, K>(*distance, m) ==> search_holds(
                        m,
                        all,
                        evaluated@,
                        pending@,
                        skipped,
                        dropped,
                        Multiset::empty(),
                        radius,
                        self.periodic,
                        *point,
                    ),
            decreases weight(pending@),
        {
            let (
                Ghost(next_skipped),
                Ghost(next_dropped),
                Ghost(next_kept_items),
                Ghost(next_dropped_items),
            ) = self.nearest_step(
                point,
                num,
                radius,
                distance,
                &mut pending,
                &mut evaluated,
                Ghost(all),
                Ghost(skipped),
                Ghost(dropped),
                Ghost(kept_items),
                Ghost(dropped_items),
            );
            proof {
                skipped = next_skipped;
                dropped = next_dropped;
                kept_items = next_kept_items;
                dropped_items = next_dropped_items;
            }
        }
        proof {
            let kept = found(evaluated@);
            let near = |x: (i64, T)| x.0 <= radius;
            kept.to_multiset_ensures();
            assert forall|i: int| 0 <= i < kept.len() implies (#[trigger] kept[i]).0 <= radius by {
                assert(evaluated@[i].0 <= radius);
            }
            assert forall|i: int| 0 <= i < evaluated@.len() implies (#[trigger] evaluated@[i]).0
                <= radius by {}
            let waits = waiting_items(pending@);
            let rest = waits + skipped + dropped_items;
            vstd::seq_lib::lemma_multiset_commutative(waits, skipped);
            vstd::seq_lib::lemma_multiset_commutative(waits + skipped, dropped_items);
            vstd::seq_lib::lemma_multiset_commutative(kept_items, rest);
            lemma_empty_multiset(Seq::<([i64; K], T)>::empty());
            all.to_multiset_ensures();
            kept_items.to_multiset_ensures();
            waits.to_multiset_ensures();
            skipped.to_multiset_ensures();
            dropped_items.to_multiset_ensures();
            assert(all.len() == kept_items.len() + waits.len() + skipped.len()
                + dropped_items.len());
            assert forall|m: spec_fn([i64; K], [i64; K]) -> i64| #[trigger]
                models::<F, K>(*distance, m) implies is_within_of(
                all,
                m,
                self.periodic,
                *point,
                radius,
                kept,
            ) by {
                assert(items_hold(
                    m,
                    evaluated@,
                    kept_items,
                    pending@,
                    skipped,
                    dropped_items,
                    num,
                    radius,
                    self.periodic,
                    *point,
                ));
                if bounds_from_below(m, None, *point) {
                    assert forall|i: int| 0 <= i < rest.len() implies m(
                        *point,
                        (#[trigger] rest[i]).0,
                    ) > radius by {
                        if i < waits.len() {
                            let w = lemma_waiting_item_somewhere(pending@, i);
                            assert(plainly_bounded(pending@[w.0], m, *point));
                            assert(pending@[w.0].0 >= pending@[pending@.len() - 1].0);
                        } else if i < waits.len() + skipped.len() {
                            assert(rest[i] == skipped[i - waits.len()]);
                        } else {
                            let k = i - waits.len() - skipped.len();
                            assert(rest[i] == dropped_items[k]);
                            lemma_tree_distance_is_no_more_than_plain(
                                m,
                                self.periodic,
                                *point,
                                dropped_items[k].0,
                            );
                            assert(left_behind(
                                tree_distance(m, self.periodic, *point, dropped_items[k].0),
                                evaluated@,
                                num,
                                radius,
                            ));
                        }
                    }
                }
                assert(within_among(
                    all,
                    m,
                    self.periodic,
                    *point,
                    radius,
                    kept,
                    kept_items,
                    rest,
                ));
            }
            assert(pending@.len() == 0) by {
                if pending@.len() > 0 {
                    assert(pending@[pending@.len() - 1].0 <= radius);
                }
            }
            assert forall|m: spec_fn([i64; K], [i64; K]) -> i64| #[trigger]
                models::<F, K>(*distance, m) implies kept.to_multiset() =~= exactly_within(
                *self,
                m,
                *point,
                radius,
            ) by {
                assert(items_hold(
                    m,
                    evaluated@,
                    kept_items,
                    pending@,
                    skipped,
                    dropped_items,
                    num,
                    radius,
                    self.periodic,
                    *point,
                ));
                assert(visits_hold(
                    m,
                    *self,
                    kept_items,
                    pending@,
                    dropped_items,
                    radius,
                    *point,
                ));
                let seen = visited(*self, m, *point, radius);
                let both = kept_items + dropped_items;
                let away = scored(dropped_items, m, self.periodic, *point);
                vstd::seq_lib::lemma_multiset_commutative(kept_items, dropped_items);
                lemma_scored_of_same_items(seen, both, m, self.periodic, *point);
                lemma_scored_of_both(kept_items, dropped_items, m, self.periodic, *point);
                away.to_multiset_ensures();
                assert forall|x: (i64, T)|
                    kept.to_multiset().count(x) == scored(
                        seen,
                        m,
                        self.periodic,
                        *point,
                    ).to_multiset().filter(near).count(x) by {
                    if x.0 <= radius {
                        if away.contains(x) {
                            let k = choose|k: int| 0 <= k < away.len() && away[k] == x;
                            assert(left_behind(
                                tree_distance(m, self.periodic, *point, dropped_items[k].0),
                                evaluated@,
                                num,
                                radius,
                            ));
                        }
                    } else {
                        if kept.contains(x) {
                            let i = choose|i: int| 0 <= i < kept.len() && kept[i] == x;
                            assert(kept[i].0 <= radius);
                        }
                    }
                }
            }
            assert forall|m: spec_fn([i64; K], [i64; K]) -> i64| #[trigger]
                models::<F, K>(*distance, m) implies is_within(
                scored(all, m, self.periodic, *point),
                radius,
                kept,
                bounds_from_below(m, self.periodic, *point),
            ) by {
                let total = scored(all, m, self.periodic, *point);
                let rest = waiting(pending@, m, self.periodic, *point);
                let past = scored(skipped, m, self.periodic, *point);
                total.to_multiset_ensures();
                past.to_multiset_ensures();
                assert(search_holds(
                    m,
                    all,
                    evaluated@,
                    pending@,
                    skipped,
                    dropped,
                    Multiset::empty(),
                    radius,
                    self.periodic,
                    *point,
                ));
                assert(total.to_multiset().len() == kept.to_multiset().len() + rest.len()
                    + past.to_multiset().len() + dropped.len());
                if bounds_from_below(m, self.periodic, *point) {
                    assert forall|x: (i64, T)|
                        kept.to_multiset().count(x) == total.to_multiset().filter(near).count(
                            x,
                        ) by {
                        if x.0 <= radius {
                            if dropped.count(x) > 0 {
                                assert(crowded_out(x, kept, num));
                                assert(dropped.len() > 0);
                            }
                            if rest.count(x) > 0 {
                                let j = lemma_waiting_somewhere(
                                    pending@,
                                    m,
                                    self.periodic,
                                    *point,
                                    x,
                                );
                                assert(bounded_below(pending@[j], m, self.periodic, *point));
                                lemma_none_nearer_counts(
                                    pending@[j].0,
                                    scored(pending@[j].1.entries(), m, self.periodic, *point),
                                    x,
                                );
                                assert(pending@[j].0 >= pending@[pending@.len() - 1].0);
                            }
                        } else {
                            if kept.contains(x) {
                                let i = choose|i: int| 0 <= i < kept.len() && kept[i] == x;
                                assert(kept[i].0 <= radius);
                            }
                        }
                    }
                }
            }
        }
        evaluated
    }

    /// Finds the pairs within `radius` of `point`, nearest first.
    pub(crate) fn within_impl<F>(&self, point: &[i64; K], radius: i64, distance: &F) -> (r: Result<
        Vec<(i64, &T)>,
        ErrorKind,
    >) where F: Fn(&[i64; K], &[i64; K]) -> i64
        requires
            self.wf(),
            is_metric::<F, K>(*distance),
        ensures
            r is Err <==> spec_check_point(*point, self.periodic) is Err,
            r matches Err(e) ==> spec_check_point(*point, self.periodic) == Err::<(), ErrorKind>(e),
            r matches Ok(v) ==> {
                &&& ascending(v@)
                &&& forall|m: spec_fn([i64; K], [i64; K]) -> i64| #[trigger]
                    models::<F, K>(*distance, m) ==> is_within(
                        scored(self.entries(), m, self.periodic, *point),
                        radius,
                        found(v@),
                        bounds_from_below(m, self.periodic, *point),
                    ) && is_within_of(self.entries(), m, self.periodic, *point, radius, found(v@))
                        && found(v@).to_multiset() =~= exactly_within(*self, m, *point, radius)
            },
    {
        match self.check_point(point) {
            Err(e) => Err(e),
            Ok(()) => Ok(self.within_from(point, radius, distance)),
        }
    }

    /// What a search within `radius` of `point` answers on an empty tree:
    /// nothing, whatever the point and the metric.
    fn none_within<'b, F>(&'b self, point: &[i64; K], radius: i64, distance: &F) -> (r: Vec<
        (i64, &'b T),
    >) where F: Fn(&[i64; K], &[i64; K]) -> i64
        requires
            self.wf(),
            self.spec_size() == 0,
        ensures
            r@.len() == 0,
            ascending(r@),
            forall|m: spec_fn([i64; K], [i64; K]) -> i64| #[trigger]
                models::<F, K>(*distance, m) ==> is_within(
                    scored(self.entries(), m, self.spec_periodic(), *point),
                    radius,
                    found(r@),
                    bounds_from_below(m, self.spec_periodic(), *point),
                ) && is_within_of(
                    self.entries(),
                    m,
                    self.spec_periodic(),
                    *point,
                    radius,
                    found(r@),
                ) && found(r@).to_multiset() =~= exactly_within(*self, m, *point, radius),
    {
        let nothing: Vec<(i64, &T)> = Vec::new();
        proof {
            assert forall|m: spec_fn([i64; K], [i64; K]) -> i64| #[trigger]
                models::<F, K>(*distance, m) implies is_within(
                scored(self.entries(), m, self.periodic, *point),
                radius,
                found(nothing@),
                bounds_from_below(m, self.periodic, *point),
            ) && is_within_of(self.entries(), m, self.periodic, *point, radius, found(nothing@))
                && found(nothing@).to_multiset() =~= exactly_within(*self, m, *point, radius) by {
                self.lemma_nothing_within(nothing@, radius, m, *point);
            }
        }
        nothing
    }

    /// Finds the pairs within `radius` of `point`, nearest first. On an
    /// empty tree the answer is empty, whatever the point. The distances are
    /// those that the metric returns: whatever function `m` says what it
    /// returns, the answer is that by `m`.
    pub fn within<F>(&self, point: &[i64; K], radius: i64, distance: &F) -> (r: Result<
        Vec<(i64, &T)>,
        ErrorKind,
    >) where F: Fn(&[i64; K], &[i64; K]) -> i64
        requires
            self.wf(),
            is_metric::<F, K>(*distance),
        ensures
            self.spec_size() == 0 ==> (r matches Ok(v) && v@.len() == 0),
            self.spec_size() > 0 ==> (r is Err <==> spec_check_point(
                *point,
                self.spec_periodic(),
            ) is Err),
            r matches Err(e) ==> spec_check_point(*point, self.spec_periodic()) == Err::<
                (),
                ErrorKind,
            >(e),
            r matches Ok(v) ==> {
                &&& ascending(v@)
                &&& forall|m: spec_fn([i64; K], [i64; K]) -> i64| #[trigger]
                    models::<F, K>(*distance, m) ==> is_within(
                        scored(self.entries(), m, self.spec_periodic(), *point),
                        radius,
                        found(v@),
                        bounds_from_below(m, self.spec_periodic(), *point),
                    ) && is_within_of(
                        self.entries(),
                        m,
                        self.spec_periodic(),
                        *point,
                        radius,
                        found(v@),
                    ) && found(v@).to_multiset() =~= exactly_within(*self, m, *point, radius)
            },
    {
        if self.size == 0 {
            return Ok(self.none_within(point, radius, distance));
        }
        self.within_impl(point, radius, distance)
    }

    /// Finds the pairs within `radius` of `point`, in no promised order. On
    /// an empty tree the answer is empty, whatever the point. The distances
    /// are those that the metric returns: whatever function `m` says what it
    /// returns, the answer is that by `m`.
    pub fn within_unsorted<F>(&self, point: &[i64; K], radius: i64, distance: &F) -> (r: Result<
        Vec<(i64, &T)>,
        ErrorKind,
    >) where F: Fn(&[i64; K], &[i64; K]) -> i64
        requires
            self.wf(),
            is_metric::<F, K>(*distance),
        ensures
            self.spec_size() == 0 ==> (r matches Ok(v) && v@.len() == 0),
            self.spec_size() > 0 ==> (r is Err <==> spec_check_point(
                *point,
                self.spec_periodic(),
            ) is Err),
            r matches Err(e) ==> spec_check_point(*point, self.spec_periodic()) == Err::<
                (),
                ErrorKind,
            >(e),
            r matches Ok(v) ==> forall|m: spec_fn([i64; K], [i64; K]) -> i64| #[trigger]
                models::<F, K>(*distance, m) ==> is_within(
                    scored(self.entries(), m, self.spec_periodic(), *point),
                    radius,
                    found(v@),
                    bounds_from_below(m, self.spec_periodic(), *point),
                ) && is_within_of(
                    self.entries(),
                    m,
                    self.spec_periodic(),
                    *point,
                    radius,
                    found(v@),
                ) && found(v@).to_multiset() =~= exactly_within(*self, m, *point, radius),
    {
        if self.size == 0 {
            return Ok(self.none_within(point, radius, distance));
        }
        self.within_impl(point, radius, distance)
    }

    /// A search for the pairs within a radius below zero finds nothing and
    /// visits nothing.
    pub(crate) proof fn lemma_nothing_below_zero(
        &self,
        nothing: Seq<(i64, &T)>,
        radius: i64,
        m: spec_fn([i64; K], [i64; K]) -> i64,
        q: [i64; K],
    )
        requires
            radius < 0,
            nothing.len() == 0,
        ensures
            is_within(
                scored(self.entries(), m, self.periodic, q),
                radius,
                found(nothing),
                bounds_from_below(m, self.periodic, q),
            ),
            is_within_of(self.entries(), m, self.periodic, q, radius, found(nothing)),
            found(nothing).to_multiset() =~= exactly_within(*self, m, q, radius),
    {
        broadcast use vstd::multiset::group_multiset_axioms;

        let all = scored(self.entries(), m, self.periodic, q);
        let none = Seq::<([i64; K], T)>::empty();
        lemma_empty_multiset(found(nothing));
        lemma_empty_multiset(scored(none, m, self.periodic, q));
        all.to_multiset_ensures();
        let near = |x: (i64, T)| x.0 <= radius;
        if bounds_from_below(m, self.periodic, q) {
            assert forall|x: (i64, T)| #[trigger] all.to_multiset().filter(near).count(x) == 0 by {
                if all.contains(x) {
                    let i = choose|i: int| 0 <= i < all.len() && all[i] == x;
                    assert(0 <= tree_distance(m, self.periodic, q, self.entries()[i].0));
                }
            }
        }
        assert(none + self.entries() =~= self.entries());
        assert(scored(none, m, self.periodic, q) =~= found(nothing));
        if bounds_from_below(m, None, q) {
            assert forall|i: int| 0 <= i < self.entries().len() implies m(
                q,
                (#[trigger] self.entries()[i]).0,
            ) > radius by {
                assert(0 <= tree_distance(m, None, q, self.entries()[i].0));
            }
        }
        assert(within_among(
            self.entries(),
            m,
            self.periodic,
            q,
            radius,
            found(nothing),
            none,
            self.entries(),
        ));
    }

    /// A search visits no more stored pairs than the tree holds.
    pub(crate) proof fn lemma_visits_little(
        &self,
        m: spec_fn([i64; K], [i64; K]) -> i64,
        q: [i64; K],
        radius: i64,
    )
        ensures
            visited(*self, m, q, radius).len() <= self.entries().len(),
            within_reach(*self, m, q, radius).len() <= self.entries().len(),
        decreases self,
    {
        match self.content {
            Node::Leaf { .. } => {},
            Node::Stem { left, right, .. } => {
                left.lemma_visits_little(m, q, radius);
                right.lemma_visits_little(m, q, radius);
            },
        }
    }

    /// An empty tree has nothing within any radius.
    pub(crate) proof fn lemma_nothing_within(
        &self,
        nothing: Seq<(i64, &T)>,
        radius: i64,
        m: spec_fn([i64; K], [i64; K]) -> i64,
        q: [i64; K],
    )
        requires
            self.wf(),
            self.size == 0,
            nothing.len() == 0,
        ensures
            ascending(nothing),
            is_within(
                scored(self.entries(), m, self.periodic, q),
                radius,
                found(nothing),
                bounds_from_below(m, self.periodic, q),
            ),
            is_within_of(self.entries(), m, self.periodic, q, radius, found(nothing)),
            found(nothing).to_multiset() =~= exactly_within(*self, m, q, radius),
    {
        broadcast use vstd::multiset::group_multiset_axioms;

        self.lemma_size_and_bounds();
        lemma_empty_multiset(found(nothing));
        lemma_empty_multiset(scored(self.entries(), m, self.periodic, q));
        self.lemma_visits_little(m, q, radius);
        lemma_empty_multiset(
            scored(within_reach(*self, m, q, radius), m, self.periodic, q),
        );
        let none = Seq::<([i64; K], T)>::empty();
        assert(none + none =~= self.entries());
        assert(scored(none, m, self.periodic, q) =~= found(nothing));
        assert(within_among(
            self.entries(),
            m,
            self.periodic,
            q,
            radius,
            found(nothing),
            none,
            none,
        ));
    }
}

} // verus!
