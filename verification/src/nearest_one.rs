//! The single nearest pair to a point.

use crate::errors::ErrorKind;
use crate::lemmas::lemma_empty_multiset;
use crate::metric::{
    bounds_from_below, is_metric, lemma_metric_has_model,
    lemma_tree_distance_is_no_more_than_plain, metric_value, models, tree_distance,
};
use crate::nearest::lemma_skip_multiset;
use crate::scalar::{infinity, zero, INFINITY};
use crate::search::{
    all_bounded, all_fit, all_plainly_bounded, bounded_below, descent_holds, descent_keeps,
    lemma_scored_of_both, lemma_waiting_items_pop, plainly_bounded, scored, waiting,
    waiting_items, weight,
};
use crate::tree::{spec_check_point, KdTree, Node};
use vstd::multiset::Multiset;
use vstd::prelude::*;

verus! {

/// What the search for the nearest pair among `all` returns as `best`: one
/// of the pairs and, where the search may rely on bounding boxes (`sound`),
/// one that no other pair lies nearer than.
pub open spec fn is_nearest_one<T>(all: Seq<(i64, T)>, best: (i64, T), sound: bool) -> bool {
    &&& all.to_multiset().count(best) > 0
    &&& sound ==> forall|i: int| 0 <= i < all.len() ==> best.0 <= (#[trigger] all[i]).0
}

/// The part of the state of a search for the nearest pair that no distance
/// of an unvisited pair enters: the subtrees that wait are well formed; as
/// long as no pair was seen, there is no best pair, the best distance is
/// infinite and no subtree was skipped; after that the best pair is one of
/// those seen, at the best distance, and none that was seen lies nearer.
pub open spec fn one_fits<T, const K: usize>(
    best_dist: i64,
    best_elem: Option<&T>,
    pending: Seq<(i64, &KdTree<T, K>)>,
    skipped: Seq<([i64; K], T)>,
    seen: Multiset<(i64, T)>,
    periodic: Option<[i64; K]>,
) -> bool {
    &&& all_fit(pending, periodic)
    &&& best_elem is None ==> best_dist == INFINITY && skipped.len() == 0 && seen.len() == 0
    &&& best_elem matches Some(e) ==> seen.count((best_dist, *e)) > 0
    &&& forall|x: (i64, T)| seen.count(x) > 0 ==> best_dist <= x.0
}

/// The state of a search among the pairs `all` for the one nearest to `q`,
/// as the distances of `m` show it. Each pair waits in a subtree of
/// `pending`, lies in a subtree that was skipped, was seen, or is at `hand`.
/// The key of each subtree that waits bounds it from below; and where boxes
/// bound distances from below, no skipped pair lies nearer than the best
/// distance.
pub open spec fn one_holds<T, const K: usize>(
    m: spec_fn([i64; K], [i64; K]) -> i64,
    all: Seq<([i64; K], T)>,
    best_dist: i64,
    pending: Seq<(i64, &KdTree<T, K>)>,
    skipped: Seq<([i64; K], T)>,
    seen: Multiset<(i64, T)>,
    hand: Multiset<(i64, T)>,
    periodic: Option<[i64; K]>,
    q: [i64; K],
) -> bool {
    &&& all_bounded(pending, m, periodic, q)
    &&& scored(all, m, periodic, q).to_multiset() =~= waiting(pending, m, periodic, q).add(
        scored(skipped, m, periodic, q).to_multiset(),
    ).add(seen).add(hand)
    &&& bounds_from_below(m, periodic, q) ==> forall|x: (i64, T)|
        scored(skipped, m, periodic, q).to_multiset().count(x) > 0 ==> best_dist <= x.0
}

/// Whether no point of `items`, as it stands, lies nearer to `q` than `d`.
pub open spec fn none_plainly_nearer<T, const K: usize>(
    items: Seq<([i64; K], T)>,
    m: spec_fn([i64; K], [i64; K]) -> i64,
    q: [i64; K],
    d: i64,
) -> bool {
    forall|i: int| 0 <= i < items.len() ==> d <= m(q, (#[trigger] items[i]).0)
}

/// What the search for the nearest pair returns, at the distance `d`, of
/// any tree, periodic or not: where boxes bound distances from below, no
/// stored point, as it stands, lies nearer to `q` than `d`.
pub open spec fn is_plainly_nearest<T, const K: usize>(
    items: Seq<([i64; K], T)>,
    m: spec_fn([i64; K], [i64; K]) -> i64,
    q: [i64; K],
    d: i64,
) -> bool {
    bounds_from_below(m, None, q) ==> none_plainly_nearer(items, m, q, d)
}

/// The stored pairs of a search for the nearest pair, accounted for: each
/// of `all` waits in a subtree of `pending`, lies in a subtree that was
/// skipped, was seen, or is at `hand`.
pub open spec fn one_items_fit<T, const K: usize>(
    all: Seq<([i64; K], T)>,
    pending: Seq<(i64, &KdTree<T, K>)>,
    skipped: Seq<([i64; K], T)>,
    seen_items: Seq<([i64; K], T)>,
    hand: Seq<([i64; K], T)>,
) -> bool {
    all.to_multiset() =~= waiting_items(pending).to_multiset().add(skipped.to_multiset()).add(
        seen_items.to_multiset(),
    ).add(hand.to_multiset())
}

/// What the distances of `m` show of the stored pairs of a search for the
/// nearest pair: the key of each subtree that waits is no more than the
/// distance to any of its points, as they stand; no point that was seen
/// lies nearer than the best distance; and where boxes bound distances from
/// below, nor does a skipped point.
pub open spec fn one_items_hold<T, const K: usize>(
    m: spec_fn([i64; K], [i64; K]) -> i64,
    best_dist: i64,
    pending: Seq<(i64, &KdTree<T, K>)>,
    skipped: Seq<([i64; K], T)>,
    seen_items: Seq<([i64; K], T)>,
    q: [i64; K],
) -> bool {
    &&& all_plainly_bounded(pending, m, q)
    &&& none_plainly_nearer(seen_items, m, q, best_dist)
    &&& bounds_from_below(m, None, q) ==> none_plainly_nearer(skipped, m, q, best_dist)
}

impl<T, const K: usize> KdTree<T, K> {
    /// One step of the search for the nearest pair: takes the subtree last
    /// put into `pending`, walks down to a leaf of it, skipping each
    /// subtree on the way whose box lies beyond the best distance so far,
    /// and makes each pair of the leaf the best if there is none yet or if
    /// it lies nearer than the best.
    pub(crate) fn nearest_one_step<'b, F>(
        &self,
        point: &[i64; K],
        distance: &F,
        pending: &mut Vec<(i64, &'b KdTree<T, K>)>,
        best_dist: &mut i64,
        best_elem: &mut Option<&'b T>,
        Ghost(all): Ghost<Seq<([i64; K], T)>>,
        Ghost(skipped): Ghost<Seq<([i64; K], T)>>,
        Ghost(seen): Ghost<Multiset<(i64, T)>>,
        Ghost(seen_items): Ghost<Seq<([i64; K], T)>>,
    ) -> (r: (
        Ghost<Seq<([i64; K], T)>>,
        Ghost<Multiset<(i64, T)>>,
        Ghost<Seq<([i64; K], T)>>,
    )) where F: Fn(&[i64; K], &[i64; K]) -> i64
        requires
            is_metric::<F, K>(*distance),
            old(pending)@.len() > 0,
            one_items_fit(all, old(pending)@, skipped, seen_items, Seq::empty()),
            forall|m: spec_fn([i64; K], [i64; K]) -> i64| #[trigger]
                models::<F, K>(*distance, m) ==> one_items_hold(
                    m,
                    *old(best_dist),
                    old(pending)@,
                    skipped,
                    seen_items,
                    *point,
                ),
            one_fits(*old(best_dist), *old(best_elem), old(pending)@, skipped, seen, self.periodic),
            forall|m: spec_fn([i64; K], [i64; K]) -> i64| #[trigger]
                models::<F, K>(*distance, m) ==> one_holds(
                    m,
                    all,
                    *old(best_dist),
                    old(pending)@,
                    skipped,
                    seen,
                    Multiset::empty(),
                    self.periodic,
                    *point,
                ),
        ensures
            one_fits(
                *final(best_dist),
                *final(best_elem),
                final(pending)@,
                r.0@,
                r.1@,
                self.periodic,
            ),
            forall|m: spec_fn([i64; K], [i64; K]) -> i64| #[trigger]
                models::<F, K>(*distance, m) ==> one_holds(
                    m,
                    all,
                    *final(best_dist),
                    final(pending)@,
                    r.0@,
                    r.1@,
                    Multiset::empty(),
                    self.periodic,
                    *point,
                ),
            weight(final(pending)@) < weight(old(pending)@),
            one_items_fit(all, final(pending)@, r.0@, r.2@, Seq::empty()),
            forall|m: spec_fn([i64; K], [i64; K]) -> i64| #[trigger]
                models::<F, K>(*distance, m) ==> one_items_hold(
                    m,
                    *final(best_dist),
                    final(pending)@,
                    r.0@,
                    r.2@,
                    *point,
                ),
    {
        broadcast use vstd::multiset::group_multiset_axioms;

        let ghost periodic = self.periodic;
        let ghost at_start = pending@;
        let top = pending.pop().unwrap();
        let curr: &'b KdTree<T, K> = top.1;
        let ghost popped = pending@;
        proof {
            lemma_waiting_items_pop(at_start);
            lemma_empty_multiset(Seq::<([i64; K], T)>::empty());
            assert(popped =~= at_start.drop_last());
            assert(at_start[at_start.len() - 1].1.wf());
            assert forall|j: int| 0 <= j < popped.len() implies (#[trigger] popped[j]).1.wf()
                && popped[j].1.spec_periodic() == periodic by {
                assert(popped[j] == at_start[j]);
            }
        }
        let evaluated_dist = *best_dist;
        let (leaf, Ghost(newly)) = Self::populate_pending(
            point,
            evaluated_dist,
            distance,
            pending,
            curr,
            false,
        );
        let ghost passed = skipped + newly;
        let ghost mut gone = seen;
        let ghost mut gone_items = seen_items;
        let ghost items = leaf.entries();
        let ghost waits = pending@;
        proof {
            leaf.lemma_size_and_bounds();
            vstd::seq_lib::lemma_multiset_commutative(skipped, newly);
            assert(items.skip(0) =~= items);
            assert forall|m: spec_fn([i64; K], [i64; K]) -> i64| #[trigger]
                models::<F, K>(*distance, m) implies one_items_hold(
                m,
                *best_dist,
                waits,
                passed,
                gone_items,
                *point,
            ) by {
                assert(one_items_hold(m, *best_dist, at_start, skipped, seen_items, *point));
                assert(descent_keeps(m, popped, waits, newly, evaluated_dist, *point));
                assert(all_plainly_bounded(popped, m, *point)) by {
                    assert forall|j: int| 0 <= j < popped.len() implies plainly_bounded(
                        #[trigger] popped[j],
                        m,
                        *point,
                    ) by {
                        assert(popped[j] == at_start[j]);
                    }
                }
                if bounds_from_below(m, None, *point) {
                    assert forall|i: int| 0 <= i < passed.len() implies *best_dist <= m(
                        *point,
                        (#[trigger] passed[i]).0,
                    ) by {
                        if i < skipped.len() {
                            assert(passed[i] == skipped[i]);
                        } else {
                            assert(passed[i] == newly[i - skipped.len()]);
                        }
                    }
                }
            }
            assert forall|m: spec_fn([i64; K], [i64; K]) -> i64| #[trigger]
                models::<F, K>(*distance, m) implies one_holds(
                m,
                all,
                *best_dist,
                waits,
                passed,
                gone,
                scored(items, m, periodic, *point).skip(0).to_multiset(),
                periodic,
                *point,
            ) by {
                assert(one_holds(
                    m,
                    all,
                    *best_dist,
                    at_start,
                    skipped,
                    seen,
                    Multiset::empty(),
                    periodic,
                    *point,
                ));
                assert(descent_holds(
                    m,
                    popped,
                    waits,
                    curr,
                    leaf,
                    newly,
                    evaluated_dist,
                    periodic,
                    *point,
                ));
                assert(all_bounded(popped, m, periodic, *point)) by {
                    assert forall|j: int| 0 <= j < popped.len() implies bounded_below(
                        #[trigger] popped[j],
                        m,
                        periodic,
                        *point,
                    ) by {
                        assert(popped[j] == at_start[j]);
                    }
                }
                lemma_scored_of_both(skipped, newly, m, periodic, *point);
                assert(scored(items, m, periodic, *point).skip(0) =~= scored(
                    items,
                    m,
                    periodic,
                    *point,
                ));
            }
        }
        match &leaf.content {
            Node::Leaf { points, bucket, .. } => {
                let mut i: usize = 0;
                while i < points.len()
                    invariant
                        0 <= i <= points@.len(),
                        points@.len() == bucket@.len(),
                        items.len() == points@.len(),
                        leaf.content == (Node::Leaf {
                            points: *points,
                            bucket: *bucket,
                            capacity: leaf.content->Leaf_capacity,
                        }),
                        items == leaf.entries(),
                        periodic == self.periodic,
                        waits == pending@,
                        is_metric::<F, K>(*distance),
                        one_fits(*best_dist, *best_elem, waits, passed, gone, periodic),
                        one_items_fit(all, waits, passed, gone_items, items.skip(i as int)),
                        forall|m: spec_fn([i64; K], [i64; K]) -> i64| #[trigger]
                            models::<F, K>(*distance, m) ==> one_items_hold(
                                m,
                                *best_dist,
                                waits,
                                passed,
                                gone_items,
                                *point,
                            ),
                        forall|m: spec_fn([i64; K], [i64; K]) -> i64| #[trigger]
                            models::<F, K>(*distance, m) ==> one_holds(
                                m,
                                all,
                                *best_dist,
                                waits,
                                passed,
                                gone,
                                scored(items, m, periodic, *point).skip(i as int).to_multiset(),
                                periodic,
                                *point,
                            ),
                    decreases points@.len() - i,
                {
                    let d = self.get_distance(point, &points[i], distance);
                    let payload: &'b T = &bucket[i];
                    let ghost x = (d, *payload);
                    let ghost gone_before = gone;
                    let ghost gone_items_before = gone_items;
                    let ghost item = (points@[i as int], *payload);
                    let ghost best_before = *best_dist;
                    assert(items[i as int] == item);
                    proof {
                        gone = gone.insert(x);
                        gone_items = gone_items_before.push(item);
                        lemma_skip_multiset(items, i as int);
                        vstd::seq_lib::to_multiset_build(gone_items_before, item);
                    }
                    if best_elem.is_none() || d < *best_dist {
                        *best_elem = Some(payload);
                        *best_dist = d;
                    }
                    proof {
                        assert forall|z: (i64, T)| gone.count(z) > 0 implies *best_dist <= z.0 by {
                            if gone_before.count(z) > 0 {
                            } else {
                                assert(z == x);
                            }
                        }
                        assert forall|m: spec_fn([i64; K], [i64; K]) -> i64| #[trigger]
                            models::<F, K>(*distance, m) implies one_holds(
                            m,
                            all,
                            *best_dist,
                            waits,
                            passed,
                            gone,
                            scored(items, m, periodic, *point).skip(i + 1).to_multiset(),
                            periodic,
                            *point,
                        ) by {
                            let theirs = scored(items, m, periodic, *point);
                            assert(one_holds(
                                m,
                                all,
                                best_before,
                                waits,
                                passed,
                                gone_before,
                                theirs.skip(i as int).to_multiset(),
                                periodic,
                                *point,
                            ));
                            lemma_skip_multiset(theirs, i as int);
                            assert(theirs[i as int] == x);
                        }
                        assert forall|m: spec_fn([i64; K], [i64; K]) -> i64| #[trigger]
                            models::<F, K>(*distance, m) implies one_items_hold(
                            m,
                            *best_dist,
                            waits,
                            passed,
                            gone_items,
                            *point,
                        ) by {
                            assert(one_items_hold(
                                m,
                                best_before,
                                waits,
                                passed,
                                gone_items_before,
                                *point,
                            ));
                            assert(d == tree_distance(m, periodic, *point, item.0));
                            lemma_tree_distance_is_no_more_than_plain(m, periodic, *point, item.0);
                            assert forall|j: int| 0 <= j < gone_items.len() implies *best_dist
                                <= m(*point, (#[trigger] gone_items[j]).0) by {
                                if j < gone_items_before.len() {
                                    assert(gone_items[j] == gone_items_before[j]);
                                }
                            }
                        }
                    }
                    i += 1;
                }
                proof {
                    assert forall|m: spec_fn([i64; K], [i64; K]) -> i64| #[trigger]
                        models::<F, K>(*distance, m) implies one_holds(
                        m,
                        all,
                        *best_dist,
                        waits,
                        passed,
                        gone,
                        Multiset::empty(),
                        periodic,
                        *point,
                    ) by {
                        lemma_empty_multiset(scored(items, m, periodic, *point).skip(i as int));
                    }
                }
            },
            Node::Stem { .. } => {},
        }
        proof {
            lemma_empty_multiset(items.skip(items.len() as int));
            assert(Seq::<([i64; K], T)>::empty() =~= items.skip(items.len() as int));
        }
        (Ghost(passed), Ghost(gone), Ghost(gone_items))
    }

    /// Finds the pair nearest to `point`. Which of several pairs at the
    /// least distance it is, is not fixed. An empty tree has none, whatever
    /// the point. The distance is that which the metric returns: whatever
    /// function `m` says what it returns, the answer is the nearest by `m`.
    pub fn nearest_one<F>(&self, point: &[i64; K], distance: &F) -> (r: Result<
        (i64, &T),
        ErrorKind,
    >) where F: Fn(&[i64; K], &[i64; K]) -> i64
        requires
            self.wf(),
            is_metric::<F, K>(*distance),
        ensures
            self.spec_size() == 0 ==> r == Err::<(i64, &T), ErrorKind>(ErrorKind::Empty),
            self.spec_size() > 0 ==> (r is Err <==> spec_check_point(
                *point,
                self.spec_periodic(),
            ) is Err),
            self.spec_size() > 0 ==> (r matches Err(e) ==> spec_check_point(
                *point,
                self.spec_periodic(),
            ) == Err::<(), ErrorKind>(e)),
            r matches Ok(best) ==> forall|m: spec_fn([i64; K], [i64; K]) -> i64| #[trigger]
                models::<F, K>(*distance, m) ==> is_nearest_one(
                    scored(self.entries(), m, self.spec_periodic(), *point),
                    (best.0, *best.1),
                    bounds_from_below(m, self.spec_periodic(), *point),
                ) && is_plainly_nearest(self.entries(), m, *point, best.0),
    {
        if self.size == 0 {
            return Err(ErrorKind::Empty);
        }
        match self.check_point(point) {
            Err(e) => {
                return Err(e);
            },
            Ok(()) => {},
        }
        match self.nearest_one_from(point, distance) {
            Some(best) => Ok(best),
            None => Err(ErrorKind::Empty),
        }
    }

    /// Finds the pair nearest to `point`, without checking the point: none
    /// on an empty tree.
    pub(crate) fn nearest_one_from<F>(&self, point: &[i64; K], distance: &F) -> (r: Option<
        (i64, &T),
    >) where F: Fn(&[i64; K], &[i64; K]) -> i64
        requires
            self.wf(),
            is_metric::<F, K>(*distance),
        ensures
            r is None <==> self.size == 0,
            r matches Some(best) ==> forall|m: spec_fn([i64; K], [i64; K]) -> i64| #[trigger]
                models::<F, K>(*distance, m) ==> is_nearest_one(
                    scored(self.entries(), m, self.periodic, *point),
                    (best.0, *best.1),
                    bounds_from_below(m, self.periodic, *point),
                ) && is_plainly_nearest(self.entries(), m, *point, best.0),
    {
        broadcast use vstd::multiset::group_multiset_axioms;

        let ghost all = self.entries();
        let mut pending: Vec<(i64, &KdTree<T, K>)> = Vec::new();
        let mut best_dist: i64 = infinity();
        let mut best_elem: Option<&T> = None;
        pending.push((zero(), self));
        let ghost mut skipped: Seq<([i64; K], T)> = Seq::empty();
        let ghost mut seen: Multiset<(i64, T)> = Multiset::empty();
        let ghost mut seen_items: Seq<([i64; K], T)> = Seq::empty();
        proof {
            let nothing = Seq::<(i64, &T)>::empty();
            lemma_empty_multiset(Seq::<([i64; K], T)>::empty());
            self.lemma_items_begin(
                pending@,
                nothing,
                metric_value::<F, K>(*distance),
                0,
                INFINITY,
                *point,
            );
            assert forall|m: spec_fn([i64; K], [i64; K]) -> i64| #[trigger]
                models::<F, K>(*distance, m) implies one_items_hold(
                m,
                best_dist,
                pending@,
                skipped,
                seen_items,
                *point,
            ) by {
                self.lemma_items_begin(pending@, nothing, m, 0, INFINITY, *point);
            }
            self.lemma_size_and_bounds();
            self.lemma_search_begins(pending@, metric_value::<F, K>(*distance), INFINITY, *point);
            assert forall|m: spec_fn([i64; K], [i64; K]) -> i64| #[trigger]
                models::<F, K>(*distance, m) implies one_holds(
                m,
                all,
                best_dist,
                pending@,
                skipped,
                seen,
                Multiset::empty(),
                self.periodic,
                *point,
            ) by {
                self.lemma_search_begins(pending@, m, INFINITY, *point);
                lemma_empty_multiset(
                    crate::search::found(Seq::<(i64, &T)>::empty()),
                );
            }
        }
        while pending.len() > 0
            invariant
                is_metric::<F, K>(*distance),
                one_fits(best_dist, best_elem, pending@, skipped, seen, self.periodic),
                one_items_fit(all, pending@, skipped, seen_items, Seq::empty()),
                forall|m: spec_fn([i64; K], [i64; K]) -> i64| #[trigger]
                    models::<F, K>(*distance, m) ==> one_items_hold(
                        m,
                        best_dist,
                        pending@,
                        skipped,
                        seen_items,
                        *point,
                    ),
                forall|m: spec_fn([i64; K], [i64; K]) -> i64| #[trigger]
                    models::<F, K>(*distance, m) ==> one_holds(
                        m,
                        all,
                        best_dist,
                        pending@,
                        skipped,
                        seen,
                        Multiset::empty(),
                        self.periodic,
                        *point,
                    ),
            decreases weight(pending@),
        {
            let (Ghost(next_skipped), Ghost(next_seen), Ghost(next_seen_items)) =
                self.nearest_one_step(
                point,
                distance,
                &mut pending,
                &mut best_dist,
                &mut best_elem,
                Ghost(all),
                Ghost(skipped),
                Ghost(seen),
                Ghost(seen_items),
            );
            proof {
                skipped = next_skipped;
                seen = next_seen;
                seen_items = next_seen_items;
            }
        }
        proof {
            let own = metric_value::<F, K>(*distance);
            lemma_metric_has_model::<F, K>(*distance);
            assert(one_holds(
                own,
                all,
                best_dist,
                pending@,
                skipped,
                seen,
                Multiset::empty(),
                self.periodic,
                *point,
            ));
            assert(waiting(pending@, own, self.periodic, *point) =~= Multiset::<
                (i64, T),
            >::empty());
            scored(all, own, self.periodic, *point).to_multiset_ensures();
            scored(skipped, own, self.periodic, *point).to_multiset_ensures();
            if best_elem is None {
                lemma_empty_multiset(scored(skipped, own, self.periodic, *point));
                assert(self.size == 0);
            } else {
                assert(seen.len() > 0);
                assert(self.size > 0);
            }
            if best_elem is Some {
                let both = skipped + seen_items;
                vstd::seq_lib::lemma_multiset_commutative(skipped, seen_items);
                lemma_empty_multiset(Seq::<([i64; K], T)>::empty());
                assert(waiting_items(pending@) =~= Seq::<([i64; K], T)>::empty());
                lemma_empty_multiset(waiting_items(pending@));
                assert forall|m: spec_fn([i64; K], [i64; K]) -> i64| #[trigger]
                    models::<F, K>(*distance, m) implies is_plainly_nearest(
                    all,
                    m,
                    *point,
                    best_dist,
                ) by {
                    assert(one_items_hold(m, best_dist, pending@, skipped, seen_items, *point));
                    if bounds_from_below(m, None, *point) {
                        assert forall|i: int| 0 <= i < both.len() implies best_dist <= m(
                            *point,
                            (#[trigger] both[i]).0,
                        ) by {
                            if i < skipped.len() {
                                assert(both[i] == skipped[i]);
                            } else {
                                assert(both[i] == seen_items[i - skipped.len()]);
                            }
                        }
                        crate::lemmas::lemma_holds_of_selection(
                            both,
                            all,
                            |e: ([i64; K], T)| best_dist <= m(*point, e.0),
                        );
                    }
                }
                assert forall|m: spec_fn([i64; K], [i64; K]) -> i64| #[trigger]
                    models::<F, K>(*distance, m) implies is_nearest_one(
                    scored(all, m, self.periodic, *point),
                    (best_dist, *best_elem.unwrap()),
                    bounds_from_below(m, self.periodic, *point),
                ) by {
                    let total = scored(all, m, self.periodic, *point);
                    assert(one_holds(
                        m,
                        all,
                        best_dist,
                        pending@,
                        skipped,
                        seen,
                        Multiset::empty(),
                        self.periodic,
                        *point,
                    ));
                    assert(waiting(pending@, m, self.periodic, *point) =~= Multiset::<
                        (i64, T),
                    >::empty());
                    total.to_multiset_ensures();
                    if bounds_from_below(m, self.periodic, *point) {
                        assert forall|i: int| 0 <= i < total.len() implies best_dist <= (
                        #[trigger] total[i]).0 by {
                            assert(total.contains(total[i]));
                            assert(total.to_multiset().count(total[i]) > 0);
                        }
                    }
                }
            }
        }
        match best_elem {
            Some(e) => Some((best_dist, e)),
            None => None,
        }
    }
}

} // verus!
