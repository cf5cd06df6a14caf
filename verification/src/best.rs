//! The pairs within a radius that have the least payloads.

use crate::errors::ErrorKind;
use crate::lemmas::{lemma_empty_multiset, lemma_pop_multiset};
use crate::metric::{
    bounds_from_below, is_metric, lemma_tree_distance_is_no_more_than_plain, models,
    tree_distance,
};
use crate::nearest::lemma_skip_multiset;
use crate::payload::{
    below_none, insert_payload, is_below, lemma_below_chain, lemma_below_one_way,
    lemma_not_below_chain, payload_below, payloads_ascend, payloads_ordered,
};
use crate::scalar::zero;
use crate::search::{
    all_bounded, all_fit, all_plainly_bounded, beyond, bounded_below, descent_holds,
    descent_keeps, lemma_scored_of_both, lemma_scored_of_push, lemma_waiting_items_pop,
    plainly_bounded, scored, waiting, waiting_items, weight,
};
use crate::tree::{spec_check_point, KdTree, Node};
use vstd::multiset::Multiset;
use vstd::prelude::*;
use vstd::std_specs::iter::IteratorSpec;

verus! {

/// Whether `res` holds the payloads of the pairs `chosen`, place by place.
pub open spec fn payloads_of<T>(chosen: Seq<(i64, T)>, res: Seq<T>) -> bool {
    &&& chosen.len() == res.len()
    &&& forall|i: int| 0 <= i < chosen.len() ==> (#[trigger] chosen[i]).1 == res[i]
}

/// Whether the pair `x` was rightly left out of the payloads `res`: it
/// lies beyond `radius`, or `res` is full with `max_qty` payloads and,
/// where payloads are `ordered`, that of `x` comes before none of them.
pub open spec fn rightly_left_out<T: Ord>(
    x: (i64, T),
    res: Seq<T>,
    radius: i64,
    max_qty: usize,
    ordered: bool,
) -> bool {
    x.0 > radius || (res.len() == max_qty && (ordered ==> below_none(x.1, res)))
}

/// Whether `res` holds the payloads of the pairs `chosen`, which are
/// at most `max_qty` of the pairs of `all` within `radius`, in the order of
/// the payloads where these are `ordered`; and, where the search may rely
/// on bounding boxes (`sound`), every other pair of `all` was rightly left
/// out.
pub open spec fn chosen_as_best<T: Ord>(
    all: Seq<(i64, T)>,
    radius: i64,
    max_qty: usize,
    chosen: Seq<(i64, T)>,
    res: Seq<T>,
    sound: bool,
    ordered: bool,
) -> bool {
    &&& payloads_of(chosen, res)
    &&& res.len() <= max_qty
    &&& ordered ==> payloads_ascend(res)
    &&& chosen.to_multiset().subset_of(all.to_multiset())
    &&& forall|i: int| 0 <= i < chosen.len() ==> (#[trigger] chosen[i]).0 <= radius
    &&& sound ==> forall|x: (i64, T)|
        all.to_multiset().sub(chosen.to_multiset()).count(x) > 0 ==> rightly_left_out(
            x,
            res,
            radius,
            max_qty,
            ordered,
        )
}

/// What the search for the best pairs returns as `res`: the payloads of at
/// most `max_qty` pairs of `all` within `radius` and, where the search may
/// rely on bounding boxes and payloads are ordered, those that come first
/// among the payloads of all such pairs.
pub open spec fn is_best_n<T: Ord>(
    all: Seq<(i64, T)>,
    radius: i64,
    max_qty: usize,
    res: Seq<T>,
    sound: bool,
    ordered: bool,
) -> bool {
    exists|chosen: Seq<(i64, T)>|
        #[trigger] chosen_as_best(all, radius, max_qty, chosen, res, sound, ordered)
}

/// The part of the state of a search for the best pairs that no distance
/// of an unvisited pair enters: the subtrees that wait are well formed;
/// `kept` holds the payloads of the pairs `chosen`, at most `max_qty` and
/// all within `radius`, in the order of the payloads where these are
/// ordered; and each pair that was seen and dropped was rightly left out.
pub open spec fn best_fits<T: Ord, const K: usize>(
    kept: Seq<T>,
    chosen: Seq<(i64, T)>,
    pending: Seq<(i64, &KdTree<T, K>)>,
    dropped: Multiset<(i64, T)>,
    max_qty: usize,
    radius: i64,
    periodic: Option<[i64; K]>,
) -> bool {
    &&& all_fit(pending, periodic)
    &&& payloads_of(chosen, kept)
    &&& kept.len() <= max_qty
    &&& payloads_ordered::<T>() ==> payloads_ascend(kept)
    &&& forall|i: int| 0 <= i < chosen.len() ==> (#[trigger] chosen[i]).0 <= radius
    &&& forall|x: (i64, T)|
        dropped.count(x) > 0 ==> rightly_left_out(
            x,
            kept,
            radius,
            max_qty,
            payloads_ordered::<T>(),
        )
}

/// The state of a search among the pairs `all` for the best within
/// `radius` of `q`, as the distances of `m` show it. Each pair was chosen,
/// waits in a subtree of `pending`, lies in a subtree that was skipped, was
/// seen and dropped, or is at `hand`. The key of each subtree that waits
/// bounds it from below; and where boxes bound distances from below, every
/// skipped pair lies beyond `radius`.
pub open spec fn best_holds<T, const K: usize>(
    m: spec_fn([i64; K], [i64; K]) -> i64,
    all: Seq<([i64; K], T)>,
    chosen: Seq<(i64, T)>,
    pending: Seq<(i64, &KdTree<T, K>)>,
    skipped: Seq<([i64; K], T)>,
    dropped: Multiset<(i64, T)>,
    hand: Multiset<(i64, T)>,
    radius: i64,
    periodic: Option<[i64; K]>,
    q: [i64; K],
) -> bool {
    &&& all_bounded(pending, m, periodic, q)
    &&& scored(all, m, periodic, q).to_multiset() =~= chosen.to_multiset().add(
        waiting(pending, m, periodic, q),
    ).add(scored(skipped, m, periodic, q).to_multiset()).add(dropped).add(hand)
    &&& bounds_from_below(m, periodic, q) ==> forall|x: (i64, T)|
        scored(skipped, m, periodic, q).to_multiset().count(x) > 0 ==> x.0 > radius
}

/// The stored pairs of a search for the best pairs, accounted for: `count`
/// of them are chosen, and each of `all` is one of these, waits in a subtree
/// of `pending`, lies in a subtree that was skipped, was seen and dropped,
/// or is at `hand`.
pub open spec fn best_items_fit<T, const K: usize>(
    all: Seq<([i64; K], T)>,
    count: nat,
    chosen_items: Seq<([i64; K], T)>,
    pending: Seq<(i64, &KdTree<T, K>)>,
    skipped: Seq<([i64; K], T)>,
    dropped_items: Seq<([i64; K], T)>,
    hand: Seq<([i64; K], T)>,
) -> bool {
    &&& chosen_items.len() == count
    &&& all.to_multiset() =~= chosen_items.to_multiset().add(
        waiting_items(pending).to_multiset(),
    ).add(skipped.to_multiset()).add(dropped_items.to_multiset()).add(hand.to_multiset())
}

/// What the distances of `m` show of the stored pairs of a search for the
/// best pairs: the chosen and the dropped pairs are the pairs
/// `chosen_items` and `dropped_items` as the query sees them; the key of
/// each subtree that waits is no more than the distance to any of its
/// points, as they stand; and where boxes bound such distances from below,
/// each skipped point lies beyond `radius`.
pub open spec fn best_items_hold<T, const K: usize>(
    m: spec_fn([i64; K], [i64; K]) -> i64,
    chosen: Seq<(i64, T)>,
    chosen_items: Seq<([i64; K], T)>,
    pending: Seq<(i64, &KdTree<T, K>)>,
    skipped: Seq<([i64; K], T)>,
    dropped: Multiset<(i64, T)>,
    dropped_items: Seq<([i64; K], T)>,
    radius: i64,
    periodic: Option<[i64; K]>,
    q: [i64; K],
) -> bool {
    &&& scored(chosen_items, m, periodic, q) =~= chosen
    &&& scored(dropped_items, m, periodic, q).to_multiset() =~= dropped
    &&& all_plainly_bounded(pending, m, q)
    &&& bounds_from_below(m, None, q) ==> beyond(skipped, m, q, radius)
}

/// How `res` answers a search for the best pairs of `items` within
/// `radius`, as the distances of `m` show it, on any tree, periodic or not:
/// `res` holds the payloads of the pairs `chosen`, which the tree ranks
/// within `radius`; these and the pairs `rest` are the stored pairs; and
/// where boxes bound distances from below, each point of `rest` lies, as it
/// stands, beyond `radius`, or `res` is full with `max_qty` payloads and,
/// where payloads are `ordered`, that of the pair comes before none of
/// them.
pub open spec fn best_among<T: Ord, const K: usize>(
    items: Seq<([i64; K], T)>,
    m: spec_fn([i64; K], [i64; K]) -> i64,
    periodic: Option<[i64; K]>,
    q: [i64; K],
    radius: i64,
    max_qty: usize,
    res: Seq<T>,
    chosen: Seq<([i64; K], T)>,
    rest: Seq<([i64; K], T)>,
    ordered: bool,
) -> bool {
    &&& (chosen + rest).to_multiset() =~= items.to_multiset()
    &&& chosen.len() == res.len()
    &&& forall|i: int|
        0 <= i < chosen.len() ==> (#[trigger] chosen[i]).1 == res[i] && tree_distance(
            m,
            periodic,
            q,
            chosen[i].0,
        ) <= radius
    &&& bounds_from_below(m, None, q) ==> forall|i: int|
        0 <= i < rest.len() ==> m(q, (#[trigger] rest[i]).0) > radius || (res.len() == max_qty && (
        ordered ==> below_none(rest[i].1, res)))
}

/// Whether `res` answers a search for the best pairs of `items` within
/// `radius`.
pub open spec fn is_best_n_of<T: Ord, const K: usize>(
    items: Seq<([i64; K], T)>,
    m: spec_fn([i64; K], [i64; K]) -> i64,
    periodic: Option<[i64; K]>,
    q: [i64; K],
    radius: i64,
    max_qty: usize,
    res: Seq<T>,
    ordered: bool,
) -> bool {
    exists|chosen: Seq<([i64; K], T)>, rest: Seq<([i64; K], T)>| #[trigger]
        best_among(items, m, periodic, q, radius, max_qty, res, chosen, rest, ordered)
}

impl<T: Copy + Ord, const K: usize> KdTree<T, K> {
    /// One step of the search for the best pairs: takes the subtree last
    /// put into `pending`, walks down to a leaf of it, and offers each pair
    /// of that leaf within `max_dist` to `evaluated`. Once `evaluated` holds
    /// `max_qty` payloads, a pair gets in only if its payload comes before
    /// the last of them, which then makes room.
    pub(crate) fn best_n_within_step<'b, F>(
        &self,
        point: &[i64; K],
        max_qty: usize,
        max_dist: i64,
        distance: &F,
        pending: &mut Vec<(i64, &'b KdTree<T, K>)>,
        evaluated: &mut Vec<T>,
        Ghost(all): Ghost<Seq<([i64; K], T)>>,
        Ghost(chosen): Ghost<Seq<(i64, T)>>,
        Ghost(skipped): Ghost<Seq<([i64; K], T)>>,
        Ghost(dropped): Ghost<Multiset<(i64, T)>>,
        Ghost(chosen_items): Ghost<Seq<([i64; K], T)>>,
        Ghost(dropped_items): Ghost<Seq<([i64; K], T)>>,
    ) -> (r: (
        Ghost<Seq<(i64, T)>>,
        Ghost<Seq<([i64; K], T)>>,
        Ghost<Multiset<(i64, T)>>,
        Ghost<Seq<([i64; K], T)>>,
        Ghost<Seq<([i64; K], T)>>,
    )) where F: Fn(&[i64; K], &[i64; K]) -> i64
        requires
            is_metric::<F, K>(*distance),
            old(pending)@.len() > 0,
            best_items_fit(
                all,
                old(evaluated)@.len(),
                chosen_items,
                old(pending)@,
                skipped,
                dropped_items,
                Seq::empty(),
            ),
            forall|m: spec_fn([i64; K], [i64; K]) -> i64| #[trigger]
                models::<F, K>(*distance, m) ==> best_items_hold(
                    m,
                    chosen,
                    chosen_items,
                    old(pending)@,
                    skipped,
                    dropped,
                    dropped_items,
                    max_dist,
                    self.periodic,
                    *point,
                ),
            best_fits(
                old(evaluated)@,
                chosen,
                old(pending)@,
                dropped,
                max_qty,
                max_dist,
                self.periodic,
            ),
            forall|m: spec_fn([i64; K], [i64; K]) -> i64| #[trigger]
                models::<F, K>(*distance, m) ==> best_holds(
                    m,
                    all,
                    chosen,
                    old(pending)@,
                    skipped,
                    dropped,
                    Multiset::empty(),
                    max_dist,
                    self.periodic,
                    *point,
                ),
        ensures
            best_fits(
                final(evaluated)@,
                r.0@,
                final(pending)@,
                r.2@,
                max_qty,
                max_dist,
                self.periodic,
            ),
            forall|m: spec_fn([i64; K], [i64; K]) -> i64| #[trigger]
                models::<F, K>(*distance, m) ==> best_holds(
                    m,
                    all,
                    r.0@,
                    final(pending)@,
                    r.1@,
                    r.2@,
                    Multiset::empty(),
                    max_dist,
                    self.periodic,
                    *point,
                ),
            weight(final(pending)@) < weight(old(pending)@),
            best_items_fit(
                all,
                final(evaluated)@.len(),
                r.3@,
                final(pending)@,
                r.1@,
                r.4@,
                Seq::empty(),
            ),
            forall|m: spec_fn([i64; K], [i64; K]) -> i64| #[trigger]
                models::<F, K>(*distance, m) ==> best_items_hold(
                    m,
                    r.0@,
                    r.3@,
                    final(pending)@,
                    r.1@,
                    r.2@,
                    r.4@,
                    max_dist,
                    self.periodic,
                    *point,
                ),
    {
        broadcast use vstd::multiset::group_multiset_axioms;

        let ghost periodic = self.periodic;
        let ghost ordered = payloads_ordered::<T>();
        let ghost at_start = pending@;
        let top = pending.pop().unwrap();
        let curr: &'b KdTree<T, K> = top.1;
        let ghost popped = pending@;
        proof {
            lemma_waiting_items_pop(at_start);
            lemma_empty_multiset(Seq::<([i64; K], T)>::empty());
            assert(popped =~= at_start.drop_last());
            assert(at_start[at_start.len() - 1].1.wf());
            assert forall|j: int| 0 <= j < popped.len() implies (#[trigger] popped[j]).1.wf()
                && popped[j].1.spec_periodic() == periodic by {
                assert(popped[j] == at_start[j]);
            }
        }
        let (leaf, Ghost(newly)) = Self::populate_pending(
            point,
            max_dist,
            distance,
            pending,
            curr,
            false,
        );
        let ghost passed = skipped + newly;
        let ghost mut gone = dropped;
        let ghost mut picked = chosen;
        let ghost mut held = chosen_items;
        let ghost mut gone_items = dropped_items;
        let ghost items = leaf.entries();
        let ghost waits = pending@;
        proof {
            leaf.lemma_size_and_bounds();
            vstd::seq_lib::lemma_multiset_commutative(skipped, newly);
            assert(items.skip(0) =~= items);
            assert forall|m: spec_fn([i64; K], [i64; K]) -> i64| #[trigger]
                models::<F, K>(*distance, m) implies best_items_hold(
                m,
                picked,
                held,
                waits,
                passed,
                gone,
                gone_items,
                max_dist,
                periodic,
                *point,
            ) by {
                assert(best_items_hold(
                    m,
                    chosen,
                    chosen_items,
                    at_start,
                    skipped,
                    dropped,
                    dropped_items,
                    max_dist,
                    periodic,
                    *point,
                ));
                assert(descent_keeps(m, popped, waits, newly, max_dist, *point));
                assert(all_plainly_bounded(popped, m, *point)) by {
                    assert forall|j: int| 0 <= j < popped.len() implies plainly_bounded(
                        #[trigger] popped[j],
                        m,
                        *point,
                    ) by {
                        assert(popped[j] == at_start[j]);
                    }
                }
                if bounds_from_below(m, None, *point) {
                    assert forall|i: int| 0 <= i < passed.len() implies m(
                        *point,
                        (#[trigger] passed[i]).0,
                    ) > max_dist by {
                        if i < skipped.len() {
                            assert(passed[i] == skipped[i]);
                        } else {
                            assert(passed[i] == newly[i - skipped.len()]);
                        }
                    }
                }
            }
            assert forall|m: spec_fn([i64; K], [i64; K]) -> i64| #[trigger]
                models::<F, K>(*distance, m) implies best_holds(
                m,
                all,
                picked,
                waits,
                passed,
                gone,
                scored(items, m, periodic, *point).skip(0).to_multiset(),
                max_dist,
                periodic,
                *point,
            ) by {
                assert(best_holds(
                    m,
                    all,
                    chosen,
                    at_start,
                    skipped,
                    dropped,
                    Multiset::empty(),
                    max_dist,
                    periodic,
                    *point,
                ));
                assert(descent_holds(
                    m,
                    popped,
                    waits,
                    curr,
                    leaf,
                    newly,
                    max_dist,
                    periodic,
                    *point,
                ));
                assert(all_bounded(popped, m, periodic, *point)) by {
                    assert forall|j: int| 0 <= j < popped.len() implies bounded_below(
                        #[trigger] popped[j],
                        m,
                        periodic,
                        *point,
                    ) by {
                        assert(popped[j] == at_start[j]);
                    }
                }
                lemma_scored_of_both(skipped, newly, m, periodic, *point);
                assert(scored(items, m, periodic, *point).skip(0) =~= scored(
                    items,
                    m,
                    periodic,
                    *point,
                ));
            }
        }
        match &leaf.content {
            Node::Leaf { points, bucket, .. } => {
                let mut i: usize = 0;
                while i < points.len()
                    invariant
                        0 <= i <= points@.len(),
                        points@.len() == bucket@.len(),
                        items.len() == points@.len(),
                        leaf.content == (Node::Leaf {
                            points: *points,
                            bucket: *bucket,
                            capacity: leaf.content->Leaf_capacity,
                        }),
                        items == leaf.entries(),
                        periodic == self.periodic,
                        ordered == payloads_ordered::<T>(),
                        waits == pending@,
                        is_metric::<F, K>(*distance),
                        best_fits(evaluated@, picked, waits, gone, max_qty, max_dist, periodic),
                        best_items_fit(
                            all,
                            evaluated@.len(),
                            held,
                            waits,
                            passed,
                            gone_items,
                            items.skip(i as int),
                        ),
                        forall|m: spec_fn([i64; K], [i64; K]) -> i64| #[trigger]
                            models::<F, K>(*distance, m) ==> best_items_hold(
                                m,
                                picked,
                                held,
                                waits,
                                passed,
                                gone,
                                gone_items,
                                max_dist,
                                periodic,
                                *point,
                            ),
                        forall|m: spec_fn([i64; K], [i64; K]) -> i64| #[trigger]
                            models::<F, K>(*distance, m) ==> best_holds(
                                m,
                                all,
                                picked,
                                waits,
                                passed,
                                gone,
                                scored(items, m, periodic, *point).skip(i as int).to_multiset(),
                                max_dist,
                                periodic,
                                *point,
                            ),
                    decreases points@.len() - i,
                {
                    let d = self.get_distance(point, &points[i], distance);
                    let payload: T = bucket[i];
                    let ghost x = (d, payload);
                    let ghost kept_before = evaluated@;
                    let ghost picked_before = picked;
                    let ghost gone_before = gone;
                    let ghost held_before = held;
                    let ghost gone_items_before = gone_items;
                    let ghost item = (points@[i as int], payload);
                    let ghost took = 0int;
                    let ghost place = 0int;
                    assert(items[i as int] == item);
                    proof {
                        lemma_skip_multiset(items, i as int);
                    }
                    if d <= max_dist && evaluated.len() < max_qty {
                        let at = insert_payload(evaluated, payload);
                        proof {
                            took = 1;
                            place = at as int;
                            held = held_before.insert(at as int, item);
                            vstd::seq_lib::to_multiset_insert(held_before, at as int, item);
                            held_before.insert_ensures(at as int, item);
                            picked = picked_before.insert(at as int, x);
                            kept_before.insert_ensures(at as int, payload);
                            picked_before.insert_ensures(at as int, x);
                            vstd::seq_lib::to_multiset_insert(picked_before, at as int, x);
                            assert forall|j: int| 0 <= j < picked.len() implies (
                            #[trigger] picked[j]).1 == evaluated@[j] && picked[j].0 <= max_dist by {
                                if j < at {
                                    assert(picked[j] == picked_before[j]);
                                } else if j > at {
                                    assert(picked[j] == picked_before[j - 1]);
                                }
                            }
                            assert forall|z: (i64, T)| gone.count(z) > 0 implies rightly_left_out(
                                z,
                                evaluated@,
                                max_dist,
                                max_qty,
                                ordered,
                            ) by {
                                assert(rightly_left_out(
                                    z,
                                    kept_before,
                                    max_dist,
                                    max_qty,
                                    ordered,
                                ));
                            }
                        }
                    } else if d <= max_dist && max_qty > 0 && is_below(
                        &payload,
                        &evaluated[max_qty - 1],
                    ) {
                        let out = evaluated.pop().unwrap();
                        let ghost shorter = evaluated@;
                        let at = insert_payload(evaluated, payload);
                        proof {
                            took = 2;
                            place = at as int;
                            let less = held_before.drop_last();
                            held = less.insert(at as int, item);
                            gone_items = gone_items_before.push(held_before.last());
                            lemma_pop_multiset(held_before);
                            vstd::seq_lib::to_multiset_insert(less, at as int, item);
                            vstd::seq_lib::to_multiset_build(gone_items_before, held_before.last());
                            less.insert_ensures(at as int, item);
                            let last = (max_qty - 1) as int;
                            let y = picked_before[last];
                            let fewer = picked_before.drop_last();
                            assert(y.1 == out);
                            gone = gone.insert(y);
                            picked = fewer.insert(at as int, x);
                            assert(shorter =~= kept_before.drop_last());
                            lemma_pop_multiset(picked_before);
                            shorter.insert_ensures(at as int, payload);
                            fewer.insert_ensures(at as int, x);
                            vstd::seq_lib::to_multiset_insert(fewer, at as int, x);
                            assert forall|j: int| 0 <= j < picked.len() implies (
                            #[trigger] picked[j]).1 == evaluated@[j] && picked[j].0 <= max_dist by {
                                if j < at {
                                    assert(picked[j] == fewer[j]);
                                    assert(fewer[j] == picked_before[j]);
                                } else if j > at {
                                    assert(picked[j] == fewer[j - 1]);
                                    assert(fewer[j - 1] == picked_before[j - 1]);
                                }
                            }
                            if ordered {
                                assert(shorter.len() == last);
                                assert forall|j: int| 0 <= j < shorter.len() implies !payload_below(
                                    out,
                                    #[trigger] shorter[j],
                                ) by {
                                    assert(shorter[j] == kept_before[j]);
                                    assert(!payload_below(kept_before[last], kept_before[j]));
                                }
                                assert(payloads_ascend(shorter)) by {
                                    assert forall|a: int, b: int|
                                        0 <= a <= b < shorter.len() implies !payload_below(
                                        shorter[b],
                                        shorter[a],
                                    ) by {
                                        assert(shorter[a] == kept_before[a]);
                                        assert(shorter[b] == kept_before[b]);
                                    }
                                }
                                lemma_below_one_way(payload, out);
                            }
                            assert forall|z: (i64, T)| gone.count(z) > 0 implies rightly_left_out(
                                z,
                                evaluated@,
                                max_dist,
                                max_qty,
                                ordered,
                            ) by {
                                if z.0 > max_dist {
                                } else if ordered {
                                    assert forall|j: int|
                                        0 <= j < evaluated@.len() implies !payload_below(
                                        z.1,
                                        #[trigger] evaluated@[j],
                                    ) by {
                                        if gone_before.count(z) > 0 {
                                            assert(rightly_left_out(
                                                z,
                                                kept_before,
                                                max_dist,
                                                max_qty,
                                                ordered,
                                            ));
                                            assert(below_none(z.1, kept_before));
                                            if j < at {
                                                assert(evaluated@[j] == shorter[j]);
                                                assert(shorter[j] == kept_before[j]);
                                            } else if j > at {
                                                assert(evaluated@[j] == shorter[j - 1]);
                                                assert(shorter[j - 1] == kept_before[j - 1]);
                                            } else {
                                                assert(!payload_below(z.1, kept_before[last]));
                                                if payload_below(z.1, payload) {
                                                    lemma_below_chain(z.1, payload, out);
                                                }
                                            }
                                        } else {
                                            assert(z == y);
                                            if j < at {
                                                assert(evaluated@[j] == shorter[j]);
                                            } else if j > at {
                                                assert(evaluated@[j] == shorter[j - 1]);
                                            } else {
                                            }
                                        }
                                    }
                                } else {
                                    if gone_before.count(z) > 0 {
                                        assert(rightly_left_out(
                                            z,
                                            kept_before,
                                            max_dist,
                                            max_qty,
                                            ordered,
                                        ));
                                    }
                                }
                            }
                        }
                    } else {
                        proof {
                            gone_items = gone_items_before.push(item);
                            vstd::seq_lib::to_multiset_build(gone_items_before, item);
                            gone = gone.insert(x);
                            assert forall|z: (i64, T)| gone.count(z) > 0 implies rightly_left_out(
                                z,
                                evaluated@,
                                max_dist,
                                max_qty,
                                ordered,
                            ) by {
                                if gone_before.count(z) > 0 {
                                } else {
                                    assert(z == x);
                                    if d <= max_dist && ordered && max_qty > 0 {
                                        let last = (max_qty - 1) as int;
                                        assert forall|j: int|
                                            0 <= j < evaluated@.len() implies !payload_below(
                                            x.1,
                                            #[trigger] evaluated@[j],
                                        ) by {
                                            assert(!payload_below(
                                                evaluated@[last],
                                                evaluated@[j],
                                            ));
                                            lemma_not_below_chain(
                                                evaluated@[j],
                                                evaluated@[last],
                                                x.1,
                                            );
                                        }
                                    }
                                }
                            }
                        }
                    }
                    proof {
                        assert forall|m: spec_fn([i64; K], [i64; K]) -> i64| #[trigger]
                            models::<F, K>(*distance, m) implies best_holds(
                            m,
                            all,
                            picked,
                            waits,
                            passed,
                            gone,
                            scored(items, m, periodic, *point).skip(i + 1).to_multiset(),
                            max_dist,
                            periodic,
                            *point,
                        ) by {
                            let theirs = scored(items, m, periodic, *point);
                            assert(best_holds(
                                m,
                                all,
                                picked_before,
                                waits,
                                passed,
                                gone_before,
                                theirs.skip(i as int).to_multiset(),
                                max_dist,
                                periodic,
                                *point,
                            ));
                            lemma_skip_multiset(theirs, i as int);
                            assert(theirs[i as int] == x);
                        }
                        assert forall|m: spec_fn([i64; K], [i64; K]) -> i64| #[trigger]
                            models::<F, K>(*distance, m) implies best_items_hold(
                            m,
                            picked,
                            held,
                            waits,
                            passed,
                            gone,
                            gone_items,
                            max_dist,
                            periodic,
                            *point,
                        ) by {
                            assert(best_items_hold(
                                m,
                                picked_before,
                                held_before,
                                waits,
                                passed,
                                gone_before,
                                gone_items_before,
                                max_dist,
                                periodic,
                                *point,
                            ));
                            let seen = scored(held_before, m, periodic, *point);
                            assert(d == tree_distance(m, periodic, *point, item.0));
                            if took == 1 {
                                assert forall|j: int| 0 <= j < held.len() implies scored(
                                    held,
                                    m,
                                    periodic,
                                    *point,
                                )[j] == picked[j] by {
                                    if j < place {
                                        assert(seen[j] == picked_before[j]);
                                    } else if j > place {
                                        assert(seen[j - 1] == picked_before[j - 1]);
                                    }
                                }
                            } else if took == 2 {
                                let last = (max_qty - 1) as int;
                                assert(seen[last] == picked_before[last]);
                                lemma_scored_of_push(
                                    gone_items_before,
                                    held_before.last(),
                                    m,
                                    periodic,
                                    *point,
                                );
                                assert forall|j: int| 0 <= j < held.len() implies scored(
                                    held,
                                    m,
                                    periodic,
                                    *point,
                                )[j] == picked[j] by {
                                    if j < place {
                                        assert(seen[j] == picked_before[j]);
                                    } else if j > place {
                                        assert(seen[j - 1] == picked_before[j - 1]);
                                    }
                                }
                            } else {
                                lemma_scored_of_push(gone_items_before, item, m, periodic, *point);
                            }
                        }
                    }
                    i += 1;
                }
                proof {
                    assert forall|m: spec_fn([i64; K], [i64; K]) -> i64| #[trigger]
                        models::<F, K>(*distance, m) implies best_holds(
                        m,
                        all,
                        picked,
                        waits,
                        passed,
                        gone,
                        Multiset::empty(),
                        max_dist,
                        periodic,
                        *point,
                    ) by {
                        lemma_empty_multiset(scored(items, m, periodic, *point).skip(i as int));
                    }
                }
            },
            Node::Stem { .. } => {},
        }
        proof {
            lemma_empty_multiset(items.skip(items.len() as int));
            assert(Seq::<([i64; K], T)>::empty() =~= items.skip(items.len() as int));
        }
        (Ghost(picked), Ghost(passed), Ghost(gone), Ghost(held), Ghost(gone_items))
    }

    /// Finds the payloads of the pairs within `radius` of `point`, without
    /// checking the point: at most `max_qty` of them, those that come first
    /// in the order of payloads.
    pub(crate) fn best_n_within_from<F>(
        &self,
        point: &[i64; K],
        radius: i64,
        max_qty: usize,
        distance: &F,
    ) -> (r: Vec<T>) where F: Fn(&[i64; K], &[i64; K]) -> i64
        requires
            self.wf(),
            is_metric::<F, K>(*distance),
        ensures
            r@.len() <= max_qty,
            r@.len() <= self.size,
            payloads_ordered::<T>() ==> payloads_ascend(r@),
            forall|m: spec_fn([i64; K], [i64; K]) -> i64| #[trigger]
                models::<F, K>(*distance, m) ==> is_best_n(
                    scored(self.entries(), m, self.periodic, *point),
                    radius,
                    max_qty,
                    r@,
                    bounds_from_below(m, self.periodic, *point),
                    payloads_ordered::<T>(),
                ) && is_best_n_of(
                    self.entries(),
                    m,
                    self.periodic,
                    *point,
                    radius,
                    max_qty,
                    r@,
                    payloads_ordered::<T>(),
                ),
    {
        broadcast use vstd::multiset::group_multiset_axioms;

        let ghost all = self.entries();
        let mut pending: Vec<(i64, &KdTree<T, K>)> = Vec::new();
        let mut evaluated: Vec<T> = Vec::new();
        pending.push((zero(), self));
        let ghost mut chosen: Seq<(i64, T)> = Seq::empty();
        let ghost mut skipped: Seq<([i64; K], T)> = Seq::empty();
        let ghost mut dropped: Multiset<(i64, T)> = Multiset::empty();
        let ghost mut chosen_items: Seq<([i64; K], T)> = Seq::empty();
        let ghost mut dropped_items: Seq<([i64; K], T)> = Seq::empty();
        proof {
            let nothing = Seq::<(i64, &T)>::empty();
            lemma_empty_multiset(Seq::<([i64; K], T)>::empty());
            self.lemma_items_begin(
                pending@,
                nothing,
                crate::metric::metric_value::<F, K>(*distance),
                0,
                radius,
                *point,
            );
            assert forall|m: spec_fn([i64; K], [i64; K]) -> i64| #[trigger]
                models::<F, K>(*distance, m) implies best_items_hold(
                m,
                chosen,
                chosen_items,
                pending@,
                skipped,
                dropped,
                dropped_items,
                radius,
                self.periodic,
                *point,
            ) by {
                self.lemma_items_begin(pending@, nothing, m, 0, radius, *point);
                lemma_empty_multiset(scored(dropped_items, m, self.periodic, *point));
                assert(scored(chosen_items, m, self.periodic, *point) =~= chosen);
            }
            self.lemma_size_and_bounds();
            self.lemma_search_begins(
                pending@,
                crate::metric::metric_value::<F, K>(*distance),
                radius,
                *point,
            );
            assert forall|m: spec_fn([i64; K], [i64; K]) -> i64| #[trigger]
                models::<F, K>(*distance, m) implies best_holds(
                m,
                all,
                chosen,
                pending@,
                skipped,
                dropped,
                Multiset::empty(),
                radius,
                self.periodic,
                *point,
            ) by {
                self.lemma_search_begins(pending@, m, radius, *point);
                lemma_empty_multiset(chosen);
                lemma_empty_multiset(crate::search::found(Seq::<(i64, &T)>::empty()));
            }
        }
        while pending.len() > 0
            invariant
                is_metric::<F, K>(*distance),
                best_fits(evaluated@, chosen, pending@, dropped, max_qty, radius, self.periodic),
                best_items_fit(
                    all,
                    evaluated@.len(),
                    chosen_items,
                    pending@,
                    skipped,
                    dropped_items,
                    Seq::empty(),
                ),
                forall|m: spec_fn([i64; K], [i64; K]) -> i64| #[trigger]
                    models::<F, K>(*distance, m) ==> best_items_hold(
                        m,
                        chosen,
                        chosen_items,
                        pending@,
                        skipped,
                        dropped,
                        dropped_items,
                        radius,
                        self.periodic,
                        *point,
                    ),
                forall|m: spec_fn([i64; K], [i64; K]) -> i64| #[trigger]
                    models::<F, K>(*distance, m) ==> best_holds(
                        m,
                        all,
                        chosen,
                        pending@,
                        skipped,
                        dropped,
                        Multiset::empty(),
                        radius,
                        self.periodic,
                        *point,
                    ),
            decreases weight(pending@),
        {
            let (
                Ghost(picked),
                Ghost(next_skipped),
                Ghost(next_dropped),
                Ghost(next_chosen_items),
                Ghost(next_dropped_items),
            ) = self.best_n_within_step(
                point,
                max_qty,
                radius,
                distance,
                &mut pending,
                &mut evaluated,
                Ghost(all),
                Ghost(chosen),
                Ghost(skipped),
                Ghost(dropped),
                Ghost(chosen_items),
                Ghost(dropped_items),
            );
            proof {
                chosen = picked;
                skipped = next_skipped;
                dropped = next_dropped;
                chosen_items = next_chosen_items;
                dropped_items = next_dropped_items;
            }
        }
        proof {
            let own = crate::metric::metric_value::<F, K>(*distance);
            crate::metric::lemma_metric_has_model::<F, K>(*distance);
            assert(best_holds(
                own,
                all,
                chosen,
                pending@,
                skipped,
                dropped,
                Multiset::empty(),
                radius,
                self.periodic,
                *point,
            ));
            scored(all, own, self.periodic, *point).to_multiset_ensures();
            chosen.to_multiset_ensures();
            assert(chosen.len() <= all.len());
            assert forall|m: spec_fn([i64; K], [i64; K]) -> i64| #[trigger]
                models::<F, K>(*distance, m) implies is_best_n(
                scored(all, m, self.periodic, *point),
                radius,
                max_qty,
                evaluated@,
                bounds_from_below(m, self.periodic, *point),
                payloads_ordered::<T>(),
            ) && is_best_n_of(
                all,
                m,
                self.periodic,
                *point,
                radius,
                max_qty,
                evaluated@,
                payloads_ordered::<T>(),
            ) by {
                assert(best_holds(
                    m,
                    all,
                    chosen,
                    pending@,
                    skipped,
                    dropped,
                    Multiset::empty(),
                    radius,
                    self.periodic,
                    *point,
                ));
                assert(waiting(pending@, m, self.periodic, *point) =~= Multiset::<
                    (i64, T),
                >::empty());
                assert(chosen_as_best(
                    scored(all, m, self.periodic, *point),
                    radius,
                    max_qty,
                    chosen,
                    evaluated@,
                    bounds_from_below(m, self.periodic, *point),
                    payloads_ordered::<T>(),
                ));
                assert(best_items_hold(
                    m,
                    chosen,
                    chosen_items,
                    pending@,
                    skipped,
                    dropped,
                    dropped_items,
                    radius,
                    self.periodic,
                    *point,
                ));
                let rest = skipped + dropped_items;
                let away = scored(dropped_items, m, self.periodic, *point);
                vstd::seq_lib::lemma_multiset_commutative(skipped, dropped_items);
                vstd::seq_lib::lemma_multiset_commutative(chosen_items, rest);
                lemma_empty_multiset(Seq::<([i64; K], T)>::empty());
                assert(waiting_items(pending@) =~= Seq::<([i64; K], T)>::empty());
                lemma_empty_multiset(waiting_items(pending@));
                away.to_multiset_ensures();
                assert forall|i: int| 0 <= i < chosen_items.len() implies (
                #[trigger] chosen_items[i]).1 == evaluated@[i] && tree_distance(
                    m,
                    self.periodic,
                    *point,
                    chosen_items[i].0,
                ) <= radius by {
                    assert(scored(chosen_items, m, self.periodic, *point)[i] == chosen[i]);
                }
                if bounds_from_below(m, None, *point) {
                    assert forall|i: int| 0 <= i < rest.len() implies m(
                        *point,
                        (#[trigger] rest[i]).0,
                    ) > radius || (evaluated@.len() == max_qty && (payloads_ordered::<T>()
                        ==> below_none(rest[i].1, evaluated@))) by {
                        if i < skipped.len() {
                            assert(rest[i] == skipped[i]);
                        } else {
                            let k = i - skipped.len();
                            assert(rest[i] == dropped_items[k]);
                            assert(away.contains(away[k]));
                            assert(dropped.count(away[k]) > 0);
                            assert(rightly_left_out(
                                away[k],
                                evaluated@,
                                radius,
                                max_qty,
                                payloads_ordered::<T>(),
                            ));
                            lemma_tree_distance_is_no_more_than_plain(
                                m,
                                self.periodic,
                                *point,
                                dropped_items[k].0,
                            );
                        }
                    }
                }
                assert(best_among(
                    all,
                    m,
                    self.periodic,
                    *point,
                    radius,
                    max_qty,
                    evaluated@,
                    chosen_items,
                    rest,
                    payloads_ordered::<T>(),
                ));
            }
        }
        evaluated
    }

    /// Finds the payloads of the pairs within `radius` of `point` that come
    /// first in the order of payloads: at most `max_qty` of them. On an
    /// empty tree the answer is empty, whatever the point. The distances are
    /// those that the metric returns: whatever function `m` says what it
    /// returns, the answer is that by `m`.
    pub fn best_n_within<F>(
        &self,
        point: &[i64; K],
        radius: i64,
        max_qty: usize,
        distance: &F,
    ) -> (r: Result<Vec<T>, ErrorKind>) where F: Fn(&[i64; K], &[i64; K]) -> i64
        requires
            self.wf(),
            is_metric::<F, K>(*distance),
        ensures
            self.spec_size() == 0 ==> (r matches Ok(v) && v@.len() == 0),
            self.spec_size() > 0 ==> (r is Err <==> spec_check_point(
                *point,
                self.spec_periodic(),
            ) is Err),
            r matches Err(e) ==> spec_check_point(*point, self.spec_periodic()) == Err::<
                (),
                ErrorKind,
            >(e),
            r matches Ok(v) ==> {
                &&& v@.len() <= max_qty
                &&& payloads_ordered::<T>() ==> payloads_ascend(v@)
                &&& forall|m: spec_fn([i64; K], [i64; K]) -> i64| #[trigger]
                    models::<F, K>(*distance, m) ==> is_best_n(
                        scored(self.entries(), m, self.spec_periodic(), *point),
                        radius,
                        max_qty,
                        v@,
                        bounds_from_below(m, self.spec_periodic(), *point),
                        payloads_ordered::<T>(),
                    ) && is_best_n_of(
                        self.entries(),
                        m,
                        self.spec_periodic(),
                        *point,
                        radius,
                        max_qty,
                        v@,
                        payloads_ordered::<T>(),
                    )
            },
    {
        if self.size == 0 {
            return Ok(self.best_n_within_from(point, radius, max_qty, distance));
        }
        match self.check_point(point) {
            Err(e) => Err(e),
            Ok(()) => Ok(self.best_n_within_from(point, radius, max_qty, distance)),
        }
    }

    /// Finds the payloads of the pairs within `radius` of `point` that come
    /// first in the order of payloads, at most `max_qty` of them, and hands
    /// them out one by one. The point is not checked.
    pub fn best_n_within_into_iter<F>(
        &self,
        point: &[i64; K],
        radius: i64,
        max_qty: usize,
        distance: &F,
    ) -> (r: std::vec::IntoIter<T>) where F: Fn(&[i64; K], &[i64; K]) -> i64
        requires
            self.wf(),
            is_metric::<F, K>(*distance),
        ensures
            r.remaining().len() <= max_qty,
            payloads_ordered::<T>() ==> payloads_ascend(r.remaining()),
            forall|m: spec_fn([i64; K], [i64; K]) -> i64| #[trigger]
                models::<F, K>(*distance, m) ==> is_best_n(
                    scored(self.entries(), m, self.spec_periodic(), *point),
                    radius,
                    max_qty,
                    r.remaining(),
                    bounds_from_below(m, self.spec_periodic(), *point),
                    payloads_ordered::<T>(),
                ) && is_best_n_of(
                    self.entries(),
                    m,
                    self.spec_periodic(),
                    *point,
                    radius,
                    max_qty,
                    r.remaining(),
                    payloads_ordered::<T>(),
                ),
    {
        broadcast use vstd::std_specs::vec::axiom_spec_into_iter;

        let v = self.best_n_within_from(point, radius, max_qty, distance);
        v.into_iter()
    }
}

} // verus!
