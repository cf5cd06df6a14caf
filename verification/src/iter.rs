//! The pairs of a tree handed out one by one, nearest first.

use crate::errors::ErrorKind;
use crate::lemmas::{lemma_empty_multiset, lemma_pop_multiset};
use crate::metric::{
    bounds_from_below, get_distance, is_metric, lemma_tree_distance_is_no_more_than_plain,
    metric_value, models, tree_distance,
};
use crate::nearest::lemma_skip_multiset;
use crate::scalar::{infinity, zero, INFINITY};
use crate::search::{
    all_bounded, all_fit, all_plainly_bounded, bounded_below, descending, descent_holds,
    descent_keeps, found, insert_descending, lemma_none_nearer_counts,
    lemma_waiting_item_somewhere, lemma_waiting_items_pop, lemma_waiting_somewhere,
    plainly_bounded, scored, waiting, waiting_items, weight,
};
use crate::tree::{spec_check_point, KdTree, Node};
use vstd::multiset::Multiset;
use vstd::prelude::*;

verus! {

/// A walk over the pairs of a tree in the order of their distances from a
/// point. It visits a subtree only when a pair of it may be the next.
pub struct NearestIter<'a, 'b, T, F, const K: usize> where F: Fn(&[i64; K], &[i64; K]) -> i64 {
    pub(crate) point: &'a [i64; K],
    pub(crate) pending: Vec<(i64, &'b KdTree<T, K>)>,
    pub(crate) evaluated: Vec<(i64, &'b T)>,
    pub(crate) distance: &'a F,
    pub(crate) periodic: Option<[i64; K]>,
    pub(crate) seen: Ghost<Seq<([i64; K], T)>>,
}

impl<'a, 'b, T, F, const K: usize> NearestIter<'a, 'b, T, F, K> where
    F: Fn(&[i64; K], &[i64; K]) -> i64,
 {
    /// The point from which distances are taken.
    pub open(crate) spec fn spec_point(self) -> [i64; K] {
        *self.point
    }

    /// The metric by which distances are taken.
    pub open(crate) spec fn spec_distance(self) -> F {
        *self.distance
    }

    /// The period of the tree that is walked over.
    pub open(crate) spec fn spec_periodic(self) -> Option<[i64; K]> {
        self.periodic
    }

    /// The pairs that are still to be handed out, as the walk sees them by
    /// the distances of `m`.
    pub open(crate) spec fn remaining(self, m: spec_fn([i64; K], [i64; K]) -> i64) -> Multiset<
        (i64, T),
    > {
        found(self.evaluated@).to_multiset().add(
            waiting(self.pending@, m, self.periodic, *self.point),
        )
    }

    /// Whether the walk may rely on bounding boxes, by the distances of
    /// `m`.
    pub open(crate) spec fn sound(self, m: spec_fn([i64; K], [i64; K]) -> i64) -> bool {
        bounds_from_below(m, self.periodic, *self.point)
    }

    /// The stored pairs that are still to be handed out: those seen but not
    /// handed out, and those of the subtrees still to be visited.
    pub open(crate) spec fn left(self) -> Multiset<([i64; K], T)> {
        self.seen@.to_multiset().add(waiting_items(self.pending@).to_multiset())
    }

    /// Whether boxes bound from below the distances of `m` between the
    /// point of the walk and other points, as the points stand. Of that the
    /// period of the tree decides nothing.
    pub open(crate) spec fn plainly_sound(self, m: spec_fn([i64; K], [i64; K]) -> i64) -> bool {
        bounds_from_below(m, None, *self.point)
    }

    /// The walk is well formed: its metric is one; the subtrees still to be
    /// visited are well formed and in the order of their keys, nearest
    /// last, and each key bounds its subtree from below; and the pairs seen
    /// but not handed out are in the order of their distances, nearest last.
    pub open(crate) spec fn wf(self) -> bool {
        &&& is_metric::<F, K>(*self.distance)
        &&& all_fit(self.pending@, self.periodic)
        &&& descending(self.pending@)
        &&& descending(self.evaluated@)
        &&& forall|m: spec_fn([i64; K], [i64; K]) -> i64| #[trigger]
            models::<F, K>(*self.distance, m) ==> all_bounded(
                self.pending@,
                m,
                self.periodic,
                *self.point,
            )
        &&& self.seen@.len() == self.evaluated@.len()
        &&& forall|m: spec_fn([i64; K], [i64; K]) -> i64| #[trigger]
            models::<F, K>(*self.distance, m) ==> all_plainly_bounded(
                self.pending@,
                m,
                *self.point,
            ) && scored(self.seen@, m, self.periodic, *self.point) =~= found(self.evaluated@)
    }

    /// Whether `e` is the stored pair that a call of `next` hands out as
    /// `x`, as the distances of `m` show it: `x` holds the payload of `e`
    /// and the distance at which the tree ranks its point; `e` was still to
    /// be handed out and is so no longer; and where boxes bound distances
    /// between points as they stand, no point that is still to be handed
    /// out lies, as it stands, nearer than `x` says. This holds on any
    /// tree, periodic or not.
    pub open(crate) spec fn takes(
        m: spec_fn([i64; K], [i64; K]) -> i64,
        before: Self,
        after: Self,
        x: (i64, &T),
        e: ([i64; K], T),
    ) -> bool {
        &&& e.1 == *x.1
        &&& tree_distance(m, before.periodic, *before.point, e.0) == x.0
        &&& before.left().count(e) > 0
        &&& after.left() =~= before.left().remove(e)
        &&& before.plainly_sound(m) ==> forall|o: ([i64; K], T)|
            #[trigger] after.left().count(o) > 0 ==> x.0 <= m(*before.point, o.0)
    }

    /// What one call of `next` does to the stored pairs, as the distances
    /// of `m` show it: it returns nothing only when no stored pair was
    /// left, and else takes one of them.
    pub open(crate) spec fn handed_of(
        m: spec_fn([i64; K], [i64; K]) -> i64,
        before: Self,
        after: Self,
        r: Option<(i64, &T)>,
    ) -> bool {
        &&& r is None ==> before.left().len() == 0 && after.left() =~= before.left()
        &&& r matches Some(x) ==> exists|e: ([i64; K], T)| #[trigger]
            Self::takes(m, before, after, x, e)
    }

    /// What one call of `next` does, as the distances of `m` show it: it
    /// returns nothing exactly when nothing remained; else it returns one
    /// of the pairs that remained, which then remains no longer, and, where
    /// the walk may rely on bounding boxes, none of the others lies nearer.
    pub open(crate) spec fn handed(
        m: spec_fn([i64; K], [i64; K]) -> i64,
        before: Self,
        after: Self,
        r: Option<(i64, &T)>,
    ) -> bool {
        &&& r is None <==> before.remaining(m).len() == 0
        &&& r is None ==> after.remaining(m) =~= before.remaining(m)
        &&& r matches Some(x) ==> {
            &&& before.remaining(m).count((x.0, *x.1)) > 0
            &&& after.remaining(m) =~= before.remaining(m).remove((x.0, *x.1))
            &&& before.sound(m) ==> forall|y: (i64, T)|
                after.remaining(m).count(y) > 0 ==> x.0 <= y.0
        }
    }

    /// Hands out the nearest of the remaining pairs, if any remains.
    pub fn next(&mut self) -> (r: Option<(i64, &'b T)>)
        requires
            old(self).wf(),
        ensures
            final(self).wf(),
            final(self).spec_point() == old(self).spec_point(),
            final(self).spec_distance() == old(self).spec_distance(),
            final(self).spec_periodic() == old(self).spec_periodic(),
            forall|m: spec_fn([i64; K], [i64; K]) -> i64| #[trigger]
                models::<F, K>(old(self).spec_distance(), m) ==> Self::handed(
                    m,
                    *old(self),
                    *final(self),
                    r,
                ) && Self::handed_of(m, *old(self), *final(self), r),
    {
        broadcast use vstd::multiset::group_multiset_axioms;

        let point: &'a [i64; K] = self.point;
        let distance: &'a F = self.distance;
        let periodic = self.periodic;
        while self.pending.len() > 0 && (self.evaluated.len() == 0
            || self.evaluated[self.evaluated.len() - 1].0 >= self.pending[self.pending.len()
            - 1].0)
            invariant
                self.wf(),
                self.point == point,
                self.distance == distance,
                self.periodic == periodic,
                old(self).point == point,
                old(self).distance == distance,
                old(self).periodic == periodic,
                forall|m: spec_fn([i64; K], [i64; K]) -> i64| #[trigger]
                    models::<F, K>(*distance, m) ==> self.remaining(m) =~= old(self).remaining(m),
                self.left() =~= old(self).left(),
            decreases weight(self.pending@),
        {
            let ghost at_start = self.pending@;
            let ghost seen_at_start = self.evaluated@;
            proof {
                lemma_waiting_items_pop(at_start);
            }
            let top = self.pending.pop().unwrap();
            let curr: &'b KdTree<T, K> = top.1;
            let ghost popped = self.pending@;
            proof {
                assert(popped =~= at_start.drop_last());
                assert(at_start[at_start.len() - 1].1.wf());
                assert forall|j: int| 0 <= j < popped.len() implies (#[trigger] popped[j]).1.wf()
                    && popped[j].1.spec_periodic() == periodic by {
                    assert(popped[j] == at_start[j]);
                }
            }
            let (leaf, Ghost(newly)) = KdTree::populate_pending(
                point,
                infinity(),
                distance,
                &mut self.pending,
                curr,
                true,
            );
            let ghost items = leaf.entries();
            let ghost waits = self.pending@;
            proof {
                leaf.lemma_size_and_bounds();
                lemma_empty_multiset(newly);
                assert(items.skip(0) =~= items);
                assert forall|m: spec_fn([i64; K], [i64; K]) -> i64| #[trigger]
                    models::<F, K>(*distance, m) implies all_plainly_bounded(waits, m, *point) by {
                    assert(descent_keeps(m, popped, waits, newly, INFINITY, *point));
                    assert(all_plainly_bounded(at_start, m, *point));
                    assert(all_plainly_bounded(popped, m, *point)) by {
                        assert forall|j: int| 0 <= j < popped.len() implies plainly_bounded(
                            #[trigger] popped[j],
                            m,
                            *point,
                        ) by {
                            assert(popped[j] == at_start[j]);
                        }
                    }
                }
                assert forall|m: spec_fn([i64; K], [i64; K]) -> i64| #[trigger]
                    models::<F, K>(*distance, m) implies all_bounded(waits, m, periodic, *point)
                    && old(self).remaining(m) =~= self.remaining(m).add(
                    scored(items, m, periodic, *point).skip(0).to_multiset(),
                ) by {
                    assert(descent_holds(
                        m,
                        popped,
                        waits,
                        curr,
                        leaf,
                        newly,
                        INFINITY,
                        periodic,
                        *point,
                    ));
                    assert(all_bounded(at_start, m, periodic, *point));
                    assert(all_bounded(popped, m, periodic, *point)) by {
                        assert forall|j: int| 0 <= j < popped.len() implies bounded_below(
                            #[trigger] popped[j],
                            m,
                            periodic,
                            *point,
                        ) by {
                            assert(popped[j] == at_start[j]);
                        }
                    }
                    lemma_empty_multiset(scored(newly, m, periodic, *point));
                    assert(scored(items, m, periodic, *point).skip(0) =~= scored(
                        items,
                        m,
                        periodic,
                        *point,
                    ));
                    assert(found(seen_at_start).to_multiset().add(
                        waiting(at_start, m, periodic, *point),
                    ) =~= old(self).remaining(m));
                }
            }
            match &leaf.content {
                Node::Leaf { points, bucket, .. } => {
                    let mut i: usize = 0;
                    while i < points.len()
                        invariant
                            0 <= i <= points@.len(),
                            points@.len() == bucket@.len(),
                            items.len() == points@.len(),
                            leaf.content == (Node::Leaf {
                                points: *points,
                                bucket: *bucket,
                                capacity: leaf.content->Leaf_capacity,
                            }),
                            items == leaf.entries(),
                            is_metric::<F, K>(*distance),
                            all_fit(self.pending@, periodic),
                            descending(self.pending@),
                            descending(self.evaluated@),
                            waits == self.pending@,
                            self.point == point,
                            self.distance == distance,
                            self.periodic == periodic,
                            old(self).point == point,
                            old(self).distance == distance,
                            old(self).periodic == periodic,
                            weight(self.pending@) < weight(at_start),
                            self.seen@.len() == self.evaluated@.len(),
                            old(self).left() =~= self.left().add(
                                items.skip(i as int).to_multiset(),
                            ),
                            forall|m: spec_fn([i64; K], [i64; K]) -> i64| #[trigger]
                                models::<F, K>(*distance, m) ==> all_plainly_bounded(
                                    waits,
                                    m,
                                    *point,
                                ) && scored(self.seen@, m, periodic, *point) =~= found(
                                    self.evaluated@,
                                ),
                            forall|m: spec_fn([i64; K], [i64; K]) -> i64| #[trigger]
                                models::<F, K>(*distance, m) ==> all_bounded(
                                    waits,
                                    m,
                                    periodic,
                                    *point,
                                ) && old(self).remaining(m) =~= self.remaining(m).add(
                                    scored(items, m, periodic, *point).skip(i as int).to_multiset(),
                                ),
                        decreases points@.len() - i,
                    {
                        let d = get_distance(point, &points[i], distance, periodic);
                        let payload: &'b T = &bucket[i];
                        let ghost x = (d, *payload);
                        let ghost seen = self.evaluated@;
                        let ghost before = *self;
                        let ghost item = (points@[i as int], *payload);
                        let ghost held = self.seen@;
                        assert(items[i as int] == item);
                        let at = insert_descending(&mut self.evaluated, d, payload);
                        self.seen = Ghost(held.insert(at as int, item));
                        proof {
                            lemma_skip_multiset(items, i as int);
                            vstd::seq_lib::to_multiset_insert(held, at as int, item);
                            held.insert_ensures(at as int, item);
                            assert forall|m: spec_fn([i64; K], [i64; K]) -> i64| #[trigger]
                                models::<F, K>(*distance, m) implies all_plainly_bounded(
                                waits,
                                m,
                                *point,
                            ) && scored(self.seen@, m, periodic, *point) =~= found(
                                self.evaluated@,
                            ) by {
                                let theirs = scored(held, m, periodic, *point);
                                assert(theirs =~= found(seen));
                                assert(d == tree_distance(m, periodic, *point, item.0));
                                assert forall|j: int| 0 <= j < self.seen@.len() implies scored(
                                    self.seen@,
                                    m,
                                    periodic,
                                    *point,
                                )[j] == found(self.evaluated@)[j] by {
                                    if j < at {
                                        assert(theirs[j] == found(seen)[j]);
                                    } else if j > at {
                                        assert(theirs[j - 1] == found(seen)[j - 1]);
                                    }
                                }
                            }
                            seen.insert_ensures(at as int, (d, payload));
                            assert(found(self.evaluated@) =~= found(seen).insert(at as int, x));
                            vstd::seq_lib::to_multiset_insert(found(seen), at as int, x);
                            assert forall|m: spec_fn([i64; K], [i64; K]) -> i64| #[trigger]
                                models::<F, K>(*distance, m) implies all_bounded(
                                waits,
                                m,
                                periodic,
                                *point,
                            ) && old(self).remaining(m) =~= self.remaining(m).add(
                                scored(items, m, periodic, *point).skip(i + 1).to_multiset(),
                            ) by {
                                let theirs = scored(items, m, periodic, *point);
                                assert(old(self).remaining(m) =~= before.remaining(m).add(
                                    theirs.skip(i as int).to_multiset(),
                                ));
                                lemma_skip_multiset(theirs, i as int);
                                assert(theirs[i as int] == x);
                            }
                        }
                        i += 1;
                    }
                    proof {
                        lemma_empty_multiset(items.skip(i as int));
                        assert forall|m: spec_fn([i64; K], [i64; K]) -> i64| #[trigger]
                            models::<F, K>(*distance, m) implies self.remaining(m) =~= old(
                            self,
                        ).remaining(m) by {
                            lemma_empty_multiset(
                                scored(items, m, periodic, *point).skip(i as int),
                            );
                        }
                    }
                },
                Node::Stem { .. } => {},
            }
        }
        let ghost seen = self.evaluated@;
        let ghost before = *self;
        let ghost held = self.seen@;
        let last = self.evaluated.pop();
        self.seen = Ghost(
            if held.len() > 0 {
                held.drop_last()
            } else {
                held
            },
        );
        proof {
            found(seen).to_multiset_ensures();
            assert forall|m: spec_fn([i64; K], [i64; K]) -> i64| #[trigger]
                models::<F, K>(*distance, m) implies all_plainly_bounded(
                self.pending@,
                m,
                *point,
            ) && scored(self.seen@, m, periodic, *point) =~= found(self.evaluated@) by {
                let theirs = scored(held, m, periodic, *point);
                assert(theirs =~= found(seen));
                assert forall|j: int| 0 <= j < self.seen@.len() implies scored(
                    self.seen@,
                    m,
                    periodic,
                    *point,
                )[j] == found(self.evaluated@)[j] by {
                    assert(theirs[j] == found(seen)[j]);
                }
            }
            assert forall|m: spec_fn([i64; K], [i64; K]) -> i64| #[trigger]
                models::<F, K>(*distance, m) implies Self::handed_of(m, *old(self), *self, last) by {
                let waits = waiting_items(self.pending@);
                let theirs = scored(held, m, periodic, *point);
                assert(theirs =~= found(seen));
                match last {
                    None => {
                        assert(waits =~= Seq::<([i64; K], T)>::empty());
                        lemma_empty_multiset(waits);
                        lemma_empty_multiset(held);
                    },
                    Some(x) => {
                        let e = held.last();
                        assert(self.evaluated@ =~= seen.drop_last());
                        lemma_pop_multiset(held);
                        assert(theirs[held.len() - 1] == found(seen)[held.len() - 1]);
                        if bounds_from_below(m, None, *point) {
                            assert forall|o: ([i64; K], T)| #[trigger]
                                self.left().count(o) > 0 implies x.0 <= m(*point, o.0) by {
                                if self.seen@.to_multiset().count(o) > 0 {
                                    self.seen@.to_multiset_ensures();
                                    assert(self.seen@.contains(o));
                                    let i = choose|i: int|
                                        0 <= i < self.seen@.len() && self.seen@[i] == o;
                                    assert(held[i] == o);
                                    assert(theirs[i] == found(seen)[i]);
                                    assert(seen[i].0 >= seen[seen.len() - 1].0);
                                    lemma_tree_distance_is_no_more_than_plain(
                                        m,
                                        periodic,
                                        *point,
                                        o.0,
                                    );
                                } else {
                                    waits.to_multiset_ensures();
                                    assert(waits.contains(o));
                                    let k = choose|k: int| 0 <= k < waits.len() && waits[k] == o;
                                    let (j, t) = lemma_waiting_item_somewhere(self.pending@, k);
                                    assert(plainly_bounded(self.pending@[j], m, *point));
                                    assert(self.pending@[j].0 >= self.pending@[self.pending@.len()
                                        - 1].0);
                                }
                            }
                        }
                        assert(Self::takes(m, *old(self), *self, x, e));
                    },
                }
            }
            assert forall|m: spec_fn([i64; K], [i64; K]) -> i64| #[trigger]
                models::<F, K>(*distance, m) implies Self::handed(m, *old(self), *self, last) by {
                let rest = waiting(self.pending@, m, periodic, *point);
                assert(before.remaining(m) =~= old(self).remaining(m));
                if self.pending@.len() == 0 {
                    assert(rest =~= Multiset::<(i64, T)>::empty());
                }
                match last {
                    None => {
                        lemma_empty_multiset(found(seen));
                    },
                    Some(x) => {
                        let y = (x.0, *x.1);
                        assert(self.evaluated@ =~= seen.drop_last());
                        lemma_pop_multiset(found(seen));
                        assert(found(seen).drop_last() =~= found(self.evaluated@));
                        assert(found(seen).last() == y);
                        if bounds_from_below(m, periodic, *point) {
                            assert forall|z: (i64, T)|
                                self.remaining(m).count(z) > 0 implies x.0 <= z.0 by {
                                if found(self.evaluated@).to_multiset().count(z) > 0 {
                                    found(self.evaluated@).to_multiset_ensures();
                                    assert(found(self.evaluated@).contains(z));
                                    let i = choose|i: int|
                                        0 <= i < self.evaluated@.len() && found(
                                            self.evaluated@,
                                        )[i] == z;
                                    assert(seen[i].0 >= seen[seen.len() - 1].0);
                                } else {
                                    let j = lemma_waiting_somewhere(
                                        self.pending@,
                                        m,
                                        periodic,
                                        *point,
                                        z,
                                    );
                                    assert(bounded_below(self.pending@[j], m, periodic, *point));
                                    lemma_none_nearer_counts(
                                        self.pending@[j].0,
                                        scored(self.pending@[j].1.entries(), m, periodic, *point),
                                        z,
                                    );
                                    assert(self.pending@[j].0 >= self.pending@[self.pending@.len()
                                        - 1].0);
                                }
                            }
                        }
                    },
                }
            }
        }
        last
    }
}

impl<T, const K: usize> KdTree<T, K> {
    /// Begins a walk over the pairs of the tree, nearest to `point` first.
    /// What remains to be handed out at first is every pair of the tree.
    pub fn iter_nearest<'a, 'b, F>(&'b self, point: &'a [i64; K], distance: &'a F) -> (r: Result<
        NearestIter<'a, 'b, T, F, K>,
        ErrorKind,
    >) where F: Fn(&[i64; K], &[i64; K]) -> i64
        requires
            self.wf(),
            is_metric::<F, K>(*distance),
        ensures
            r is Err <==> spec_check_point(*point, self.spec_periodic()) is Err,
            r matches Err(e) ==> spec_check_point(*point, self.spec_periodic()) == Err::<
                (),
                ErrorKind,
            >(e),
            r matches Ok(walk) ==> {
                &&& walk.wf()
                &&& walk.spec_point() == *point
                &&& walk.spec_distance() == *distance
                &&& walk.spec_periodic() == self.spec_periodic()
                &&& forall|m: spec_fn([i64; K], [i64; K]) -> i64|
                    #[trigger] walk.remaining(m) =~= scored(
                        self.entries(),
                        m,
                        self.spec_periodic(),
                        *point,
                    ).to_multiset()
                &&& walk.left() =~= self.entries().to_multiset()
            },
    {
        broadcast use vstd::multiset::group_multiset_axioms;

        match self.check_point(point) {
            Err(e) => {
                return Err(e);
            },
            Ok(()) => {},
        }
        let mut pending: Vec<(i64, &'b KdTree<T, K>)> = Vec::new();
        let evaluated: Vec<(i64, &'b T)> = Vec::new();
        pending.push((zero(), self));
        let walk = NearestIter {
            point,
            pending,
            evaluated,
            distance,
            periodic: self.periodic,
            seen: Ghost(Seq::empty()),
        };
        proof {
            let nothing = Seq::<(i64, &T)>::empty();
            lemma_empty_multiset(Seq::<([i64; K], T)>::empty());
            self.lemma_items_begin(
                walk.pending@,
                nothing,
                metric_value::<F, K>(*distance),
                0,
                INFINITY,
                *point,
            );
            assert forall|m: spec_fn([i64; K], [i64; K]) -> i64| #[trigger]
                models::<F, K>(*distance, m) implies all_plainly_bounded(
                walk.pending@,
                m,
                *point,
            ) && scored(walk.seen@, m, self.periodic, *point) =~= found(walk.evaluated@) by {
                self.lemma_items_begin(walk.pending@, nothing, m, 0, INFINITY, *point);
            }
            assert forall|m: spec_fn([i64; K], [i64; K]) -> i64|
                all_bounded(walk.pending@, m, self.periodic, *point) && #[trigger] walk.remaining(
                    m,
                ) =~= scored(self.entries(), m, self.periodic, *point).to_multiset() by {
                self.lemma_search_begins(walk.pending@, m, INFINITY, *point);
                lemma_empty_multiset(found(walk.evaluated@));
                lemma_empty_multiset(scored(Seq::<([i64; K], T)>::empty(), m, self.periodic, *point));
            }
        }
        Ok(walk)
    }
}

} // verus!
