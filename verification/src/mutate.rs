//! Adding points to the tree, splitting a leaf that has grown past its
//! capacity, and removing points.

use crate::errors::ErrorKind;
use crate::lemmas::{
    lemma_empty_multiset, lemma_filter_keeps_all, lemma_holds_of_selection, lemma_pop_multiset,
    lemma_swap_remove_multiset,
};
use crate::scalar::{midpoint, spec_midpoint, zero};
use crate::tree::{in_box, in_cell, spec_check_point, KdTree, Node};
use vstd::multiset::Multiset;
use vstd::prelude::*;
use vstd::std_specs::cmp::PartialEqSpec;

verus! {

/// Whether `r` is the lower corner `lo` of a box, moved as far as it takes
/// for the box to contain `p`.
pub open spec fn widened_lower<const K: usize>(r: [i64; K], lo: [i64; K], p: [i64; K]) -> bool {
    forall|d: int|
        0 <= d < K ==> #[trigger] r@[d] == (if p@[d] < lo@[d] {
            p@[d]
        } else {
            lo@[d]
        })
}

/// Whether `r` is the upper corner `hi` of a box, moved as far as it takes
/// for the box to contain `p`.
pub open spec fn widened_upper<const K: usize>(r: [i64; K], hi: [i64; K], p: [i64; K]) -> bool {
    forall|d: int|
        0 <= d < K ==> #[trigger] r@[d] == (if p@[d] > hi@[d] {
            p@[d]
        } else {
            hi@[d]
        })
}

/// Whether `a` is the axis on which the box between `lo` and `hi` is
/// widest: the box has an extent on it, no axis has a greater one, and no
/// axis before it has the same.
pub open spec fn is_widest_axis<const K: usize>(lo: [i64; K], hi: [i64; K], a: usize) -> bool {
    &&& a < K
    &&& hi@[a as int] > lo@[a as int]
    &&& forall|d: int| 0 <= d < K ==> #[trigger] hi@[d] - lo@[d] <= hi@[a as int] - lo@[a as int]
    &&& forall|d: int| 0 <= d < a ==> #[trigger] hi@[d] - lo@[d] < hi@[a as int] - lo@[a as int]
}

/// Whether a leaf with the box between `lo` and `hi` is cut in two on axis
/// `d` at `cut`: on its widest axis, at the midpoint of the box.
pub open spec fn is_cut_of<const K: usize>(lo: [i64; K], hi: [i64; K], d: usize, cut: i64) -> bool {
    is_widest_axis(lo, hi, d) && cut == spec_midpoint(lo@[d as int] as int, hi@[d as int] as int)
}

/// The axis on which the box between `lo` and `hi` is widest, if it has any
/// extent at all: of several equally wide axes, the first.
pub fn widest_axis<const K: usize>(lo: &[i64; K], hi: &[i64; K]) -> (r: Option<usize>)
    ensures
        r is None ==> forall|d: int| 0 <= d < K ==> #[trigger] hi@[d] <= lo@[d],
        r matches Some(a) ==> is_widest_axis(*lo, *hi, a),
{
    let mut best: Option<usize> = None;
    let mut widest: i128 = zero() as i128;
    let mut d: usize = 0;
    while d < K
        invariant
            0 <= d <= K,
            best is None ==> widest == 0,
            best is None ==> forall|j: int| 0 <= j < d ==> #[trigger] hi@[j] <= lo@[j],
            best matches Some(a) ==> {
                &&& a < d
                &&& widest == hi@[a as int] - lo@[a as int]
                &&& widest > 0
                &&& forall|j: int| 0 <= j < d ==> #[trigger] hi@[j] - lo@[j] <= widest
                &&& forall|j: int| 0 <= j < a ==> #[trigger] hi@[j] - lo@[j] < widest
            },
        decreases K - d,
    {
        let extent: i128 = hi[d] as i128 - lo[d] as i128;
        if extent > widest {
            widest = extent;
            best = Some(d);
        }
        d += 1;
    }
    best
}

/// Whether two points have the same coordinates.
pub fn same_point<const K: usize>(a: &[i64; K], b: &[i64; K]) -> (r: bool)
    ensures
        r == (*a == *b),
{
    let mut d: usize = 0;
    while d < K
        invariant
            0 <= d <= K,
            forall|j: int| 0 <= j < d ==> a@[j] == b@[j],
        decreases K - d,
    {
        if a[d] != b[d] {
            return false;
        }
        d += 1;
    }
    assert(*a =~= *b);
    true
}

/// Whether a stored pair is the one that a removal asks for: the same
/// point, with a payload equal to the given one.
pub open spec fn is_asked_for<T: PartialEq, const K: usize>(
    point: [i64; K],
    data: T,
    e: ([i64; K], T),
) -> bool {
    e.0 == point && e.1.eq_spec(&data)
}

/// The stored pairs that a removal of `point` with `data` leaves.
pub open spec fn left_in_place<T: PartialEq, const K: usize>(
    items: Multiset<([i64; K], T)>,
    point: [i64; K],
    data: T,
) -> Multiset<([i64; K], T)> {
    items.filter(|e: ([i64; K], T)| !is_asked_for(point, data, e))
}

impl<T, const K: usize> KdTree<T, K> {
    /// Puts a pair at the end of this leaf's bucket and widens the bounding
    /// box to contain its point, whatever the capacity.
    pub(crate) fn push_to_bucket(&mut self, point: &[i64; K], data: T)
        requires
            old(self).wf_but_capacity(),
            old(self).content is Leaf,
            old(self).size < usize::MAX,
            old(self).admits(*point),
        ensures
            final(self).wf_but_capacity(),
            final(self).content is Leaf,
            final(self).spec_capacity() == old(self).spec_capacity(),
            final(self).entries() =~= old(self).entries().push((*point, data)),
            final(self).size == old(self).size + 1,
            final(self).periodic == old(self).periodic,
            widened_lower(final(self).min_bounds, old(self).min_bounds, *point),
            widened_upper(final(self).max_bounds, old(self).max_bounds, *point),
            old(self).tight() ==> final(self).tight(),
    {
        self.extend(point);
        match &mut self.content {
            Node::Leaf { points, bucket, .. } => {
                points.push(*point);
                bucket.push(data);
            },
            Node::Stem { .. } => {},
        }
        self.size += 1;
        proof {
            let before = old(self).entries();
            let after = self.entries();
            assert(after =~= before.push((*point, data)));
            if self.periodic is Some {
                assert forall|i: int| 0 <= i < after.len() implies in_cell(
                    (#[trigger] after[i]).0,
                    self.periodic.unwrap(),
                ) by {
                    if i < before.len() {
                        assert(in_cell(before[i].0, old(self).periodic.unwrap()));
                    }
                }
            }
            assert forall|i: int| 0 <= i < after.len() implies in_box(
                (#[trigger] after[i]).0,
                self.min_bounds,
                self.max_bounds,
            ) by {
                if i < before.len() {
                    assert(in_box(before[i].0, old(self).min_bounds, old(self).max_bounds));
                }
            }
            if old(self).tight() {
                let last = before.len() as int;
                assert(after[last].0 == *point);
                assert forall|d: int| 0 <= d < K implies #[trigger] self.touches_lower(d) by {
                    if before.len() == 0 {
                        assert(old(self).void_on(d));
                        assert(after[last].0@[d] == self.min_bounds@[d]);
                    } else if point@[d] < old(self).min_bounds@[d] {
                        assert(after[last].0@[d] == self.min_bounds@[d]);
                    } else {
                        assert(old(self).touches_lower(d));
                        let i = choose|i: int|
                            0 <= i < before.len() && (#[trigger] before[i]).0@[d] == old(
                                self,
                            ).min_bounds@[d];
                        assert(after[i].0@[d] == self.min_bounds@[d]);
                    }
                }
                assert forall|d: int| 0 <= d < K implies #[trigger] self.touches_upper(d) by {
                    if before.len() == 0 {
                        assert(old(self).void_on(d));
                        assert(after[last].0@[d] == self.max_bounds@[d]);
                    } else if point@[d] > old(self).max_bounds@[d] {
                        assert(after[last].0@[d] == self.max_bounds@[d]);
                    } else {
                        assert(old(self).touches_upper(d));
                        let i = choose|i: int|
                            0 <= i < before.len() && (#[trigger] before[i]).0@[d] == old(
                                self,
                            ).max_bounds@[d];
                        assert(after[i].0@[d] == self.max_bounds@[d]);
                    }
                }
                assert(after.len() > 0);
                assert(self.tight());
            }
        }
    }

    /// 0 for a tree whose bounding box is tight, 1 for another.
    pub open(crate) spec fn slack(self) -> nat {
        if self.tight() {
            0
        } else {
            1
        }
    }

    /// Whether every point of `items` lies below `cut` on axis `d`.
    pub open(crate) spec fn all_below(items: Seq<([i64; K], T)>, d: int, cut: i64) -> bool {
        forall|i: int| 0 <= i < items.len() ==> (#[trigger] items[i]).0@[d] < cut
    }

    /// Whether every point of `items` lies at or above `cut` on axis `d`.
    pub open(crate) spec fn all_at_or_above(items: Seq<([i64; K], T)>, d: int, cut: i64) -> bool {
        forall|i: int| 0 <= i < items.len() ==> (#[trigger] items[i]).0@[d] >= cut
    }

    /// Where the items of `all` are dealt out to two sequences, one that
    /// holds only points below `cut` and one that holds only points at or
    /// above it, and `all` has a point on either side, neither sequence is
    /// empty.
    pub(crate) proof fn lemma_both_sides_taken(
        all: Seq<([i64; K], T)>,
        below: Seq<([i64; K], T)>,
        above: Seq<([i64; K], T)>,
        d: int,
        cut: i64,
        i_low: int,
        i_high: int,
    )
        requires
            below.to_multiset().add(above.to_multiset()) =~= all.to_multiset(),
            Self::all_below(below, d, cut),
            Self::all_at_or_above(above, d, cut),
            0 <= d < K,
            0 <= i_low < all.len(),
            0 <= i_high < all.len(),
            all[i_low].0@[d] < cut,
            all[i_high].0@[d] >= cut,
        ensures
            below.len() > 0,
            above.len() > 0,
            below.len() + above.len() == all.len(),
    {
        broadcast use vstd::multiset::group_multiset_axioms;

        all.to_multiset_ensures();
        below.to_multiset_ensures();
        above.to_multiset_ensures();
        assert(all.contains(all[i_low]));
        assert(all.contains(all[i_high]));
        assert(all.to_multiset().count(all[i_low]) == below.to_multiset().count(all[i_low])
            + above.to_multiset().count(all[i_low]));
        assert(all.to_multiset().count(all[i_high]) == below.to_multiset().count(all[i_high])
            + above.to_multiset().count(all[i_high]));
        if above.contains(all[i_low]) {
            let j = choose|j: int| 0 <= j < above.len() && above[j] == all[i_low];
            assert(above[j].0@[d] >= cut);
        }
        assert(below.contains(all[i_low]));
        if below.contains(all[i_high]) {
            let j = choose|j: int| 0 <= j < below.len() && below[j] == all[i_high];
            assert(below[j].0@[d] < cut);
        }
        assert(above.contains(all[i_high]));
        vstd::seq_lib::lemma_multiset_commutative(below, above);
        (below + above).to_multiset_ensures();
    }

    /// Turns this leaf into a stem, unless its bounding box has no extent:
    /// the box is cut at the midpoint of its widest axis, the points below
    /// the cut go to a new left leaf and the others to a new right leaf, and
    /// a new leaf that is over its capacity is split in turn.
    pub(crate) fn split(&mut self)
        requires
            old(self).wf_but_capacity(),
            old(self).content is Leaf,
        ensures
            final(self).wf(),
            final(self).entries().to_multiset() =~= old(self).entries().to_multiset(),
            final(self).size == old(self).size,
            final(self).min_bounds == old(self).min_bounds,
            final(self).max_bounds == old(self).max_bounds,
            final(self).periodic == old(self).periodic,
            final(self).spec_capacity() == old(self).spec_capacity(),
            final(self).content is Leaf <==> old(self).degenerate(),
            final(self).content is Leaf ==> final(self).content == old(self).content,
            final(self).content matches Node::Stem { split_dimension, split_value, .. }
                ==> is_cut_of(
                old(self).min_bounds,
                old(self).max_bounds,
                split_dimension,
                split_value,
            ),
        decreases old(self).size, old(self).slack(),
    {
        let axis = widest_axis(&self.min_bounds, &self.max_bounds);
        match axis {
            None => {
                assert(self.degenerate());
            },
            Some(d) => {
                let cut = midpoint(self.min_bounds[d], self.max_bounds[d]);
                let periodic = self.periodic;
                let ghost all = self.entries();
                let ghost lo = self.min_bounds;
                let ghost hi = self.max_bounds;
                assert(!self.degenerate()) by {
                    assert(!(self.max_bounds@[d as int] <= self.min_bounds@[d as int]));
                }
                let mut taken: Node<T, K> = Node::Leaf {
                    points: Vec::new(),
                    bucket: Vec::new(),
                    capacity: 1,
                };
                std::mem::swap(&mut self.content, &mut taken);
                match taken {
                    Node::Leaf { mut points, mut bucket, capacity } => {
                        let mut left = Self::empty_leaf(capacity, periodic);
                        let mut right = Self::empty_leaf(capacity, periodic);
                        proof {
                            assert(Seq::new(points@.len(), |i: int| (points@[i], bucket@[i]))
                                =~= all);
                            if periodic is Some {
                                assert forall|i: int| 0 <= i < points@.len() implies in_cell(
                                    #[trigger] points@[i],
                                    periodic.unwrap(),
                                ) by {
                                    assert(in_cell(all[i].0, periodic.unwrap()));
                                }
                            }
                            lemma_empty_multiset(left.entries());
                            lemma_empty_multiset(right.entries());
                        }
                        while points.len() > 0
                            invariant
                                points@.len() == bucket@.len(),
                                d < K,
                                all.len() <= usize::MAX,
                                left.wf_but_capacity(),
                                left.content is Leaf,
                                left.spec_capacity() == capacity,
                                left.tight(),
                                left.periodic == periodic,
                                right.wf_but_capacity(),
                                right.content is Leaf,
                                right.spec_capacity() == capacity,
                                right.tight(),
                                right.periodic == periodic,
                                left.size + right.size + points@.len() == all.len(),
                                Seq::new(
                                    points@.len(),
                                    |i: int| (points@[i], bucket@[i]),
                                ).to_multiset().add(left.entries().to_multiset()).add(
                                    right.entries().to_multiset(),
                                ) =~= all.to_multiset(),
                                Self::all_below(left.entries(), d as int, cut),
                                Self::all_at_or_above(right.entries(), d as int, cut),
                                periodic matches Some(l) ==> forall|i: int|
                                    0 <= i < points@.len() ==> in_cell(#[trigger] points@[i], l),
                            decreases points@.len(),
                        {
                            let ghost rest = Seq::new(
                                points@.len(),
                                |i: int| (points@[i], bucket@[i]),
                            );
                            let ghost left_before = left.entries();
                            let ghost right_before = right.entries();
                            let point = points.pop().unwrap();
                            let data = bucket.pop().unwrap();
                            let ghost item = (point, data);
                            proof {
                                lemma_pop_multiset(rest);
                                assert(rest.drop_last() =~= Seq::new(
                                    points@.len(),
                                    |i: int| (points@[i], bucket@[i]),
                                ));
                                assert(rest.last() == item);
                            }
                            if point[d] < cut {
                                left.push_to_bucket(&point, data);
                                proof {
                                    vstd::seq_lib::to_multiset_build(left_before, item);
                                }
                            } else {
                                right.push_to_bucket(&point, data);
                                proof {
                                    vstd::seq_lib::to_multiset_build(right_before, item);
                                }
                            }
                        }
                        proof {
                            lemma_empty_multiset(
                                Seq::new(points@.len(), |i: int| (points@[i], bucket@[i])),
                            );
                            assert(left.entries().to_multiset().add(right.entries().to_multiset())
                                =~= all.to_multiset());
                            if old(self).tight() {
                                if all.len() == 0 {
                                    assert(old(self).void_on(d as int));
                                }
                                assert(old(self).touches_lower(d as int));
                                assert(old(self).touches_upper(d as int));
                                let i_low = choose|i: int|
                                    0 <= i < all.len() && (#[trigger] all[i]).0@[d as int]
                                        == lo@[d as int];
                                let i_high = choose|i: int|
                                    0 <= i < all.len() && (#[trigger] all[i]).0@[d as int]
                                        == hi@[d as int];
                                Self::lemma_both_sides_taken(
                                    all,
                                    left.entries(),
                                    right.entries(),
                                    d as int,
                                    cut,
                                    i_low,
                                    i_high,
                                );
                            }
                        }
                        let ghost left_dealt = left.entries();
                        let ghost right_dealt = right.entries();
                        if left.size > capacity {
                            left.split();
                        }
                        if right.size > capacity {
                            right.split();
                        }
                        proof {
                            lemma_holds_of_selection(
                                left_dealt,
                                left.entries(),
                                |e: ([i64; K], T)| e.0@[d as int] < cut,
                            );
                            lemma_holds_of_selection(
                                right_dealt,
                                right.entries(),
                                |e: ([i64; K], T)| e.0@[d as int] >= cut,
                            );
                            vstd::seq_lib::lemma_multiset_commutative(
                                left.entries(),
                                right.entries(),
                            );
                            (left.entries() + right.entries()).to_multiset_ensures();
                            all.to_multiset_ensures();
                            lemma_holds_of_selection(
                                all,
                                left.entries() + right.entries(),
                                |e: ([i64; K], T)| in_box(e.0, lo, hi),
                            );
                            if periodic is Some {
                                lemma_holds_of_selection(
                                    all,
                                    left.entries() + right.entries(),
                                    |e: ([i64; K], T)| in_cell(e.0, periodic.unwrap()),
                                );
                            }
                        }
                        self.content =
                        Node::Stem {
                            left: Box::new(left),
                            right: Box::new(right),
                            split_value: cut,
                            split_dimension: d,
                        };
                    },
                    other => {
                        self.content = other;
                    },
                }
            },
        }
    }

    /// How a tree changes when the pair of `point` and `data` is added
    /// beneath it. It holds the pair besides what it held, records one pair
    /// more, keeps its period, and its box is widened just to contain the
    /// point. A leaf that stays a leaf has the pair at the end of its
    /// bucket. A leaf that is split is cut on the widest axis of its box, at
    /// the midpoint. A stem keeps its cut; the subtree on the point's side
    /// of the cut, the left one for a point below it, changes in this same
    /// way, and the other subtree stays as it is.
    pub open(crate) spec fn grown_by(before: Self, after: Self, point: [i64; K], data: T) -> bool
        decreases before,
    {
        &&& after.size == before.size + 1
        &&& after.periodic == before.periodic
        &&& widened_lower(after.min_bounds, before.min_bounds, point)
        &&& widened_upper(after.max_bounds, before.max_bounds, point)
        &&& after.entries().to_multiset() =~= before.entries().to_multiset().insert((point, data))
        &&& match (before.content, after.content) {
            (Node::Leaf { .. }, Node::Leaf { .. }) => after.entries() =~= before.entries().push(
                (point, data),
            ),
            (Node::Leaf { .. }, Node::Stem { split_dimension, split_value, .. }) => is_cut_of(
                after.min_bounds,
                after.max_bounds,
                split_dimension,
                split_value,
            ),
            (
                Node::Stem { left, right, split_dimension, split_value },
                Node::Stem {
                    left: left_after,
                    right: right_after,
                    split_dimension: axis_after,
                    split_value: cut_after,
                },
            ) => {
                &&& axis_after == split_dimension
                &&& cut_after == split_value
                &&& point@[split_dimension as int] < split_value ==> right_after == right
                    && Self::grown_by(*left, *left_after, point, data)
                &&& point@[split_dimension as int] >= split_value ==> left_after == left
                    && Self::grown_by(*right, *right_after, point, data)
            },
            (Node::Stem { .. }, Node::Leaf { .. }) => false,
        }
    }

    /// Adds a pair to this leaf, and splits the leaf if that takes it over
    /// its capacity.
    pub(crate) fn add_to_bucket(&mut self, point: &[i64; K], data: T)
        requires
            old(self).wf(),
            old(self).content is Leaf,
            old(self).size < usize::MAX,
            old(self).admits(*point),
        ensures
            final(self).wf(),
            final(self).entries().to_multiset() =~= old(self).entries().to_multiset().insert(
                (*point, data),
            ),
            final(self).size == old(self).size + 1,
            final(self).periodic == old(self).periodic,
            final(self).spec_capacity() == old(self).spec_capacity(),
            final(self).content is Leaf <==> old(self).size < old(self).spec_capacity()
                || final(self).degenerate(),
            Self::grown_by(*old(self), *final(self), *point, data),
            final(self).content matches Node::Stem { split_dimension, split_value, .. }
                ==> is_cut_of(
                final(self).min_bounds,
                final(self).max_bounds,
                split_dimension,
                split_value,
            ),
            widened_lower(final(self).min_bounds, old(self).min_bounds, *point),
            widened_upper(final(self).max_bounds, old(self).max_bounds, *point),
    {
        let ghost item = (*point, data);
        self.push_to_bucket(point, data);
        proof {
            vstd::seq_lib::to_multiset_build(old(self).entries(), item);
        }
        let capacity = match &self.content {
            Node::Leaf { capacity, .. } => *capacity,
            Node::Stem { .. } => 0,
        };
        if self.size > capacity {
            self.split();
        }
    }

    /// Adds a pair beneath this tree without checking its point: down to
    /// the leaf on the point's side of each cut, widening each bounding box
    /// on the way.
    pub(crate) fn add_unchecked(&mut self, point: &[i64; K], data: T) -> (r: Result<
        (),
        ErrorKind,
    >)
        requires
            old(self).wf(),
            old(self).size < usize::MAX,
            old(self).admits(*point),
        ensures
            r == Ok::<(), ErrorKind>(()),
            final(self).wf(),
            final(self).entries().to_multiset() =~= old(self).entries().to_multiset().insert(
                (*point, data),
            ),
            final(self).size == old(self).size + 1,
            final(self).periodic == old(self).periodic,
            final(self).spec_capacity() == old(self).spec_capacity(),
            final(self).content is Leaf <==> old(self).content is Leaf && (old(self).size < old(
                self,
            ).spec_capacity() || final(self).degenerate()),
            Self::grown_by(*old(self), *final(self), *point, data),
            widened_lower(final(self).min_bounds, old(self).min_bounds, *point),
            widened_upper(final(self).max_bounds, old(self).max_bounds, *point),
        decreases *old(self),
    {
        if self.is_leaf() {
            self.add_to_bucket(point, data);
            return Ok(());
        }
        let ghost item = (*point, data);
        let ghost before = self.entries();
        let ghost left_before = old(self).content->Stem_left.entries();
        let ghost right_before = old(self).content->Stem_right.entries();
        let ghost axis = old(self).content->Stem_split_dimension as int;
        let ghost cut = old(self).content->Stem_split_value;
        proof {
            assert(before =~= left_before + right_before);
            old(self).content->Stem_left.lemma_size_and_bounds();
            old(self).content->Stem_right.lemma_size_and_bounds();
        }
        let res = match &mut self.content {
            Node::Leaf { .. } => Ok(()),
            Node::Stem { left, right, split_dimension, split_value } => {
                proof {
                    vstd::seq_lib::lemma_multiset_commutative(left_before, right_before);
                    (left_before + right_before).to_multiset_ensures();
                    left_before.to_multiset_ensures();
                    right_before.to_multiset_ensures();
                }
                if point[*split_dimension] < *split_value {
                    left.add_unchecked(point, data)
                } else {
                    right.add_unchecked(point, data)
                }
            },
        };
        self.extend(point);
        self.size += 1;
        proof {
            let left_after = self.content->Stem_left.entries();
            let right_after = self.content->Stem_right.entries();
            let after = self.entries();
            let grown = before.push(item);
            vstd::seq_lib::lemma_multiset_commutative(left_before, right_before);
            vstd::seq_lib::lemma_multiset_commutative(left_after, right_after);
            vstd::seq_lib::to_multiset_build(before, item);
            vstd::seq_lib::to_multiset_build(left_before, item);
            vstd::seq_lib::to_multiset_build(right_before, item);
            assert(after.to_multiset() =~= grown.to_multiset());
            after.to_multiset_ensures();
            grown.to_multiset_ensures();
            let lo = self.min_bounds;
            let hi = self.max_bounds;
            assert forall|i: int| 0 <= i < grown.len() implies in_box(
                (#[trigger] grown[i]).0,
                lo,
                hi,
            ) by {
                if i < before.len() {
                    assert(in_box(before[i].0, old(self).min_bounds, old(self).max_bounds));
                }
            }
            lemma_holds_of_selection(grown, after, |e: ([i64; K], T)| in_box(e.0, lo, hi));
            if self.periodic is Some {
                let l = self.periodic.unwrap();
                assert forall|i: int| 0 <= i < grown.len() implies in_cell(
                    (#[trigger] grown[i]).0,
                    l,
                ) by {
                    if i < before.len() {
                        assert(in_cell(before[i].0, l));
                    }
                }
                lemma_holds_of_selection(grown, after, |e: ([i64; K], T)| in_cell(e.0, l));
            }
            if point@[axis] < cut {
                lemma_holds_of_selection(
                    left_before.push(item),
                    left_after,
                    |e: ([i64; K], T)| e.0@[axis] < cut,
                );
            } else {
                lemma_holds_of_selection(
                    right_before.push(item),
                    right_after,
                    |e: ([i64; K], T)| e.0@[axis] >= cut,
                );
            }
        }
        res
    }

    /// Adds the pair of `point` and `data` to the tree. A point with a
    /// coordinate that is not finite, or outside the cell of a periodic
    /// tree, is refused, and the tree is then left as it was.
    pub fn add(&mut self, point: &[i64; K], data: T) -> (r: Result<(), ErrorKind>)
        requires
            old(self).wf(),
            old(self).spec_size() < usize::MAX,
        ensures
            r == spec_check_point(*point, old(self).spec_periodic()),
            r is Err ==> *final(self) == *old(self),
            r is Ok ==> {
                &&& final(self).wf()
                &&& final(self).entries().to_multiset() =~= old(
                    self,
                ).entries().to_multiset().insert((*point, data))
                &&& final(self).spec_size() == old(self).spec_size() + 1
                &&& final(self).spec_periodic() == old(self).spec_periodic()
                &&& final(self).spec_capacity() == old(self).spec_capacity()
                &&& final(self).spec_is_leaf() <==> old(self).spec_is_leaf() && (old(
                    self,
                ).spec_size() < old(self).spec_capacity() || final(self).degenerate())
                &&& Self::grown_by(*old(self), *final(self), *point, data)
                &&& widened_lower(final(self).spec_min_bounds(), old(self).spec_min_bounds(), *point)
                &&& widened_upper(final(self).spec_max_bounds(), old(self).spec_max_bounds(), *point)
            },
    {
        match self.check_point(point) {
            Err(e) => Err(e),
            Ok(()) => self.add_unchecked(point, data),
        }
    }

    /// How a tree changes when every pair of `point` with a payload equal to
    /// `data` is removed beneath it. It keeps its box and its period, holds
    /// only pairs that it held and, where payloads are compared as their
    /// contract says, just those that were not asked for. A leaf stays a
    /// leaf of the same capacity; a stem stays a stem with the same cut, and
    /// each of its subtrees changes in this same way.
    pub open(crate) spec fn pruned_of(before: Self, after: Self, point: [i64; K], data: T) -> bool where
        T: PartialEq,

        decreases before,
    {
        &&& after.min_bounds == before.min_bounds
        &&& after.max_bounds == before.max_bounds
        &&& after.periodic == before.periodic
        &&& after.entries().to_multiset().subset_of(before.entries().to_multiset())
        &&& T::obeys_eq_spec() ==> after.entries().to_multiset() =~= left_in_place(
            before.entries().to_multiset(),
            point,
            data,
        )
        &&& match (before.content, after.content) {
            (Node::Leaf { capacity, .. }, Node::Leaf { capacity: capacity_after, .. }) =>
                capacity_after == capacity,
            (
                Node::Stem { left, right, split_dimension, split_value },
                Node::Stem {
                    left: left_after,
                    right: right_after,
                    split_dimension: axis_after,
                    split_value: cut_after,
                },
            ) => {
                &&& axis_after == split_dimension
                &&& cut_after == split_value
                &&& Self::pruned_of(*left, *left_after, point, data)
                &&& Self::pruned_of(*right, *right_after, point, data)
            },
            _ => false,
        }
    }

    /// Removes beneath this tree every pair of the given point with a
    /// payload equal to `data`, and returns how many there were.
    pub(crate) fn remove_unchecked(&mut self, point: &[i64; K], data: &T) -> (removed: usize) where
        T: PartialEq,

        requires
            old(self).wf(),
        ensures
            final(self).wf(),
            final(self).size + removed == old(self).size,
            final(self).entries().to_multiset().subset_of(old(self).entries().to_multiset()),
            T::obeys_eq_spec() ==> final(self).entries().to_multiset() =~= left_in_place(
                old(self).entries().to_multiset(),
                *point,
                *data,
            ),
            final(self).min_bounds == old(self).min_bounds,
            final(self).max_bounds == old(self).max_bounds,
            final(self).periodic == old(self).periodic,
            final(self).spec_capacity() == old(self).spec_capacity(),
            final(self).content is Leaf <==> old(self).content is Leaf,
            Self::pruned_of(*old(self), *final(self), *point, *data),
        decreases *old(self),
    {
        broadcast use vstd::multiset::group_multiset_axioms;

        let ghost all = self.entries();
        let ghost lo = self.min_bounds;
        let ghost hi = self.max_bounds;
        let ghost keep = |e: ([i64; K], T)| !is_asked_for(*point, *data, e);
        let mut removed: usize = 0;
        match &mut self.content {
            Node::Leaf { points, bucket, .. } => {
                let mut i: usize = 0;
                proof {
                    assert(Seq::new(points@.len(), |j: int| (points@[j], bucket@[j])) =~= all);
                }
                while i < points.len()
                    invariant
                        points@.len() == bucket@.len(),
                        0 <= i <= points@.len(),
                        points@.len() + removed == all.len(),
                        all.len() <= usize::MAX,
                        keep == |e: ([i64; K], T)| !is_asked_for(*point, *data, e),
                        Seq::new(
                            points@.len(),
                            |j: int| (points@[j], bucket@[j]),
                        ).to_multiset().subset_of(all.to_multiset()),
                        T::obeys_eq_spec() ==> Seq::new(
                            points@.len(),
                            |j: int| (points@[j], bucket@[j]),
                        ).to_multiset().filter(keep) =~= all.to_multiset().filter(keep),
                        T::obeys_eq_spec() ==> forall|j: int|
                            0 <= j < i ==> keep((#[trigger] points@[j], bucket@[j])),
                    decreases points@.len() - i,
                {
                    let ghost cur = Seq::new(points@.len(), |j: int| (points@[j], bucket@[j]));
                    if same_point(&points[i], point) && bucket[i] == *data {
                        points.swap_remove(i);
                        bucket.swap_remove(i);
                        removed += 1;
                        proof {
                            lemma_swap_remove_multiset(cur, i as int);
                            assert(cur.update(i as int, cur.last()).drop_last() =~= Seq::new(
                                points@.len(),
                                |j: int| (points@[j], bucket@[j]),
                            ));
                            if T::obeys_eq_spec() {
                                assert(!keep(cur[i as int]));
                            }
                        }
                    } else {
                        proof {
                            if T::obeys_eq_spec() {
                                assert(keep(cur[i as int]));
                            }
                        }
                        i += 1;
                    }
                }
                proof {
                    let rest = Seq::new(points@.len(), |j: int| (points@[j], bucket@[j]));
                    if T::obeys_eq_spec() {
                        assert forall|j: int| 0 <= j < rest.len() implies keep(
                            #[trigger] rest[j],
                        ) by {
                            assert(keep((points@[j], bucket@[j])));
                        }
                        lemma_filter_keeps_all(rest, keep);
                    }
                    lemma_holds_of_selection(all, rest, |e: ([i64; K], T)| in_box(e.0, lo, hi));
                    if old(self).periodic is Some {
                        let l = old(self).periodic.unwrap();
                        lemma_holds_of_selection(all, rest, |e: ([i64; K], T)| in_cell(e.0, l));
                    }
                }
            },
            Node::Stem { left, right, split_dimension, split_value } => {
                let ghost left_before = left.entries();
                let ghost right_before = right.entries();
                let ghost axis = *split_dimension as int;
                let ghost cut = *split_value;
                proof {
                    left.lemma_size_and_bounds();
                    right.lemma_size_and_bounds();
                }
                let right_removed = right.remove_unchecked(point, data);
                let left_removed = left.remove_unchecked(point, data);
                removed = right_removed + left_removed;
                proof {
                    let left_after = left.entries();
                    let right_after = right.entries();
                    vstd::seq_lib::lemma_multiset_commutative(left_before, right_before);
                    vstd::seq_lib::lemma_multiset_commutative(left_after, right_after);
                    lemma_holds_of_selection(
                        left_before,
                        left_after,
                        |e: ([i64; K], T)| e.0@[axis] < cut,
                    );
                    lemma_holds_of_selection(
                        right_before,
                        right_after,
                        |e: ([i64; K], T)| e.0@[axis] >= cut,
                    );
                    lemma_holds_of_selection(
                        all,
                        left_after + right_after,
                        |e: ([i64; K], T)| in_box(e.0, lo, hi),
                    );
                    if old(self).periodic is Some {
                        let l = old(self).periodic.unwrap();
                        lemma_holds_of_selection(
                            all,
                            left_after + right_after,
                            |e: ([i64; K], T)| in_cell(e.0, l),
                        );
                    }
                    if T::obeys_eq_spec() {
                        assert((left_after + right_after).to_multiset() =~= all.to_multiset().filter(
                            keep,
                        ));
                    }
                }
            },
        }
        self.size -= removed;
        removed
    }

    /// Removes from the tree every pair of the given point with a payload
    /// equal to `data`, and returns how many there were. Bounding boxes keep
    /// their extent, and no stem turns back into a leaf. A point that `add`
    /// would refuse is refused here too, and the tree left as it was.
    pub fn remove(&mut self, point: &[i64; K], data: &T) -> (r: Result<usize, ErrorKind>) where
        T: PartialEq,

        requires
            old(self).wf(),
        ensures
            r is Err <==> spec_check_point(*point, old(self).spec_periodic()) is Err,
            r matches Err(e) ==> spec_check_point(*point, old(self).spec_periodic()) == Err::<
                (),
                ErrorKind,
            >(e) && *final(self) == *old(self),
            r matches Ok(removed) ==> {
                &&& final(self).wf()
                &&& final(self).spec_size() + removed == old(self).spec_size()
                &&& final(self).entries().to_multiset().subset_of(
                    old(self).entries().to_multiset(),
                )
                &&& T::obeys_eq_spec() ==> final(self).entries().to_multiset() =~= left_in_place(
                    old(self).entries().to_multiset(),
                    *point,
                    *data,
                )
                &&& final(self).spec_min_bounds() == old(self).spec_min_bounds()
                &&& final(self).spec_max_bounds() == old(self).spec_max_bounds()
                &&& final(self).spec_periodic() == old(self).spec_periodic()
                &&& final(self).spec_capacity() == old(self).spec_capacity()
                &&& final(self).spec_is_leaf() == old(self).spec_is_leaf()
                &&& Self::pruned_of(*old(self), *final(self), *point, *data)
            },
    {
        match self.check_point(point) {
            Err(e) => Err(e),
            Ok(()) => Ok(self.remove_unchecked(point, data)),
        }
    }
}

} // verus!
