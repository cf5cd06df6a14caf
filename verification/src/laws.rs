//! What holds of every well-formed tree and of the answers to every query.

use crate::distance::squared_euclidean_model;
use crate::lemmas::lemma_pop_multiset;
use crate::metric::{spec_period_bound, tree_distance};
use crate::nearest::{is_nearest, is_within};
use crate::nearest_one::{is_nearest_one, is_plainly_nearest};
use crate::periodic::{images_for, lemma_least_of_searches, stored_in_cell, wraps};
use crate::search::{ascending, scored};
use crate::tree::{in_box, in_cell, KdTree, Node};
use crate::wrapping::{lemma_squared_euclidean_wraps, small_enough};
use vstd::multiset::Multiset;
use vstd::prelude::*;
use vstd::relations::{sorted_by, total_ordering};

verus! {

/// Every tree beneath a well-formed tree is well formed, and has the
/// tree's period.
pub proof fn lemma_subtrees_well_formed<T, const K: usize>(root: KdTree<T, K>, t: KdTree<T, K>)
    requires
        root.wf(),
        root.has_subtree(t),
    ensures
        t.wf(),
        t.spec_periodic() == root.spec_periodic(),
    decreases root,
{
    if root != t {
        match root.spec_content() {
            Node::Leaf { .. } => {},
            Node::Stem { left, right, .. } => {
                if left.has_subtree(t) {
                    lemma_subtrees_well_formed(*left, t);
                } else {
                    lemma_subtrees_well_formed(*right, t);
                }
            },
        }
    }
}

/// The split invariant: at every stem of a well-formed tree, each point
/// beneath the left subtree lies below the split value on the split axis,
/// and each point beneath the right subtree lies at it or above.
pub proof fn lemma_split_invariant<T, const K: usize>(root: KdTree<T, K>, t: KdTree<T, K>)
    requires
        root.wf(),
        root.has_subtree(t),
        t.spec_content() is Stem,
    ensures
        t.spec_content()->Stem_split_dimension < K,
        forall|i: int|
            0 <= i < t.spec_content()->Stem_left.entries().len() ==> (
            #[trigger] t.spec_content()->Stem_left.entries()[i]).0@[t.spec_content()->Stem_split_dimension as int]
                < t.spec_content()->Stem_split_value,
        forall|i: int|
            0 <= i < t.spec_content()->Stem_right.entries().len() ==> (
            #[trigger] t.spec_content()->Stem_right.entries()[i]).0@[t.spec_content()->Stem_split_dimension as int]
                >= t.spec_content()->Stem_split_value,
{
    lemma_subtrees_well_formed(root, t);
}

/// Size accounting within a tree: every tree beneath a well-formed tree
/// records as its size the number of pairs in the leaves beneath it, and a
/// stem holds what its two subtrees hold.
pub proof fn lemma_size_is_count<T, const K: usize>(root: KdTree<T, K>, t: KdTree<T, K>)
    requires
        root.wf(),
        root.has_subtree(t),
    ensures
        t.spec_size() == t.entries().len(),
        t.spec_content() matches Node::Stem { left, right, .. } ==> t.spec_size()
            == left.spec_size() + right.spec_size(),
{
    lemma_subtrees_well_formed(root, t);
    t.lemma_size_and_bounds();
    match t.spec_content() {
        Node::Leaf { .. } => {},
        Node::Stem { left, right, .. } => {
            left.lemma_size_and_bounds();
            right.lemma_size_and_bounds();
        },
    }
}

/// The leaf threshold: a leaf of a well-formed tree holds no more pairs
/// than its capacity, unless all its points are one and the same point,
/// which no plane can part.
pub proof fn lemma_leaf_threshold<T, const K: usize>(root: KdTree<T, K>, t: KdTree<T, K>)
    requires
        root.wf(),
        root.has_subtree(t),
        t.spec_content() is Leaf,
    ensures
        t.entries().len() <= t.spec_content()->Leaf_capacity || forall|i: int, j: int|
            0 <= i < t.entries().len() && 0 <= j < t.entries().len() ==> t.entries()[i].0
                == t.entries()[j].0,
{
    lemma_subtrees_well_formed(root, t);
    t.lemma_size_and_bounds();
    if t.entries().len() > t.spec_content()->Leaf_capacity {
        assert(t.degenerate());
        assert forall|i: int, j: int|
            0 <= i < t.entries().len() && 0 <= j < t.entries().len() implies t.entries()[i].0
            == t.entries()[j].0 by {
            let a = t.entries()[i].0;
            let b = t.entries()[j].0;
            assert(in_box(a, t.spec_min_bounds(), t.spec_max_bounds()));
            assert(in_box(b, t.spec_min_bounds(), t.spec_max_bounds()));
            assert forall|d: int| 0 <= d < K implies a@[d] == b@[d] by {
                assert(t.spec_max_bounds()@[d] <= t.spec_min_bounds()@[d]);
                assert(t.spec_min_bounds()@[d] <= a@[d] <= t.spec_max_bounds()@[d]);
                assert(t.spec_min_bounds()@[d] <= b@[d] <= t.spec_max_bounds()@[d]);
            }
            assert(a =~= b);
        }
    }
}

/// Bounding boxes contain: every point stored beneath a tree of a
/// well-formed tree lies in that tree's bounding box, and so in the box of
/// each tree above it.
pub proof fn lemma_boxes_contain<T, const K: usize>(
    root: KdTree<T, K>,
    above: KdTree<T, K>,
    t: KdTree<T, K>,
    i: int,
)
    requires
        root.wf(),
        root.has_subtree(above),
        above.has_subtree(t),
        0 <= i < t.entries().len(),
    ensures
        in_box(t.entries()[i].0, t.spec_min_bounds(), t.spec_max_bounds()),
        in_box(t.entries()[i].0, above.spec_min_bounds(), above.spec_max_bounds()),
{
    lemma_subtrees_well_formed(root, above);
    lemma_subtrees_well_formed(above, t);
    t.lemma_size_and_bounds();
    above.lemma_size_and_bounds();
    let j = lemma_held_above(above, t, i);
    assert(in_box(above.entries()[j].0, above.spec_min_bounds(), above.spec_max_bounds()));
}

/// What a tree holds, each tree above it holds too.
pub proof fn lemma_held_above<T, const K: usize>(above: KdTree<T, K>, t: KdTree<T, K>, i: int) -> (j:
    int)
    requires
        above.has_subtree(t),
        0 <= i < t.entries().len(),
    ensures
        0 <= j < above.entries().len(),
        above.entries()[j] == t.entries()[i],
    decreases above,
{
    if above == t {
        i
    } else {
        match above.spec_content() {
            Node::Leaf { .. } => 0,
            Node::Stem { left, right, .. } => {
                if left.has_subtree(t) {
                    lemma_held_above(*left, t, i)
                } else {
                    let j = lemma_held_above(*right, t, i);
                    left.entries().len() + j
                }
            },
        }
    }
}

/// What one call does to the size of a tree.
pub enum Event {
    /// An `add` that returned `Ok`.
    Added,
    /// An `add` or a `remove` that returned `Err`.
    Refused,
    /// A `remove` that returned `Ok` with this number.
    Removed(usize),
}

/// The number of `Added` events in `history`, less the sum of the numbers of
/// its `Removed` events.
pub open spec fn balance(history: Seq<Event>) -> int
    decreases history.len(),
{
    if history.len() == 0 {
        0
    } else {
        balance(history.drop_last()) + match history.last() {
            Event::Added => 1int,
            Event::Refused => 0int,
            Event::Removed(n) => -(n as int),
        }
    }
}

/// Whether `sizes` are the sizes of a tree that is empty at first, before
/// and after each call of `history`, as `add` and `remove` ensure them: one
/// more after an `add` that succeeds, the number returned less after a
/// `remove`, and the same after a refusal.
pub open spec fn sizes_follow(sizes: Seq<usize>, history: Seq<Event>) -> bool {
    &&& sizes.len() == history.len() + 1
    &&& sizes[0] == 0
    &&& forall|i: int|
        0 <= i < history.len() ==> match #[trigger] history[i] {
            Event::Added => sizes[i + 1] == sizes[i] + 1,
            Event::Refused => sizes[i + 1] == sizes[i],
            Event::Removed(n) => sizes[i + 1] + n == sizes[i],
        }
}

/// Size accounting over time: the size of a tree that was empty at first is
/// the number of its successful adds less the sum of what its removes
/// returned.
pub proof fn lemma_size_accounting(sizes: Seq<usize>, history: Seq<Event>)
    requires
        sizes_follow(sizes, history),
    ensures
        sizes.last() == balance(history),
    decreases history.len(),
{
    if history.len() > 0 {
        let earlier = history.drop_last();
        let before = sizes.drop_last();
        assert forall|i: int| 0 <= i < earlier.len() implies match #[trigger] earlier[i] {
            Event::Added => before[i + 1] == before[i] + 1,
            Event::Refused => before[i + 1] == before[i],
            Event::Removed(n) => before[i + 1] + n == before[i],
        } by {
            assert(earlier[i] == history[i]);
        }
        lemma_size_accounting(before, earlier);
        let last = history.len() - 1;
        assert(history[last] == history.last());
        assert(before.last() == sizes[last]);
    }
}

/// The distances of `s`, place by place.
pub open spec fn distances<T>(s: Seq<(i64, T)>) -> Seq<i64> {
    Seq::new(s.len(), |i: int| s[i].0)
}

/// The order of scalars.
pub open spec fn not_above() -> spec_fn(i64, i64) -> bool {
    |x: i64, y: i64| x <= y
}

/// Two sequences of the same pairs have the same distances, in whatever
/// order.
pub proof fn lemma_distances_of_same_pairs<T>(a: Seq<(i64, T)>, b: Seq<(i64, T)>)
    requires
        a.to_multiset() =~= b.to_multiset(),
    ensures
        distances(a).to_multiset() =~= distances(b).to_multiset(),
        a.len() == b.len(),
    decreases a.len(),
{
    broadcast use vstd::multiset::group_multiset_axioms;

    a.to_multiset_ensures();
    b.to_multiset_ensures();
    if a.len() == 0 {
        assert(distances(a) =~= distances(b));
    } else {
        let x = a.last();
        assert(a.contains(x));
        assert(b.to_multiset().count(x) > 0);
        assert(b.contains(x));
        let j = choose|j: int| 0 <= j < b.len() && b[j] == x;
        let shorter_a = a.drop_last();
        let shorter_b = b.remove(j);
        lemma_pop_multiset(a);
        vstd::seq_lib::to_multiset_remove(b, j);
        assert(shorter_a.to_multiset() =~= shorter_b.to_multiset());
        lemma_distances_of_same_pairs(shorter_a, shorter_b);
        assert(distances(a) =~= distances(shorter_a).push(x.0));
        vstd::seq_lib::to_multiset_build(distances(shorter_a), x.0);
        assert(distances(b).remove(j) =~= distances(shorter_b));
        vstd::seq_lib::to_multiset_remove(distances(b), j);
        distances(b).to_multiset_ensures();
        assert(distances(b)[j] == x.0);
        assert(distances(b).contains(x.0));
    }
}

/// Two sequences of the same pairs, each in the order of its distances,
/// show the same distances place by place: they differ at most in the order
/// of pairs at one distance.
pub proof fn lemma_same_distances<T>(a: Seq<(i64, T)>, b: Seq<(i64, T)>)
    requires
        ascending(a),
        ascending(b),
        a.to_multiset() =~= b.to_multiset(),
    ensures
        distances(a) =~= distances(b),
{
    lemma_distances_of_same_pairs(a, b);
    let leq = not_above();
    assert(total_ordering(leq));
    assert(sorted_by(distances(a), leq)) by {
        assert forall|i: int, j: int| 0 <= i < j < distances(a).len() implies #[trigger] leq(
            distances(a)[i],
            distances(a)[j],
        ) by {
            assert(a[i].0 <= a[j].0);
        }
    }
    assert(sorted_by(distances(b), leq)) by {
        assert forall|i: int, j: int| 0 <= i < j < distances(b).len() implies #[trigger] leq(
            distances(b)[i],
            distances(b)[j],
        ) by {
            assert(b[i].0 <= b[j].0);
        }
    }
    vstd::seq_lib::lemma_sorted_unique(distances(a), distances(b), leq);
}

/// The distances of what brute force finds: those of all pairs, sorted.
pub open spec fn sorted_distances<T>(all: Seq<(i64, T)>) -> Seq<i64> {
    distances(all).sort_by(not_above())
}

/// A sequence of scalars that never decreases is the sorted sequence of
/// its scalars.
pub proof fn lemma_ascending_is_sorted(s: Seq<i64>, all: Seq<i64>)
    requires
        forall|i: int, j: int| 0 <= i <= j < s.len() ==> s[i] <= s[j],
        s.to_multiset() =~= all.to_multiset(),
    ensures
        s =~= all.sort_by(not_above()),
{
    let leq = not_above();
    assert(total_ordering(leq));
    all.lemma_sort_by_ensures(leq);
    assert(sorted_by(s, leq)) by {
        assert forall|i: int, j: int| 0 <= i < j < s.len() implies #[trigger] leq(s[i], s[j]) by {
            assert(s[i] <= s[j]);
        }
    }
    vstd::seq_lib::lemma_sorted_unique(s, all.sort_by(leq), leq);
}

/// Query correctness of `nearest`: asked for as many pairs as the tree
/// holds, or more, it returns every pair, and their distances are those that
/// sorting all distances gives.
pub proof fn lemma_nearest_of_all_is_sorting<T>(
    all: Seq<(i64, T)>,
    num: usize,
    res: Seq<(i64, T)>,
    sound: bool,
)
    requires
        is_nearest(all, num, res, sound),
        num >= all.len(),
    ensures
        res.to_multiset() =~= all.to_multiset(),
        distances(res) =~= sorted_distances(all),
{
    lemma_distances_of_same_pairs(res, all);
    assert forall|i: int, j: int| 0 <= i <= j < distances(res).len() implies distances(res)[i]
        <= distances(res)[j] by {
        assert(res[i].0 <= res[j].0);
    }
    lemma_ascending_is_sorted(distances(res), distances(all));
}

/// The pairs of a filtered sequence are the filtered pairs of the
/// sequence.
pub proof fn lemma_filter_multiset<E>(s: Seq<E>, keep: spec_fn(E) -> bool)
    ensures
        s.filter(keep).to_multiset() =~= s.to_multiset().filter(keep),
    decreases s.len(),
{
    broadcast use vstd::multiset::group_multiset_axioms;

    if s.len() == 0 {
        assert(s.filter(keep) =~= Seq::<E>::empty());
        crate::lemmas::lemma_empty_multiset(s);
        crate::lemmas::lemma_empty_multiset(s.filter(keep));
    } else {
        let shorter = s.drop_last();
        let x = s.last();
        lemma_filter_multiset(shorter, keep);
        assert(s =~= shorter.push(x));
        vstd::seq_lib::to_multiset_build(shorter, x);
        Seq::lemma_filter_push(shorter, x, keep);
        if keep(x) {
            vstd::seq_lib::to_multiset_build(shorter.filter(keep), x);
        }
    }
}

/// Query correctness of `within`, where the search may rely on bounding
/// boxes: it returns the pairs that filtering all pairs by their distance
/// gives, and their distances are those that sorting the distances of these
/// gives.
pub proof fn lemma_within_is_filtering<T>(all: Seq<(i64, T)>, radius: i64, res: Seq<(i64, T)>)
    requires
        is_within(all, radius, res, true),
        ascending(res),
    ensures
        res.to_multiset() =~= all.filter(|x: (i64, T)| x.0 <= radius).to_multiset(),
        distances(res) =~= sorted_distances(all.filter(|x: (i64, T)| x.0 <= radius)),
{
    let near = |x: (i64, T)| x.0 <= radius;
    lemma_filter_multiset(all, near);
    lemma_distances_of_same_pairs(res, all.filter(near));
    assert forall|i: int, j: int| 0 <= i <= j < distances(res).len() implies distances(res)[i]
        <= distances(res)[j] by {
        assert(res[i].0 <= res[j].0);
    }
    lemma_ascending_is_sorted(distances(res), distances(all.filter(near)));
}

/// Query correctness on a periodic domain: the distance by which a
/// periodic tree ranks a stored point is the minimum-image distance, which
/// never exceeds the distance between the points as they stand, nor the sum
/// of the squares of the side lengths of the cell.
pub proof fn lemma_minimum_image_is_least<const K: usize>(
    m: spec_fn([i64; K], [i64; K]) -> i64,
    periodic: [i64; K],
    a: [i64; K],
    b: [i64; K],
)
    ensures
        tree_distance(m, Some(periodic), a, b) <= m(a, b),
        tree_distance(m, Some(periodic), a, b) <= spec_period_bound(periodic),
        tree_distance(m, None, a, b) == m(a, b),
{
    crate::metric::lemma_least_is_no_more_than_plain(m, periodic, a, b, 0);
}

/// Whether `walked` may be what a walk hands out, one pair at each call of
/// `next` until none remains, where `start` remains at first and the walk
/// may rely on bounding boxes: each pair is one of those that remain, and
/// none of the others that remain lies nearer.
pub open spec fn handed_out<T>(start: Multiset<(i64, T)>, walked: Seq<(i64, T)>) -> bool
    decreases walked.len(),
{
    if walked.len() == 0 {
        start.len() == 0
    } else {
        &&& start.count(walked.first()) > 0
        &&& forall|y: (i64, T)|
            start.remove(walked.first()).count(y) > 0 ==> walked.first().0 <= y.0
        &&& handed_out(start.remove(walked.first()), walked.drop_first())
    }
}

/// What a walk hands out is what remained at first, in the order of the
/// distances.
pub proof fn lemma_walk_is_sorting<T>(start: Multiset<(i64, T)>, walked: Seq<(i64, T)>)
    requires
        handed_out(start, walked),
    ensures
        walked.to_multiset() =~= start,
        ascending(walked),
    decreases walked.len(),
{
    broadcast use vstd::multiset::group_multiset_axioms;

    if walked.len() == 0 {
        crate::lemmas::lemma_empty_multiset(walked);
        vstd::multiset::lemma_multiset_empty_len(start);
    } else {
        let x = walked.first();
        let rest = walked.drop_first();
        lemma_walk_is_sorting(start.remove(x), rest);
        rest.to_multiset_ensures();
        walked.to_multiset_ensures();
        assert(walked.remove(0) =~= rest);
        vstd::seq_lib::to_multiset_remove(walked, 0);
        assert(walked.contains(walked[0]));
        assert(walked[0] == x);
        assert(rest.to_multiset() =~= start.remove(x));
        assert(walked.to_multiset().count(x) > 0);
        assert(rest.to_multiset() =~= walked.to_multiset().remove(x));
        assert forall|y: (i64, T)| walked.to_multiset().count(y) == start.count(y) by {
            assert(walked.to_multiset().remove(x).count(y) == start.remove(x).count(y));
        }
        assert forall|i: int, j: int| 0 <= i <= j < walked.len() implies walked[i].0
            <= walked[j].0 by {
            if i == 0 {
                if j > 0 {
                    assert(rest[j - 1] == walked[j]);
                    assert(rest.contains(rest[j - 1]));
                    assert(rest.to_multiset().count(walked[j]) > 0);
                }
            } else {
                assert(rest[i - 1] == walked[i]);
                assert(rest[j - 1] == walked[j]);
            }
        }
    }
}

/// Iterator equivalence: where a walk may rely on bounding boxes, what it
/// hands out until none remains and what `nearest` returns when asked for
/// as many pairs as the tree holds are the same pairs, with the same
/// distances place by place.
pub proof fn lemma_walk_matches_nearest<T>(
    all: Seq<(i64, T)>,
    walked: Seq<(i64, T)>,
    num: usize,
    res: Seq<(i64, T)>,
    sound: bool,
)
    requires
        handed_out(all.to_multiset(), walked),
        is_nearest(all, num, res, sound),
        num >= all.len(),
    ensures
        walked.to_multiset() =~= res.to_multiset(),
        distances(walked) =~= distances(res),
{
    lemma_walk_is_sorting(all.to_multiset(), walked);
    lemma_same_distances(walked, res);
}

/// One call of `next` hands out as `handed_out` says: if the walk is
/// `sound`, the pair `x` that it returned with `after` remaining, where
/// `before` remained, begins a walk that goes on as any walk from `after`
/// does.
pub proof fn lemma_next_hands_out<T>(
    before: Multiset<(i64, T)>,
    x: (i64, T),
    after: Multiset<(i64, T)>,
    later: Seq<(i64, T)>,
)
    requires
        before.count(x) > 0,
        after =~= before.remove(x),
        forall|y: (i64, T)| after.count(y) > 0 ==> x.0 <= y.0,
        handed_out(after, later),
    ensures
        handed_out(before, seq![x] + later),
{
    let walked = seq![x] + later;
    assert(walked.first() == x);
    assert(walked.drop_first() =~= later);
}

/// The split invariant after an add: in the tree that a successful `add`
/// leaves, every stem parts the points beneath it as its cut says, points
/// on the cut to the right.
pub proof fn lemma_add_keeps_the_split_invariant<T, const K: usize>(
    before: KdTree<T, K>,
    after: KdTree<T, K>,
    point: [i64; K],
    data: T,
    t: KdTree<T, K>,
)
    requires
        after.wf(),
        KdTree::grown_by(before, after, point, data),
        after.has_subtree(t),
        t.spec_content() is Stem,
    ensures
        forall|i: int|
            0 <= i < t.spec_content()->Stem_left.entries().len() ==> (
            #[trigger] t.spec_content()->Stem_left.entries()[i]).0@[t.spec_content()->Stem_split_dimension as int]
                < t.spec_content()->Stem_split_value,
        forall|i: int|
            0 <= i < t.spec_content()->Stem_right.entries().len() ==> (
            #[trigger] t.spec_content()->Stem_right.entries()[i]).0@[t.spec_content()->Stem_split_dimension as int]
                >= t.spec_content()->Stem_split_value,
{
    lemma_split_invariant(after, t);
}

/// Size accounting of one add: the tree that a successful `add` leaves
/// holds the pairs that it held and the new one, and records one pair more;
/// and every tree beneath it records the number of its pairs.
pub proof fn lemma_add_counts<T, const K: usize>(
    before: KdTree<T, K>,
    after: KdTree<T, K>,
    point: [i64; K],
    data: T,
    t: KdTree<T, K>,
)
    requires
        before.wf(),
        after.wf(),
        KdTree::grown_by(before, after, point, data),
        after.has_subtree(t),
    ensures
        after.spec_size() == before.spec_size() + 1,
        after.entries().to_multiset() =~= before.entries().to_multiset().insert((point, data)),
        after.entries().len() == before.entries().len() + 1,
        t.spec_size() == t.entries().len(),
{
    before.lemma_size_and_bounds();
    after.lemma_size_and_bounds();
    lemma_size_is_count(after, t);
}

/// Size accounting of one remove: the tree that a successful `remove`
/// leaves, having returned `removed`, records that many pairs less, and
/// every tree beneath it records the number of its pairs.
pub proof fn lemma_remove_counts<T: PartialEq, const K: usize>(
    before: KdTree<T, K>,
    after: KdTree<T, K>,
    removed: usize,
    t: KdTree<T, K>,
)
    requires
        before.wf(),
        after.wf(),
        after.spec_size() + removed == before.spec_size(),
        after.has_subtree(t),
    ensures
        removed <= before.entries().len(),
        after.entries().len() == before.entries().len() - removed,
        t.spec_size() == t.entries().len(),
{
    before.lemma_size_and_bounds();
    after.lemma_size_and_bounds();
    lemma_size_is_count(after, t);
}

/// The leaf threshold after an add: in the tree that a successful `add`
/// leaves, every leaf holds no more pairs than its capacity, unless all
/// its points are one and the same point.
pub proof fn lemma_add_keeps_the_leaf_threshold<T, const K: usize>(
    before: KdTree<T, K>,
    after: KdTree<T, K>,
    point: [i64; K],
    data: T,
    t: KdTree<T, K>,
)
    requires
        after.wf(),
        KdTree::grown_by(before, after, point, data),
        after.has_subtree(t),
        t.spec_content() is Leaf,
    ensures
        t.entries().len() <= t.spec_content()->Leaf_capacity || forall|i: int, j: int|
            0 <= i < t.entries().len() && 0 <= j < t.entries().len() ==> t.entries()[i].0
                == t.entries()[j].0,
{
    lemma_leaf_threshold(after, t);
}

/// Whether no box of `after` lies inside the box that stood at its place
/// in `before`: the box of the root does not, and where both are stems,
/// nor do the boxes beneath them.
pub open spec fn no_box_moved_inward<T, const K: usize>(
    before: KdTree<T, K>,
    after: KdTree<T, K>,
) -> bool
    decreases before,
{
    &&& forall|d: int|
        0 <= d < K ==> #[trigger] after.spec_min_bounds()@[d] <= before.spec_min_bounds()@[d]
    &&& forall|d: int|
        0 <= d < K ==> #[trigger] after.spec_max_bounds()@[d] >= before.spec_max_bounds()@[d]
    &&& match (before.spec_content(), after.spec_content()) {
        (
            Node::Stem { left, right, .. },
            Node::Stem { left: left_after, right: right_after, .. },
        ) => no_box_moved_inward(*left, *left_after) && no_box_moved_inward(
            *right,
            *right_after,
        ),
        _ => true,
    }
}

/// A tree keeps its boxes against itself.
pub proof fn lemma_boxes_stand<T, const K: usize>(t: KdTree<T, K>)
    ensures
        no_box_moved_inward(t, t),
    decreases t,
{
    match t.spec_content() {
        Node::Leaf { .. } => {},
        Node::Stem { left, right, .. } => {
            lemma_boxes_stand(*left);
            lemma_boxes_stand(*right);
        },
    }
}

/// Boxes never shrink: in the tree that a successful `add` leaves, no box
/// lies inside the box that stood at its place before, and every box
/// contains the points beneath it.
pub proof fn lemma_add_never_shrinks_a_box<T, const K: usize>(
    before: KdTree<T, K>,
    after: KdTree<T, K>,
    point: [i64; K],
    data: T,
)
    requires
        KdTree::grown_by(before, after, point, data),
    ensures
        no_box_moved_inward(before, after),
    decreases before,
{
    match (before.spec_content(), after.spec_content()) {
        (
            Node::Stem { left, right, split_dimension, split_value },
            Node::Stem { left: left_after, right: right_after, .. },
        ) => {
            if point@[split_dimension as int] < split_value {
                lemma_add_never_shrinks_a_box(*left, *left_after, point, data);
                lemma_boxes_stand(*right);
            } else {
                lemma_add_never_shrinks_a_box(*right, *right_after, point, data);
                lemma_boxes_stand(*left);
            }
        },
        _ => {},
    }
}

/// Clamping: asked for more pairs than the tree holds, `nearest` returns as
/// many as the tree holds, with the distances, place by place, that it
/// returns when asked for just that many.
pub proof fn lemma_nearest_is_clamped<T>(
    all: Seq<(i64, T)>,
    more: usize,
    res_more: Seq<(i64, T)>,
    res_all: Seq<(i64, T)>,
    sound: bool,
)
    requires
        more > all.len(),
        all.len() <= usize::MAX,
        is_nearest(all, more, res_more, sound),
        is_nearest(all, all.len() as usize, res_all, sound),
    ensures
        res_more.len() == all.len(),
        distances(res_more) =~= distances(res_all),
{
    lemma_same_distances(res_more, res_all);
}

/// Query correctness on a periodic domain, for the squared Euclidean
/// distance: of what the searches from a point of the cell and from its
/// images find as nearest, on a tree without a period or with the period of
/// the cell whose points lie in the cell, the nearest is a stored pair at
/// the least minimum-image distance. `nearest_one_periodic` returns it.
pub proof fn lemma_periodic_nearest_one_is_least<T, const K: usize>(
    items: Seq<([i64; K], T)>,
    mode: Option<[i64; K]>,
    l: [i64; K],
    q: [i64; K],
    first: (i64, T),
    others: Seq<(i64, T)>,
    best: (i64, T),
)
    requires
        in_cell(q, l),
        small_enough(l),
        mode is None || mode == Some(l),
        stored_in_cell(items, l),
        is_nearest_one(scored(items, squared_euclidean_model::<K>(), mode, q), first, false),
        is_plainly_nearest(items, squared_euclidean_model::<K>(), q, first.0),
        others.len() == images_for(q, l, first.0).len(),
        forall|j: int|
            0 <= j < others.len() ==> is_nearest_one(
                scored(items, squared_euclidean_model::<K>(), mode, images_for(q, l, first.0)[j]),
                #[trigger] others[j],
                false,
            ) && is_plainly_nearest(
                items,
                squared_euclidean_model::<K>(),
                images_for(q, l, first.0)[j],
                others[j].0,
            ),
        best.0 <= first.0,
        forall|j: int| 0 <= j < others.len() ==> best.0 <= (#[trigger] others[j]).0,
        best == first || exists|j: int| 0 <= j < others.len() && best == #[trigger] others[j],
    ensures
        is_nearest_one(scored(items, squared_euclidean_model::<K>(), Some(l), q), best, true),
{
    lemma_squared_euclidean_wraps(l, mode, q);
    lemma_least_of_searches(items, squared_euclidean_model::<K>(), mode, l, q, first, others, best);
}

/// On a well-formed tree with a period, the periodic searches over the cell
/// of that period, by the squared Euclidean distance, answer against the
/// minimum-image distance: every stored point lies in the cell, and the
/// metric is one that wraps, which is all that their contracts ask for.
pub proof fn lemma_periodic_tree_is_searched_by_minimum_image<T, const K: usize>(
    tree: KdTree<T, K>,
    l: [i64; K],
    q: [i64; K],
)
    requires
        tree.wf_but_capacity(),
        tree.spec_periodic() == Some(l),
        in_cell(q, l),
        small_enough(l),
    ensures
        stored_in_cell(tree.entries(), l),
        wraps(squared_euclidean_model::<K>(), l, tree.spec_periodic(), q),
{
    lemma_squared_euclidean_wraps(l, tree.spec_periodic(), q);
}

/// The unsorted search is a permutation of the sorted one: two answers that
/// hold the same pairs, as `within_periodic` and `within_unsorted_periodic`
/// ensure of theirs for the same tree, metric, point, cell and radius, and
/// `within` and `within_unsorted` of theirs, list those pairs equally often
/// and are of one length.
pub proof fn lemma_unsorted_is_a_permutation<T>(
    sorted: Seq<(i64, T)>,
    unsorted: Seq<(i64, T)>,
    both: Multiset<(i64, T)>,
)
    requires
        sorted.to_multiset() =~= both,
        unsorted.to_multiset() =~= both,
    ensures
        sorted.to_multiset() =~= unsorted.to_multiset(),
        sorted.len() == unsorted.len(),
        distances(sorted).to_multiset() =~= distances(unsorted).to_multiset(),
{
    lemma_distances_of_same_pairs(sorted, unsorted);
}

} // verus!
