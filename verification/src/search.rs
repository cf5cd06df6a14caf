//! What every query shares: the stored pairs as a query sees them, the set
//! of subtrees still to be visited, and the descent to a leaf.

use crate::metric::{
    bounds_from_below, box_distance, distance_to_space, is_metric, models, tree_distance,
};
use crate::scalar::INFINITY;
use crate::tree::{in_box, KdTree, Node};
use vstd::multiset::Multiset;
use vstd::prelude::*;

verus! {

/// The stored pairs `items` as a query at `q` sees them, by the distances
/// that `m` gives: each with its distance from `q` in place of its point.
pub open spec fn scored<T, const K: usize>(
    items: Seq<([i64; K], T)>,
    m: spec_fn([i64; K], [i64; K]) -> i64,
    periodic: Option<[i64; K]>,
    q: [i64; K],
) -> Seq<(i64, T)> {
    Seq::new(items.len(), |i: int| (tree_distance(m, periodic, q, items[i].0), items[i].1))
}

/// What a query returns, with each payload in place of the reference to it.
pub open spec fn found<T>(v: Seq<(i64, &T)>) -> Seq<(i64, T)> {
    Seq::new(v.len(), |i: int| (v[i].0, *v[i].1))
}

/// Whether the keys of `v` never decrease.
pub open spec fn ascending<E>(v: Seq<(i64, E)>) -> bool {
    forall|i: int, j: int| 0 <= i <= j < v.len() ==> v[i].0 <= v[j].0
}

/// Whether the keys of `v` never increase.
pub open spec fn descending<E>(v: Seq<(i64, E)>) -> bool {
    forall|i: int, j: int| 0 <= i <= j < v.len() ==> v[i].0 >= v[j].0
}

/// Whether no distance in `s` lies below `bound`.
pub open spec fn none_nearer<T>(bound: i64, s: Seq<(i64, T)>) -> bool {
    forall|i: int| 0 <= i < s.len() ==> bound <= (#[trigger] s[i]).0
}

/// The pairs, as a query at `q` sees them, of all the subtrees in
/// `pending`.
pub open spec fn waiting<T, const K: usize>(
    pending: Seq<(i64, &KdTree<T, K>)>,
    m: spec_fn([i64; K], [i64; K]) -> i64,
    periodic: Option<[i64; K]>,
    q: [i64; K],
) -> Multiset<(i64, T)>
    decreases pending.len(),
{
    if pending.len() == 0 {
        Multiset::empty()
    } else {
        waiting(pending.drop_last(), m, periodic, q).add(
            scored(pending.last().1.entries(), m, periodic, q).to_multiset(),
        )
    }
}

/// The number of nodes of all the subtrees in `pending`.
pub open spec fn weight<T, const K: usize>(pending: Seq<(i64, &KdTree<T, K>)>) -> nat
    decreases pending.len(),
{
    if pending.len() == 0 {
        0
    } else {
        weight(pending.drop_last()) + pending.last().1.nodes()
    }
}

/// Whether every subtree in `pending` is well formed and of the given
/// period.
pub open spec fn all_fit<T, const K: usize>(
    pending: Seq<(i64, &KdTree<T, K>)>,
    periodic: Option<[i64; K]>,
) -> bool {
    forall|j: int|
        0 <= j < pending.len() ==> (#[trigger] pending[j]).1.wf() && pending[j].1.spec_periodic()
            == periodic
}

/// Whether the key of `entry` bounds its subtree from below, for a query at
/// `q`: where boxes bound distances from below, no pair of the subtree lies
/// nearer than the key.
pub open spec fn bounded_below<T, const K: usize>(
    entry: (i64, &KdTree<T, K>),
    m: spec_fn([i64; K], [i64; K]) -> i64,
    periodic: Option<[i64; K]>,
    q: [i64; K],
) -> bool {
    bounds_from_below(m, periodic, q) ==> none_nearer(
        entry.0,
        scored(entry.1.entries(), m, periodic, q),
    )
}

/// Whether the key of every entry of `pending` bounds its subtree from
/// below.
pub open spec fn all_bounded<T, const K: usize>(
    pending: Seq<(i64, &KdTree<T, K>)>,
    m: spec_fn([i64; K], [i64; K]) -> i64,
    periodic: Option<[i64; K]>,
    q: [i64; K],
) -> bool {
    forall|j: int| 0 <= j < pending.len() ==> bounded_below(#[trigger] pending[j], m, periodic, q)
}

/// The stored pairs beneath `tree` that a search from `q` visits when it
/// looks for nothing beyond `reach`: those of a leaf; and beneath a stem,
/// those visited on the side of the cut on which `q` lies, the left one for
/// a point below the cut, and those visited on the other side if the box of
/// that side lies no farther from `q` than `reach`.
pub open spec fn visited<T, const K: usize>(
    tree: KdTree<T, K>,
    m: spec_fn([i64; K], [i64; K]) -> i64,
    q: [i64; K],
    reach: i64,
) -> Seq<([i64; K], T)>
    decreases tree,
{
    match tree.spec_content() {
        Node::Leaf { .. } => tree.entries(),
        Node::Stem { left, right, split_value, split_dimension } => {
            let near = if q@[split_dimension as int] < split_value {
                left
            } else {
                right
            };
            let far = if q@[split_dimension as int] < split_value {
                right
            } else {
                left
            };
            visited(*near, m, q, reach) + if box_distance(
                m,
                q,
                far.spec_min_bounds(),
                far.spec_max_bounds(),
            ) <= reach {
                visited(*far, m, q, reach)
            } else {
                Seq::empty()
            }
        },
    }
}

/// The stored pairs that a search from `q` visits beneath the subtrees in
/// `pending`, when it looks for nothing beyond `reach`.
pub open spec fn waiting_visited<T, const K: usize>(
    pending: Seq<(i64, &KdTree<T, K>)>,
    m: spec_fn([i64; K], [i64; K]) -> i64,
    q: [i64; K],
    reach: i64,
) -> Multiset<([i64; K], T)>
    decreases pending.len(),
{
    if pending.len() == 0 {
        Multiset::empty()
    } else {
        waiting_visited(pending.drop_last(), m, q, reach).add(
            visited(*pending.last().1, m, q, reach).to_multiset(),
        )
    }
}

/// An entry put into `pending` at any place adds what a search visits
/// beneath its subtree to what it visits beneath the subtrees that wait.
pub proof fn lemma_waiting_visited_insert<T, const K: usize>(
    pending: Seq<(i64, &KdTree<T, K>)>,
    at: int,
    entry: (i64, &KdTree<T, K>),
    m: spec_fn([i64; K], [i64; K]) -> i64,
    q: [i64; K],
    reach: i64,
)
    requires
        0 <= at <= pending.len(),
    ensures
        waiting_visited(pending.insert(at, entry), m, q, reach) =~= waiting_visited(
            pending,
            m,
            q,
            reach,
        ).add(visited(*entry.1, m, q, reach).to_multiset()),
    decreases pending.len(),
{
    broadcast use vstd::multiset::group_multiset_axioms;

    let grown = pending.insert(at, entry);
    if at == pending.len() {
        assert(grown.drop_last() =~= pending);
        assert(grown.last() == entry);
    } else {
        let shorter = pending.drop_last();
        lemma_waiting_visited_insert(shorter, at, entry, m, q, reach);
        assert(grown.drop_last() =~= shorter.insert(at, entry));
        assert(grown.last() == pending.last());
    }
}

/// Whether no key of `pending` exceeds `bound`.
pub open spec fn all_keys_within<T, const K: usize>(
    pending: Seq<(i64, &KdTree<T, K>)>,
    bound: i64,
) -> bool {
    forall|j: int| 0 <= j < pending.len() ==> (#[trigger] pending[j]).0 <= bound
}

/// The stored pairs of all the subtrees in `pending`, first subtree first.
pub open spec fn waiting_items<T, const K: usize>(pending: Seq<(i64, &KdTree<T, K>)>) -> Seq<
    ([i64; K], T),
>
    decreases pending.len(),
{
    if pending.len() == 0 {
        Seq::empty()
    } else {
        waiting_items(pending.drop_last()) + pending.last().1.entries()
    }
}

/// Whether the key of `entry` is no more than the distance from `q` to any
/// point of its subtree, as they stand, where boxes bound such distances
/// from below. This holds of any tree, periodic or not.
pub open spec fn plainly_bounded<T, const K: usize>(
    entry: (i64, &KdTree<T, K>),
    m: spec_fn([i64; K], [i64; K]) -> i64,
    q: [i64; K],
) -> bool {
    bounds_from_below(m, None, q) ==> forall|i: int|
        0 <= i < entry.1.entries().len() ==> entry.0 <= m(q, (#[trigger] entry.1.entries()[i]).0)
}

/// Whether the key of every entry of `pending` is no more than the
/// distance from `q` to any point of its subtree.
pub open spec fn all_plainly_bounded<T, const K: usize>(
    pending: Seq<(i64, &KdTree<T, K>)>,
    m: spec_fn([i64; K], [i64; K]) -> i64,
    q: [i64; K],
) -> bool {
    forall|j: int| 0 <= j < pending.len() ==> plainly_bounded(#[trigger] pending[j], m, q)
}

/// Whether every point of `items` lies farther from `q` than `bound`, as the
/// points stand.
pub open spec fn beyond<T, const K: usize>(
    items: Seq<([i64; K], T)>,
    m: spec_fn([i64; K], [i64; K]) -> i64,
    q: [i64; K],
    bound: i64,
) -> bool {
    forall|i: int| 0 <= i < items.len() ==> m(q, (#[trigger] items[i]).0) > bound
}

/// An entry put into `pending` at any place adds the pairs of its subtree
/// to the stored pairs that wait.
pub proof fn lemma_waiting_items_insert<T, const K: usize>(
    pending: Seq<(i64, &KdTree<T, K>)>,
    at: int,
    entry: (i64, &KdTree<T, K>),
)
    requires
        0 <= at <= pending.len(),
    ensures
        waiting_items(pending.insert(at, entry)).to_multiset() =~= waiting_items(
            pending,
        ).to_multiset().add(entry.1.entries().to_multiset()),
    decreases pending.len(),
{
    broadcast use vstd::multiset::group_multiset_axioms;

    let grown = pending.insert(at, entry);
    if at == pending.len() {
        assert(grown.drop_last() =~= pending);
        assert(grown.last() == entry);
        vstd::seq_lib::lemma_multiset_commutative(waiting_items(pending), entry.1.entries());
    } else {
        let shorter = pending.drop_last();
        lemma_waiting_items_insert(shorter, at, entry);
        assert(grown.drop_last() =~= shorter.insert(at, entry));
        assert(grown.last() == pending.last());
        vstd::seq_lib::lemma_multiset_commutative(
            waiting_items(grown.drop_last()),
            pending.last().1.entries(),
        );
        vstd::seq_lib::lemma_multiset_commutative(
            waiting_items(shorter),
            pending.last().1.entries(),
        );
    }
}

/// The stored pairs that wait, once the last entry of `pending` is taken
/// out, with the pairs of its subtree, are those that waited.
pub proof fn lemma_waiting_items_pop<T, const K: usize>(pending: Seq<(i64, &KdTree<T, K>)>)
    requires
        pending.len() > 0,
    ensures
        waiting_items(pending).to_multiset() =~= waiting_items(
            pending.drop_last(),
        ).to_multiset().add(pending.last().1.entries().to_multiset()),
{
    vstd::seq_lib::lemma_multiset_commutative(
        waiting_items(pending.drop_last()),
        pending.last().1.entries(),
    );
}

/// A stored pair that waits is a pair of one of the subtrees in `pending`.
pub proof fn lemma_waiting_item_somewhere<T, const K: usize>(
    pending: Seq<(i64, &KdTree<T, K>)>,
    i: int,
) -> (r: (int, int))
    requires
        0 <= i < waiting_items(pending).len(),
    ensures
        0 <= r.0 < pending.len(),
        0 <= r.1 < pending[r.0].1.entries().len(),
        pending[r.0].1.entries()[r.1] == waiting_items(pending)[i],
    decreases pending.len(),
{
    let before = waiting_items(pending.drop_last());
    if i < before.len() {
        lemma_waiting_item_somewhere(pending.drop_last(), i)
    } else {
        (pending.len() - 1, i - before.len())
    }
}

/// What a descent leaves behind, as the distances of `m` between the points
/// as they stand show it: the keys of the subtrees put into `pending` are no
/// more than the distance to any of their points; and where boxes bound
/// distances from below, every skipped point lies beyond `max_dist`.
pub open spec fn descent_keeps<T, const K: usize>(
    m: spec_fn([i64; K], [i64; K]) -> i64,
    before: Seq<(i64, &KdTree<T, K>)>,
    after: Seq<(i64, &KdTree<T, K>)>,
    skipped: Seq<([i64; K], T)>,
    max_dist: i64,
    q: [i64; K],
) -> bool {
    &&& all_plainly_bounded(before, m, q) ==> all_plainly_bounded(after, m, q)
    &&& bounds_from_below(m, None, q) ==> beyond(skipped, m, q, max_dist)
}

/// The pairs of two sequences put end to end are seen as those of the
/// first and those of the second.
pub proof fn lemma_scored_of_both<T, const K: usize>(
    a: Seq<([i64; K], T)>,
    b: Seq<([i64; K], T)>,
    m: spec_fn([i64; K], [i64; K]) -> i64,
    periodic: Option<[i64; K]>,
    q: [i64; K],
)
    ensures
        scored(a + b, m, periodic, q) =~= scored(a, m, periodic, q) + scored(b, m, periodic, q),
        scored(a + b, m, periodic, q).to_multiset() =~= scored(
            a,
            m,
            periodic,
            q,
        ).to_multiset().add(scored(b, m, periodic, q).to_multiset()),
{
    assert(scored(a + b, m, periodic, q) =~= scored(a, m, periodic, q) + scored(
        b,
        m,
        periodic,
        q,
    ));
    vstd::seq_lib::lemma_multiset_commutative(
        scored(a, m, periodic, q),
        scored(b, m, periodic, q),
    );
}

/// A pair put at the end of a sequence is seen at the end of what is seen
/// of the sequence.
pub proof fn lemma_scored_of_push<T, const K: usize>(
    a: Seq<([i64; K], T)>,
    e: ([i64; K], T),
    m: spec_fn([i64; K], [i64; K]) -> i64,
    periodic: Option<[i64; K]>,
    q: [i64; K],
)
    ensures
        scored(a.push(e), m, periodic, q).to_multiset() =~= scored(
            a,
            m,
            periodic,
            q,
        ).to_multiset().insert((tree_distance(m, periodic, q, e.0), e.1)),
{
    let x = (tree_distance(m, periodic, q, e.0), e.1);
    assert(scored(a.push(e), m, periodic, q) =~= scored(a, m, periodic, q).push(x));
    vstd::seq_lib::to_multiset_build(scored(a, m, periodic, q), x);
}

/// Two sequences of the same stored pairs are seen as the same pairs, in
/// whatever order.
pub proof fn lemma_scored_of_same_items<T, const K: usize>(
    a: Seq<([i64; K], T)>,
    b: Seq<([i64; K], T)>,
    m: spec_fn([i64; K], [i64; K]) -> i64,
    periodic: Option<[i64; K]>,
    q: [i64; K],
)
    requires
        a.to_multiset() =~= b.to_multiset(),
    ensures
        scored(a, m, periodic, q).to_multiset() =~= scored(b, m, periodic, q).to_multiset(),
    decreases a.len(),
{
    broadcast use vstd::multiset::group_multiset_axioms;

    a.to_multiset_ensures();
    b.to_multiset_ensures();
    if a.len() == 0 {
        assert(scored(a, m, periodic, q) =~= scored(b, m, periodic, q));
    } else {
        let e = a.last();
        assert(a.contains(e));
        assert(b.to_multiset().count(e) > 0);
        assert(b.contains(e));
        let j = choose|j: int| 0 <= j < b.len() && b[j] == e;
        let shorter_a = a.drop_last();
        let shorter_b = b.remove(j);
        crate::lemmas::lemma_pop_multiset(a);
        vstd::seq_lib::to_multiset_remove(b, j);
        lemma_scored_of_same_items(shorter_a, shorter_b, m, periodic, q);
        assert(a =~= shorter_a.push(e));
        lemma_scored_of_push(shorter_a, e, m, periodic, q);
        let sb = scored(b, m, periodic, q);
        assert(sb.remove(j) =~= scored(shorter_b, m, periodic, q));
        vstd::seq_lib::to_multiset_remove(sb, j);
        sb.to_multiset_ensures();
        assert(sb.contains(sb[j]));
    }
}

/// An entry put into `pending` at any place adds its nodes to the weight.
pub proof fn lemma_weight_insert<T, const K: usize>(
    pending: Seq<(i64, &KdTree<T, K>)>,
    at: int,
    entry: (i64, &KdTree<T, K>),
)
    requires
        0 <= at <= pending.len(),
    ensures
        weight(pending.insert(at, entry)) == weight(pending) + entry.1.nodes(),
    decreases pending.len(),
{
    let grown = pending.insert(at, entry);
    if at == pending.len() {
        assert(grown.drop_last() =~= pending);
        assert(grown.last() == entry);
    } else {
        let shorter = pending.drop_last();
        lemma_weight_insert(shorter, at, entry);
        assert(grown.drop_last() =~= shorter.insert(at, entry));
        assert(grown.last() == pending.last());
    }
}

/// An entry put into `pending` at any place adds its subtree's pairs to
/// those that wait.
pub proof fn lemma_waiting_insert<T, const K: usize>(
    pending: Seq<(i64, &KdTree<T, K>)>,
    at: int,
    entry: (i64, &KdTree<T, K>),
    m: spec_fn([i64; K], [i64; K]) -> i64,
    periodic: Option<[i64; K]>,
    q: [i64; K],
)
    requires
        0 <= at <= pending.len(),
    ensures
        waiting(pending.insert(at, entry), m, periodic, q) =~= waiting(pending, m, periodic, q).add(
            scored(entry.1.entries(), m, periodic, q).to_multiset(),
        ),
    decreases pending.len(),
{
    broadcast use vstd::multiset::group_multiset_axioms;

    let grown = pending.insert(at, entry);
    if at == pending.len() {
        assert(grown.drop_last() =~= pending);
        assert(grown.last() == entry);
    } else {
        let shorter = pending.drop_last();
        lemma_waiting_insert(shorter, at, entry, m, periodic, q);
        assert(grown.drop_last() =~= shorter.insert(at, entry));
        assert(grown.last() == pending.last());
    }
}

/// A pair that waits is a pair of one of the subtrees in `pending`.
pub proof fn lemma_waiting_somewhere<T, const K: usize>(
    pending: Seq<(i64, &KdTree<T, K>)>,
    m: spec_fn([i64; K], [i64; K]) -> i64,
    periodic: Option<[i64; K]>,
    q: [i64; K],
    x: (i64, T),
) -> (j: int)
    requires
        waiting(pending, m, periodic, q).count(x) > 0,
    ensures
        0 <= j < pending.len(),
        scored(pending[j].1.entries(), m, periodic, q).to_multiset().count(x) > 0,
    decreases pending.len(),
{
    broadcast use vstd::multiset::group_multiset_axioms;

    if pending.len() == 0 {
        0
    } else if scored(pending.last().1.entries(), m, periodic, q).to_multiset().count(x) > 0 {
        pending.len() - 1
    } else {
        lemma_waiting_somewhere(pending.drop_last(), m, periodic, q, x)
    }
}

/// Puts `(key, item)` into `v`, whose keys never decrease, behind the last
/// entry whose key is not greater, and returns its place.
pub fn insert_ascending<E>(v: &mut Vec<(i64, E)>, key: i64, item: E) -> (at: usize)
    requires
        ascending(old(v)@),
    ensures
        at <= old(v)@.len(),
        final(v)@ == old(v)@.insert(at as int, (key, item)),
        ascending(final(v)@),
{
    let mut at: usize = v.len();
    while at > 0 && v[at - 1].0 > key
        invariant
            0 <= at <= v@.len(),
            v@ == old(v)@,
            forall|j: int| at <= j < v@.len() ==> v@[j].0 > key,
        decreases at,
    {
        at -= 1;
    }
    v.insert(at, (key, item));
    proof {
        old(v)@.insert_ensures(at as int, (key, item));
    }
    at
}

/// Puts `(key, item)` into `v`, whose keys never increase, behind the last
/// entry whose key is not smaller, and returns its place.
pub fn insert_descending<E>(v: &mut Vec<(i64, E)>, key: i64, item: E) -> (at: usize)
    requires
        descending(old(v)@),
    ensures
        at <= old(v)@.len(),
        final(v)@ == old(v)@.insert(at as int, (key, item)),
        descending(final(v)@),
{
    let mut at: usize = v.len();
    while at > 0 && v[at - 1].0 < key
        invariant
            0 <= at <= v@.len(),
            v@ == old(v)@,
            forall|j: int| at <= j < v@.len() ==> v@[j].0 < key,
        decreases at,
    {
        at -= 1;
    }
    v.insert(at, (key, item));
    proof {
        old(v)@.insert_ensures(at as int, (key, item));
    }
    at
}

/// No pair of a well-formed tree lies nearer to `q` than the tree's
/// bounding box does, where boxes bound distances from below.
pub proof fn lemma_box_bounds_tree<T, const K: usize>(
    tree: &KdTree<T, K>,
    m: spec_fn([i64; K], [i64; K]) -> i64,
    q: [i64; K],
)
    requires
        tree.wf(),
        bounds_from_below(m, tree.spec_periodic(), q),
    ensures
        none_nearer(
            box_distance(m, q, tree.spec_min_bounds(), tree.spec_max_bounds()),
            scored(tree.entries(), m, tree.spec_periodic(), q),
        ),
{
    tree.lemma_size_and_bounds();
    let s = scored(tree.entries(), m, tree.spec_periodic(), q);
    assert forall|i: int| 0 <= i < s.len() implies box_distance(
        m,
        q,
        tree.spec_min_bounds(),
        tree.spec_max_bounds(),
    ) <= (#[trigger] s[i]).0 by {
        assert(in_box(tree.entries()[i].0, tree.spec_min_bounds(), tree.spec_max_bounds()));
    }
}

/// Every pair that is seen in `s` lies at `bound` or farther, if none of
/// `s` lies nearer.
pub proof fn lemma_none_nearer_counts<T>(bound: i64, s: Seq<(i64, T)>, x: (i64, T))
    requires
        none_nearer(bound, s),
        s.to_multiset().count(x) > 0,
    ensures
        bound <= x.0,
{
    s.to_multiset_ensures();
    assert(s.contains(x));
    let i = choose|i: int| 0 <= i < s.len() && s[i] == x;
    assert(bound <= s[i].0);
}

/// What a descent from `curr` to `leaf` leaves behind, as a query at `q`
/// sees it by the distances of `m`: each pair beneath `curr` is beneath
/// `leaf`, beneath a subtree that the descent put into `pending`, or among
/// the pairs `skipped`; the subtrees in `pending` are bounded from below by
/// their keys; and where boxes bound distances from below, every skipped
/// pair lies beyond `max_dist`.
pub open spec fn descent_holds<T, const K: usize>(
    m: spec_fn([i64; K], [i64; K]) -> i64,
    before: Seq<(i64, &KdTree<T, K>)>,
    after: Seq<(i64, &KdTree<T, K>)>,
    curr: &KdTree<T, K>,
    leaf: &KdTree<T, K>,
    skipped: Seq<([i64; K], T)>,
    max_dist: i64,
    periodic: Option<[i64; K]>,
    q: [i64; K],
) -> bool {
    &&& all_bounded(before, m, periodic, q) ==> all_bounded(after, m, periodic, q)
    &&& waiting(after, m, periodic, q).add(scored(leaf.entries(), m, periodic, q).to_multiset()).add(
        scored(skipped, m, periodic, q).to_multiset(),
    ) =~= waiting(before, m, periodic, q).add(scored(curr.entries(), m, periodic, q).to_multiset())
    &&& bounds_from_below(m, periodic, q) ==> forall|x: (i64, T)|
        scored(skipped, m, periodic, q).to_multiset().count(x) > 0 ==> x.0 > max_dist
}

impl<T, const K: usize> KdTree<T, K> {
    /// Walks from `curr` down to the leaf on the query point's side of
    /// each cut, and returns that leaf. The subtree on the other side of a
    /// cut is put into `pending` with the distance from the point to its
    /// bounding box, unless that distance exceeds `max_dist`: such a
    /// subtree is passed over, and its pairs are counted in the ghost
    /// result. With `ordered`, `pending` is kept in the order of its keys,
    /// the least at the end.
    pub(crate) fn populate_pending<'a, F>(
        point: &[i64; K],
        max_dist: i64,
        distance: &F,
        pending: &mut Vec<(i64, &'a KdTree<T, K>)>,
        curr: &'a KdTree<T, K>,
        ordered: bool,
    ) -> (r: (&'a KdTree<T, K>, Ghost<Seq<([i64; K], T)>>)) where
        F: Fn(&[i64; K], &[i64; K]) -> i64,

        requires
            is_metric::<F, K>(*distance),
            curr.wf(),
            all_fit(old(pending)@, curr.periodic),
            ordered ==> descending(old(pending)@),
        ensures
            r.0.wf(),
            r.0.content is Leaf,
            r.0.periodic == curr.periodic,
            all_fit(final(pending)@, curr.periodic),
            ordered ==> descending(final(pending)@),
            weight(final(pending)@) + r.0.nodes() <= weight(old(pending)@) + curr.nodes(),
            max_dist == INFINITY ==> r.1@.len() == 0,
            all_keys_within(old(pending)@, max_dist) ==> all_keys_within(
                final(pending)@,
                max_dist,
            ),
            waiting_items(final(pending)@).to_multiset().add(r.0.entries().to_multiset()).add(
                r.1@.to_multiset(),
            ) =~= waiting_items(old(pending)@).to_multiset().add(curr.entries().to_multiset()),
            forall|m: spec_fn([i64; K], [i64; K]) -> i64| #[trigger]
                models::<F, K>(*distance, m) ==> descent_keeps(
                    m,
                    old(pending)@,
                    final(pending)@,
                    r.1@,
                    max_dist,
                    *point,
                ),
            forall|m: spec_fn([i64; K], [i64; K]) -> i64| #[trigger]
                models::<F, K>(*distance, m) ==> waiting_visited(
                    final(pending)@,
                    m,
                    *point,
                    max_dist,
                ).add(r.0.entries().to_multiset()) =~= waiting_visited(
                    old(pending)@,
                    m,
                    *point,
                    max_dist,
                ).add(visited(*curr, m, *point, max_dist).to_multiset()),
            forall|m: spec_fn([i64; K], [i64; K]) -> i64| #[trigger]
                models::<F, K>(*distance, m) ==> descent_holds(
                    m,
                    old(pending)@,
                    final(pending)@,
                    curr,
                    r.0,
                    r.1@,
                    max_dist,
                    curr.periodic,
                    *point,
                ),
    {
        broadcast use vstd::multiset::group_multiset_axioms;

        let ghost periodic = curr.periodic;
        let ghost mut skipped: Seq<([i64; K], T)> = Seq::empty();
        let mut node: &'a KdTree<T, K> = curr;
        proof {
            crate::lemmas::lemma_empty_multiset(skipped);
        }
        proof {
            assert forall|m: spec_fn([i64; K], [i64; K]) -> i64| #[trigger]
                models::<F, K>(*distance, m) implies descent_holds(
                m,
                old(pending)@,
                pending@,
                curr,
                node,
                skipped,
                max_dist,
                periodic,
                *point,
            ) by {
                crate::lemmas::lemma_empty_multiset(scored(skipped, m, periodic, *point));
            }
        }
        loop
            invariant
                is_metric::<F, K>(*distance),
                node.wf(),
                node.periodic == periodic,
                periodic == curr.periodic,
                all_fit(pending@, periodic),
                ordered ==> descending(pending@),
                weight(pending@) + node.nodes() <= weight(old(pending)@) + curr.nodes(),
                max_dist == INFINITY ==> skipped.len() == 0,
                all_keys_within(old(pending)@, max_dist) ==> all_keys_within(pending@, max_dist),
                waiting_items(pending@).to_multiset().add(node.entries().to_multiset()).add(
                    skipped.to_multiset(),
                ) =~= waiting_items(old(pending)@).to_multiset().add(curr.entries().to_multiset()),
                forall|m: spec_fn([i64; K], [i64; K]) -> i64| #[trigger]
                    models::<F, K>(*distance, m) ==> descent_keeps(
                        m,
                        old(pending)@,
                        pending@,
                        skipped,
                        max_dist,
                        *point,
                    ),
                forall|m: spec_fn([i64; K], [i64; K]) -> i64| #[trigger]
                    models::<F, K>(*distance, m) ==> waiting_visited(
                        pending@,
                        m,
                        *point,
                        max_dist,
                    ).add(visited(*node, m, *point, max_dist).to_multiset())
                        =~= waiting_visited(old(pending)@, m, *point, max_dist).add(
                        visited(*curr, m, *point, max_dist).to_multiset(),
                    ),
                forall|m: spec_fn([i64; K], [i64; K]) -> i64| #[trigger]
                    models::<F, K>(*distance, m) ==> descent_holds(
                        m,
                        old(pending)@,
                        pending@,
                        curr,
                        node,
                        skipped,
                        max_dist,
                        periodic,
                        *point,
                    ),
            decreases node.nodes(),
        {
            match &node.content {
                Node::Leaf { .. } => {
                    return (node, Ghost(skipped));
                },
                Node::Stem { left, right, .. } => {
                    let goes_left = node.belongs_in_left(point);
                    let next: &'a KdTree<T, K> = if goes_left {
                        left
                    } else {
                        right
                    };
                    let candidate: &'a KdTree<T, K> = if goes_left {
                        right
                    } else {
                        left
                    };
                    let bound = distance_to_space(
                        point,
                        &candidate.min_bounds,
                        &candidate.max_bounds,
                        distance,
                    );
                    let ghost before = pending@;
                    let ghost skipped_before = skipped;
                    let ghost at: int = 0;
                    if bound <= max_dist {
                        if ordered {
                            let place = insert_descending(pending, bound, candidate);
                            proof {
                                at = place as int;
                            }
                        } else {
                            pending.push((bound, candidate));
                            proof {
                                at = before.len() as int;
                                assert(pending@ =~= before.insert(at, (bound, candidate)));
                            }
                        }
                        proof {
                            lemma_waiting_items_insert(before, at, (bound, candidate));
                            lemma_weight_insert(before, at, (bound, candidate));
                            before.insert_ensures(at, (bound, candidate));
                            if all_keys_within(old(pending)@, max_dist) {
                                assert forall|j: int| 0 <= j < pending@.len() implies (
                                #[trigger] pending@[j]).0 <= max_dist by {
                                    if j < at {
                                        assert(pending@[j] == before[j]);
                                    } else if j > at {
                                        assert(pending@[j] == before[j - 1]);
                                    }
                                }
                            }
                            assert forall|j: int| 0 <= j < pending@.len() implies (
                            #[trigger] pending@[j]).1.wf() && pending@[j].1.spec_periodic()
                                == periodic by {
                                if j < at {
                                    assert(pending@[j] == before[j]);
                                } else if j > at {
                                    assert(pending@[j] == before[j - 1]);
                                }
                            }
                        }
                    } else {
                        proof {
                            skipped = skipped + candidate.entries();
                            vstd::seq_lib::lemma_multiset_commutative(
                                skipped_before,
                                candidate.entries(),
                            );
                        }
                    }
                    proof {
                        assert forall|m: spec_fn([i64; K], [i64; K]) -> i64| #[trigger]
                            models::<F, K>(*distance, m) implies waiting_visited(
                            pending@,
                            m,
                            *point,
                            max_dist,
                        ).add(visited(*next, m, *point, max_dist).to_multiset())
                            =~= waiting_visited(old(pending)@, m, *point, max_dist).add(
                            visited(*curr, m, *point, max_dist).to_multiset(),
                        ) by {
                            let seen_next = visited(*next, m, *point, max_dist);
                            let seen_other = visited(*candidate, m, *point, max_dist);
                            assert(waiting_visited(before, m, *point, max_dist).add(
                                visited(*node, m, *point, max_dist).to_multiset(),
                            ) =~= waiting_visited(old(pending)@, m, *point, max_dist).add(
                                visited(*curr, m, *point, max_dist).to_multiset(),
                            ));
                            if bound <= max_dist {
                                assert(visited(*node, m, *point, max_dist) =~= seen_next
                                    + seen_other);
                                vstd::seq_lib::lemma_multiset_commutative(seen_next, seen_other);
                                lemma_waiting_visited_insert(
                                    before,
                                    at,
                                    (bound, candidate),
                                    m,
                                    *point,
                                    max_dist,
                                );
                            } else {
                                assert(visited(*node, m, *point, max_dist) =~= seen_next);
                            }
                        }
                    }
                    proof {
                        vstd::seq_lib::lemma_multiset_commutative(left.entries(), right.entries());
                        assert forall|m: spec_fn([i64; K], [i64; K]) -> i64| #[trigger]
                            models::<F, K>(*distance, m) implies descent_keeps(
                            m,
                            old(pending)@,
                            pending@,
                            skipped,
                            max_dist,
                            *point,
                        ) by {
                            assert(descent_keeps(
                                m,
                                old(pending)@,
                                before,
                                skipped_before,
                                max_dist,
                                *point,
                            ));
                            if bounds_from_below(m, None, *point) {
                                candidate.lemma_size_and_bounds();
                                assert forall|i: int|
                                    0 <= i < candidate.entries().len() implies bound <= m(
                                    *point,
                                    (#[trigger] candidate.entries()[i]).0,
                                ) by {
                                    assert(in_box(
                                        candidate.entries()[i].0,
                                        candidate.min_bounds,
                                        candidate.max_bounds,
                                    ));
                                    assert(tree_distance(m, None, *point, candidate.entries()[i].0)
                                        == m(*point, candidate.entries()[i].0));
                                }
                            }
                            if bound <= max_dist {
                                before.insert_ensures(at, (bound, candidate));
                                assert(plainly_bounded((bound, candidate), m, *point));
                                if all_plainly_bounded(old(pending)@, m, *point) {
                                    assert forall|j: int|
                                        0 <= j < pending@.len() implies plainly_bounded(
                                        #[trigger] pending@[j],
                                        m,
                                        *point,
                                    ) by {
                                        if j < at {
                                            assert(pending@[j] == before[j]);
                                        } else if j > at {
                                            assert(pending@[j] == before[j - 1]);
                                        }
                                    }
                                }
                            } else {
                                if bounds_from_below(m, None, *point) {
                                    assert forall|i: int| 0 <= i < skipped.len() implies m(
                                        *point,
                                        (#[trigger] skipped[i]).0,
                                    ) > max_dist by {
                                        if i < skipped_before.len() {
                                            assert(skipped[i] == skipped_before[i]);
                                        } else {
                                            assert(skipped[i] == candidate.entries()[i
                                                - skipped_before.len()]);
                                        }
                                    }
                                }
                            }
                        }
                    }
                    proof {
                        assert forall|m: spec_fn([i64; K], [i64; K]) -> i64| #[trigger]
                            models::<F, K>(*distance, m) implies descent_holds(
                            m,
                            old(pending)@,
                            pending@,
                            curr,
                            next,
                            skipped,
                            max_dist,
                            periodic,
                            *point,
                        ) by {
                            let theirs = scored(candidate.entries(), m, periodic, *point);
                            assert(descent_holds(
                                m,
                                old(pending)@,
                                before,
                                curr,
                                node,
                                skipped_before,
                                max_dist,
                                periodic,
                                *point,
                            ));
                            lemma_scored_of_both(
                                left.entries(),
                                right.entries(),
                                m,
                                periodic,
                                *point,
                            );
                            if bounds_from_below(m, periodic, *point) {
                                lemma_box_bounds_tree(candidate, m, *point);
                            }
                            if bound <= max_dist {
                                lemma_waiting_insert(
                                    before,
                                    at,
                                    (bound, candidate),
                                    m,
                                    periodic,
                                    *point,
                                );
                                before.insert_ensures(at, (bound, candidate));
                                assert(bounded_below((bound, candidate), m, periodic, *point));
                                if all_bounded(old(pending)@, m, periodic, *point) {
                                    assert forall|j: int|
                                        0 <= j < pending@.len() implies bounded_below(
                                        #[trigger] pending@[j],
                                        m,
                                        periodic,
                                        *point,
                                    ) by {
                                        if j < at {
                                            assert(pending@[j] == before[j]);
                                        } else if j > at {
                                            assert(pending@[j] == before[j - 1]);
                                        }
                                    }
                                }
                            } else {
                                lemma_scored_of_both(
                                    skipped_before,
                                    candidate.entries(),
                                    m,
                                    periodic,
                                    *point,
                                );
                                if bounds_from_below(m, periodic, *point) {
                                    assert forall|x: (i64, T)|
                                        scored(skipped, m, periodic, *point).to_multiset().count(x)
                                            > 0 implies x.0 > max_dist by {
                                        if scored(
                                            skipped_before,
                                            m,
                                            periodic,
                                            *point,
                                        ).to_multiset().count(x) == 0 {
                                            lemma_none_nearer_counts(bound, theirs, x);
                                        }
                                    }
                                }
                            }
                        }
                    }
                    node = next;
                },
            }
        }
    }
}

} // verus!
