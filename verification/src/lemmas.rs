//! Facts about sequences and the multisets of their items.

use vstd::multiset::Multiset;
use vstd::prelude::*;

verus! {

/// What holds of every item of `a` holds of every item of `b`, if `b` has no
/// item that `a` lacks.
pub proof fn lemma_holds_of_selection<E>(a: Seq<E>, b: Seq<E>, p: spec_fn(E) -> bool)
    requires
        b.to_multiset().subset_of(a.to_multiset()),
        forall|i: int| 0 <= i < a.len() ==> p(#[trigger] a[i]),
    ensures
        forall|i: int| 0 <= i < b.len() ==> p(#[trigger] b[i]),
{
    assert forall|i: int| 0 <= i < b.len() implies p(#[trigger] b[i]) by {
        lemma_item_of_selection(a, b, i);
    }
}

/// Each item of `b` is an item of `a`, if `b` has no item that `a` lacks.
pub proof fn lemma_item_of_selection<E>(a: Seq<E>, b: Seq<E>, i: int)
    requires
        b.to_multiset().subset_of(a.to_multiset()),
        0 <= i < b.len(),
    ensures
        exists|j: int| 0 <= j < a.len() && a[j] == b[i],
{
    a.to_multiset_ensures();
    b.to_multiset_ensures();
    assert(b.contains(b[i]));
    assert(b.to_multiset().count(b[i]) > 0);
    assert(a.to_multiset().count(b[i]) > 0);
    assert(a.contains(b[i]));
}

/// Taking the item at `i` out of a sequence by moving the last item into
/// its place takes one copy of that item out of the multiset.
pub proof fn lemma_swap_remove_multiset<E>(s: Seq<E>, i: int)
    requires
        0 <= i < s.len(),
    ensures
        s.update(i, s.last()).drop_last().to_multiset() =~= s.to_multiset().remove(s[i]),
{
    broadcast use vstd::multiset::group_multiset_axioms;

    let n = s.len() as int;
    let t = s.update(i, s.last());
    vstd::seq_lib::to_multiset_update(s, i, s.last());
    assert(t.drop_last() =~= t.remove(n - 1));
    vstd::seq_lib::to_multiset_remove(t, n - 1);
    assert(t[n - 1] == s.last());
    s.to_multiset_ensures();
    assert(s.contains(s[i]));
    assert(s.contains(s.last()));
}

/// The multiset of a sequence that ends in `x` is that of the rest, and `x`.
pub proof fn lemma_pop_multiset<E>(s: Seq<E>)
    requires
        s.len() > 0,
    ensures
        s.to_multiset() =~= s.drop_last().to_multiset().insert(s.last()),
{
    assert(s =~= s.drop_last().push(s.last()));
    vstd::seq_lib::to_multiset_build(s.drop_last(), s.last());
}

/// A sequence without items has the empty multiset.
pub proof fn lemma_empty_multiset<E>(s: Seq<E>)
    requires
        s.len() == 0,
    ensures
        s.to_multiset() =~= Multiset::<E>::empty(),
{
    broadcast use vstd::multiset::group_multiset_axioms;

    s.to_multiset_ensures();
    vstd::multiset::lemma_multiset_empty_len(s.to_multiset());
}

/// Filtering the multiset of a sequence by what holds of each of its items
/// changes nothing.
pub proof fn lemma_filter_keeps_all<E>(s: Seq<E>, keep: spec_fn(E) -> bool)
    requires
        forall|i: int| 0 <= i < s.len() ==> keep(#[trigger] s[i]),
    ensures
        s.to_multiset().filter(keep) =~= s.to_multiset(),
{
    broadcast use vstd::multiset::group_multiset_axioms;

    s.to_multiset_ensures();
    assert forall|v: E| s.to_multiset().filter(keep).count(v) == s.to_multiset().count(v) by {
        if !keep(v) {
            if s.contains(v) {
                let i = choose|i: int| 0 <= i < s.len() && s[i] == v;
                assert(keep(s[i]));
            }
        }
    }
}

} // verus!
