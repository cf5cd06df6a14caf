//! The order of payloads, by which the best pairs within a radius are
//! chosen.

use core::cmp::Ordering;
use vstd::prelude::*;
use vstd::std_specs::cmp::{OrdSpec, PartialEqSpec, PartialOrdSpec};

verus! {

/// Whether payloads of type `T` are totally ordered, and compared in
/// executable code as in contracts.
pub open spec fn payloads_ordered<T: Ord>() -> bool {
    vstd::laws_cmp::obeys_cmp::<T>()
}

/// Whether payload `a` comes before payload `b`.
pub open spec fn payload_below<T: Ord>(a: T, b: T) -> bool {
    a.partial_cmp_spec(&b) == Some(Ordering::Less)
}

/// Whether the payloads of `v` never decrease.
pub open spec fn payloads_ascend<T: Ord>(v: Seq<T>) -> bool {
    forall|i: int, j: int| 0 <= i <= j < v.len() ==> !payload_below(v[j], v[i])
}

/// Whether payload `x` comes before none of the payloads of `v`.
pub open spec fn below_none<T: Ord>(x: T, v: Seq<T>) -> bool {
    forall|i: int| 0 <= i < v.len() ==> !payload_below(x, #[trigger] v[i])
}

/// Whether payload `a` comes before payload `b`.
pub fn is_below<T: Ord>(a: &T, b: &T) -> (r: bool)
    ensures
        payloads_ordered::<T>() ==> r == payload_below(*a, *b),
{
    proof {
        if payloads_ordered::<T>() {
            reveal(vstd::laws_cmp::obeys_cmp_partial_ord);
        }
    }
    *a < *b
}

/// Of two ordered payloads, at most one comes before the other.
pub proof fn lemma_below_one_way<T: Ord>(a: T, b: T)
    requires
        payloads_ordered::<T>(),
        payload_below(a, b),
    ensures
        !payload_below(b, a),
{
    reveal(vstd::laws_cmp::obeys_partial_cmp_spec_properties);
}

/// What comes before a payload comes before everything that the payload
/// comes before.
pub proof fn lemma_below_chain<T: Ord>(a: T, b: T, c: T)
    requires
        payloads_ordered::<T>(),
        payload_below(a, b),
        payload_below(b, c),
    ensures
        payload_below(a, c),
{
    reveal(vstd::laws_cmp::obeys_partial_cmp_spec_properties);
}

/// If `c` comes before neither `b` nor, through `b`, anything not above
/// `b`: where `b` does not come before `a` and `c` does not come before
/// `b`, `c` does not come before `a`.
pub proof fn lemma_not_below_chain<T: Ord>(a: T, b: T, c: T)
    requires
        payloads_ordered::<T>(),
        !payload_below(b, a),
        !payload_below(c, b),
    ensures
        !payload_below(c, a),
{
    reveal(vstd::laws_cmp::obeys_partial_cmp_spec_properties);
    reveal(vstd::laws_cmp::obeys_cmp_partial_ord);
    reveal(vstd::laws_cmp::obeys_cmp_ord);
    reveal(vstd::laws_eq::obeys_eq_spec_properties);
    if payload_below(c, a) {
        let ab = a.cmp_spec(&b);
        let bc = b.cmp_spec(&c);
        assert(a.partial_cmp_spec(&b) == Some(ab));
        assert(b.partial_cmp_spec(&c) == Some(bc));
        assert(b.partial_cmp_spec(&a) != Some(Ordering::Less));
        assert(c.partial_cmp_spec(&b) != Some(Ordering::Less));
        assert(ab != Ordering::Greater);
        assert(bc != Ordering::Greater);
        if ab == Ordering::Less {
            if bc == Ordering::Less {
                assert(payload_below(a, c));
            } else {
                assert(b.eq_spec(&c));
                assert(c.partial_cmp_spec(&a) == Some(Ordering::Less));
                assert(a.partial_cmp_spec(&c) == Some(Ordering::Greater));
                assert(c.eq_spec(&b));
                assert(c.partial_cmp_spec(&b) == Some(Ordering::Equal));
                assert(b.partial_cmp_spec(&a) == Some(Ordering::Greater));
                assert(false);
            }
        } else {
            assert(a.eq_spec(&b));
            if bc == Ordering::Less {
                assert(b.partial_cmp_spec(&c) == Some(Ordering::Less));
                assert(payload_below(b, a));
            } else {
                assert(b.eq_spec(&c));
                assert(a.eq_spec(&c));
                assert(c.eq_spec(&a));
            }
        }
    }
}

/// Puts `x` into `v` behind the last payload that it does not come before,
/// and returns its place. Where the payloads are ordered and those of `v`
/// never decrease, they still never decrease afterwards.
pub fn insert_payload<T: Ord>(v: &mut Vec<T>, x: T) -> (at: usize)
    ensures
        at <= old(v)@.len(),
        final(v)@ == old(v)@.insert(at as int, x),
        payloads_ordered::<T>() && payloads_ascend(old(v)@) ==> payloads_ascend(final(v)@),
{
    let mut at: usize = v.len();
    while at > 0 && is_below(&x, &v[at - 1])
        invariant
            0 <= at <= v@.len(),
            v@ == old(v)@,
            payloads_ordered::<T>() ==> forall|j: int|
                at <= j < v@.len() ==> payload_below(x, #[trigger] v@[j]),
            payloads_ordered::<T>() && at < v@.len() ==> payload_below(x, v@[at as int]),
        decreases at,
    {
        at -= 1;
    }
    let ghost before = v@;
    let ghost stopped = at > 0 && payloads_ordered::<T>() ==> !payload_below(x, v@[at - 1]);
    assert(stopped);
    v.insert(at, x);
    proof {
        before.insert_ensures(at as int, x);
        if payloads_ordered::<T>() && payloads_ascend(before) {
            let after = v@;
            assert forall|i: int, j: int| 0 <= i <= j < after.len() implies !payload_below(
                after[j],
                after[i],
            ) by {
                if i == j {
                    if payload_below(after[i], after[i]) {
                        lemma_below_one_way(after[i], after[i]);
                    }
                } else if j < at {
                    assert(after[i] == before[i] && after[j] == before[j]);
                } else if i > at {
                    assert(after[i] == before[i - 1] && after[j] == before[j - 1]);
                } else if i == at {
                    assert(after[j] == before[j - 1]);
                    assert(payload_below(x, before[j - 1]));
                    lemma_below_one_way(x, before[j - 1]);
                } else if j == at {
                    assert(after[i] == before[i]);
                    assert(!payload_below(before[at - 1], before[i]));
                    assert(!payload_below(x, before[at - 1]));
                    lemma_not_below_chain(before[i], before[at - 1], x);
                } else {
                    assert(after[i] == before[i] && after[j] == before[j - 1]);
                }
            }
        }
    }
    at
}

} // verus!
