//! Stable ascending ordering of (value, class) pairs by attribute value.
//!
//! The specification `sort_by_value` is the stable sort: pairs are ordered
//! by their value, and pairs with equal values keep their original relative
//! order. The executable sort is delegated to the `ord_subset` crate.

use vstd::prelude::*;

verus! {

/// Insert `p` into the value-sorted sequence `s`, after every pair whose
/// value is at most `p`'s value.
pub open spec fn insert_by_value(s: Seq<(i64, u64)>, p: (i64, u64)) -> Seq<(i64, u64)>
    decreases s.len(),
{
    if s.len() == 0 {
        seq![p]
    } else if s.last().0 <= p.0 {
        s.push(p)
    } else {
        insert_by_value(s.drop_last(), p).push(s.last())
    }
}

/// The stable ascending sort of `s` by attribute value: later pairs are
/// inserted after every earlier pair with an equal or smaller value.
pub open spec fn sort_by_value(s: Seq<(i64, u64)>) -> Seq<(i64, u64)>
    decreases s.len(),
{
    if s.len() == 0 {
        Seq::empty()
    } else {
        insert_by_value(sort_by_value(s.drop_last()), s.last())
    }
}

/// Values ascend (non-strictly) along the sequence.
pub open spec fn sorted_by_value(s: Seq<(i64, u64)>) -> bool {
    forall|i: int, j: int| 0 <= i < j < s.len() ==> s[i].0 <= s[j].0
}

pub proof fn lemma_insert_len(s: Seq<(i64, u64)>, p: (i64, u64))
    ensures
        insert_by_value(s, p).len() == s.len() + 1,
    decreases s.len(),
{
    if s.len() > 0 && !(s.last().0 <= p.0) {
        lemma_insert_len(s.drop_last(), p);
    }
}

/// Insertion keeps the sequence value-sorted, and introduces no value
/// other than `p.0` and those already present.
pub proof fn lemma_insert_sorted(s: Seq<(i64, u64)>, p: (i64, u64))
    requires
        sorted_by_value(s),
    ensures
        sorted_by_value(insert_by_value(s, p)),
        forall|k: int|
            0 <= k < insert_by_value(s, p).len() ==> insert_by_value(s, p)[k] == p || s.contains(
                insert_by_value(s, p)[k],
            ),
    decreases s.len(),
{
    lemma_insert_len(s, p);
    if s.len() == 0 {
    } else if s.last().0 <= p.0 {
        assert(forall|k: int| 0 <= k < s.len() ==> s.contains(#[trigger] s[k]));
    } else {
        let s0 = s.drop_last();
        assert(sorted_by_value(s0));
        lemma_insert_sorted(s0, p);
        let t0 = insert_by_value(s0, p);
        let t = t0.push(s.last());
        assert(forall|k: int| 0 <= k < s0.len() ==> s.contains(#[trigger] s0[k]));
        assert(s.contains(s.last()));
        // every pair in t0 is p or from s0, so its value is at most s.last().0
        assert forall|i: int, j: int| 0 <= i < j < t.len() implies t[i].0 <= t[j].0 by {
            if j < t0.len() {
            } else {
                assert(t[j] == s.last());
                assert(t0[i] == p || s0.contains(t0[i]));
                if t0[i] == p {
                    assert(p.0 < s.last().0);
                } else {
                    let w = choose|w: int| 0 <= w < s0.len() && s0[w] == t0[i];
                    assert(s[w].0 <= s.last().0);
                }
            }
        }
    }
}

pub proof fn lemma_sort_len(s: Seq<(i64, u64)>)
    ensures
        sort_by_value(s).len() == s.len(),
    decreases s.len(),
{
    if s.len() > 0 {
        lemma_sort_len(s.drop_last());
        lemma_insert_len(sort_by_value(s.drop_last()), s.last());
    }
}

/// The specified sort really is value-sorted.
pub proof fn lemma_sort_sorted(s: Seq<(i64, u64)>)
    ensures
        sorted_by_value(sort_by_value(s)),
    decreases s.len(),
{
    if s.len() > 0 {
        lemma_sort_sorted(s.drop_last());
        lemma_insert_sorted(sort_by_value(s.drop_last()), s.last());
    }
}

/// Relies on `ord_subset::OrdSubsetSliceExt::ord_subset_sort_by_key`, which
/// delegates to the standard library's stable `sort_by` on the extracted
/// keys. An `i64` key is never outside the order, so the comparator is
/// plain ascending comparison, and the pairs end up in the stable
/// ascending order by value. That order is unique — values ascend, and
/// pairs with equal values keep their input order — and `sort_by_value`
/// computes exactly it.
#[verifier::external_body]
pub fn sort_pairs_by_value(pairs: &mut Vec<(i64, u64)>)
    ensures
        final(pairs)@ == sort_by_value(old(pairs)@),
{
    ord_subset::OrdSubsetSliceExt::ord_subset_sort_by_key(pairs, |p: &(i64, u64)| p.0)
}

} // verus!
