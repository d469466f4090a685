//! What it means to sort: order, permutation, and the facts every sort shares.
use vstd::prelude::*;

verus! {

broadcast use vstd::seq_lib::group_to_multiset_ensures;

/// `s` is in non-decreasing order between positions `lo` (inclusive) and `hi` (exclusive).
pub open spec fn sorted_between(s: Seq<u64>, lo: int, hi: int) -> bool {
    forall|a: int, b: int| lo <= a <= b < hi ==> s[a] <= s[b]
}

/// `s` is in non-decreasing order.
pub open spec fn sorted(s: Seq<u64>) -> bool {
    sorted_between(s, 0, s.len() as int)
}

/// `t` holds exactly the values of `s`, each as many times.
pub open spec fn permutation_of(t: Seq<u64>, s: Seq<u64>) -> bool {
    t.to_multiset() == s.to_multiset()
}

/// `t` is a sorted rearrangement of `s`: what every sort of this library produces.
pub open spec fn sorting_of(t: Seq<u64>, s: Seq<u64>) -> bool {
    sorted(t) && permutation_of(t, s)
}

/// `t` agrees with `s` outside `[lo, hi)` and rearranges `s` inside it.
pub open spec fn permuted_within(t: Seq<u64>, s: Seq<u64>, lo: int, hi: int) -> bool {
    &&& 0 <= lo <= hi <= s.len()
    &&& t.len() == s.len()
    &&& forall|k: int| 0 <= k < s.len() && !(lo <= k < hi) ==> t[k] == s[k]
    &&& t.subrange(lo, hi).to_multiset() == s.subrange(lo, hi).to_multiset()
}

/// Every value in `[lo1, hi1)` of `s` is at most every value in `[lo2, hi2)`.
pub open spec fn all_le(s: Seq<u64>, lo1: int, hi1: int, lo2: int, hi2: int) -> bool {
    forall|a: int, b: int| lo1 <= a < hi1 && lo2 <= b < hi2 ==> s[a] <= s[b]
}

/// `s` with the values at `i` and `j` exchanged.
pub open spec fn swapped(s: Seq<u64>, i: int, j: int) -> Seq<u64> {
    s.update(i, s[j]).update(j, s[i])
}

/// Exchanges the values at positions `i` and `j`.
pub fn swap(v: &mut Vec<u64>, i: usize, j: usize)
    requires
        i < old(v)@.len(),
        j < old(v)@.len(),
    ensures
        final(v)@ == swapped(old(v)@, i as int, j as int),
{
    let a = v[i];
    let b = v[j];
    v[i] = b;
    v[j] = a;
}

/// Exchanging two values of a range rearranges that range.
pub proof fn lemma_swap_permutes(s: Seq<u64>, i: int, j: int, lo: int, hi: int)
    requires
        0 <= lo <= i < hi <= s.len(),
        lo <= j < hi,
    ensures
        permuted_within(swapped(s, i, j), s, lo, hi),
{
    let t = swapped(s, i, j);
    let r = s.subrange(lo, hi);
    let r1 = r.update(i - lo, s[j]);
    assert(t.subrange(lo, hi) =~= r1.update(j - lo, s[i]));
    vstd::seq_lib::to_multiset_update(r, i - lo, s[j]);
    vstd::seq_lib::to_multiset_update(r1, j - lo, s[i]);
    assert(r.to_multiset().count(s[i]) > 0) by {
        assert(r[i - lo] == s[i]);
        assert(r.contains(s[i]));
    }
    broadcast use vstd::multiset::group_multiset_axioms;
    assert(t.subrange(lo, hi).to_multiset() =~= r.to_multiset());
}

/// A rearrangement of a range is a rearrangement of the whole sequence.
pub proof fn lemma_permuted_within_whole(t: Seq<u64>, s: Seq<u64>, lo: int, hi: int)
    requires
        permuted_within(t, s, lo, hi),
    ensures
        permutation_of(t, s),
{
    let n = s.len() as int;
    assert(s =~= s.subrange(0, lo) + s.subrange(lo, hi) + s.subrange(hi, n));
    assert(t =~= t.subrange(0, lo) + t.subrange(lo, hi) + t.subrange(hi, n));
    assert(t.subrange(0, lo) =~= s.subrange(0, lo));
    assert(t.subrange(hi, n) =~= s.subrange(hi, n));
    vstd::seq_lib::lemma_multiset_commutative(s.subrange(0, lo), s.subrange(lo, hi));
    vstd::seq_lib::lemma_multiset_commutative(s.subrange(0, lo) + s.subrange(lo, hi), s.subrange(hi, n));
    vstd::seq_lib::lemma_multiset_commutative(t.subrange(0, lo), t.subrange(lo, hi));
    vstd::seq_lib::lemma_multiset_commutative(t.subrange(0, lo) + t.subrange(lo, hi), t.subrange(hi, n));
}

/// Rearranging a range twice rearranges it.
pub proof fn lemma_permuted_within_trans(u: Seq<u64>, t: Seq<u64>, s: Seq<u64>, lo: int, hi: int)
    requires
        permuted_within(u, t, lo, hi),
        permuted_within(t, s, lo, hi),
    ensures
        permuted_within(u, s, lo, hi),
{
}

/// A rearrangement of a smaller range is one of a larger range around it.
pub proof fn lemma_permuted_within_widen(t: Seq<u64>, s: Seq<u64>, lo: int, hi: int, lo2: int, hi2: int)
    requires
        permuted_within(t, s, lo2, hi2),
        0 <= lo <= lo2,
        hi2 <= hi <= s.len(),
    ensures
        permuted_within(t, s, lo, hi),
{
    let ts = t.subrange(lo, hi);
    let ss = s.subrange(lo, hi);
    assert(ts.subrange(lo2 - lo, hi2 - lo) =~= t.subrange(lo2, hi2));
    assert(ss.subrange(lo2 - lo, hi2 - lo) =~= s.subrange(lo2, hi2));
    lemma_permuted_within_whole(ts, ss, lo2 - lo, hi2 - lo);
}

/// Each value of a rearranged range was somewhere in that range before.
pub proof fn lemma_permuted_source(t: Seq<u64>, s: Seq<u64>, lo: int, hi: int, k: int) -> (k2: int)
    requires
        permuted_within(t, s, lo, hi),
        lo <= k < hi,
    ensures
        lo <= k2 < hi,
        t[k] == s[k2],
{
    let ts = t.subrange(lo, hi);
    let ss = s.subrange(lo, hi);
    assert(ts[k - lo] == t[k]);
    assert(ts.contains(t[k]));
    assert(ss.to_multiset().count(t[k]) > 0);
    assert(ss.contains(t[k]));
    let i = choose|i: int| 0 <= i < ss.len() && ss[i] == t[k];
    lo + i
}

} // verus!
