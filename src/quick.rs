//! Quicksort with a random pivot, in a two-way and a three-way partitioning form.
use vstd::prelude::*;
use crate::order::{
    sorted_between, sorting_of, permuted_within, all_le, swapped, swap, lemma_swap_permutes,
    lemma_permuted_within_whole, lemma_permuted_within_trans, lemma_permuted_within_widen,
    lemma_permuted_source,
};
use crate::simple::insertion_sort_range;

verus! {

/// Ranges at most this long are left to insertion sort.
pub const SMALL: usize = 30;

/// Relies on `fastrand::usize`: a value drawn from `0..n`, a range that is not
/// empty here (it panics on an empty one).
#[verifier::external_body]
fn random_index(n: usize) -> (r: usize)
    requires
        n > 0,
    ensures
        r < n,
{
    fastrand::usize(..n)
}

/// What holds of `s[lo..hi]` while quicksort works on the part `[lo2, hi2)` of it:
/// the parts before and after are sorted, and no value before that part is
/// larger, and no value after it smaller, than a value in it.
pub open spec fn settled_outside(s: Seq<u64>, lo: int, lo2: int, hi2: int, hi: int) -> bool {
    &&& 0 <= lo <= lo2 <= hi2 <= hi <= s.len()
    &&& sorted_between(s, lo, lo2)
    &&& sorted_between(s, hi2, hi)
    &&& all_le(s, lo, lo2, lo2, hi)
    &&& all_le(s, lo, hi2, hi2, hi)
}

/// Rearranging a part on one side of a split keeps every value left of the
/// split at most every value right of it.
pub proof fn lemma_split_kept(t: Seq<u64>, s: Seq<u64>, lo: int, m: int, hi: int, rlo: int, rhi: int)
    requires
        permuted_within(t, s, rlo, rhi),
        0 <= lo <= rlo <= rhi <= hi <= s.len(),
        rhi <= m || m <= rlo,
        all_le(s, lo, m, m, hi),
    ensures
        all_le(t, lo, m, m, hi),
{
    assert forall|a: int, b: int| lo <= a < m && m <= b < hi implies t[a] <= t[b] by {
        let a2 = if rlo <= a < rhi { lemma_permuted_source(t, s, rlo, rhi, a) } else { a };
        let b2 = if rlo <= b < rhi { lemma_permuted_source(t, s, rlo, rhi, b) } else { b };
        assert(s[a2] <= s[b2]);
    }
}

/// One round of quicksort: `t` rearranges `[lo2, hi2)` of `s` around a block
/// `[m1, m2)` of equal values, and one side of it is sorted; that side and the
/// block join the settled part.
pub proof fn lemma_round(s: Seq<u64>, t: Seq<u64>, lo: int, lo2: int, hi2: int, hi: int, m1: int, m2: int, left: bool)
    requires
        settled_outside(s, lo, lo2, hi2, hi),
        permuted_within(t, s, lo2, hi2),
        lo2 <= m1 < m2 <= hi2,
        all_le(t, lo2, m1, m1, hi2),
        all_le(t, lo2, m2, m2, hi2),
        sorted_between(t, m1, m2),
        left ==> sorted_between(t, lo2, m1),
        !left ==> sorted_between(t, m2, hi2),
    ensures
        left ==> settled_outside(t, lo, m2, hi2, hi),
        !left ==> settled_outside(t, lo, lo2, m1, hi),
{
    lemma_settled_kept(s, t, lo, lo2, hi2, hi);
}

/// Rearranging the unsettled part keeps the rest settled.
pub proof fn lemma_settled_kept(s: Seq<u64>, t: Seq<u64>, lo: int, lo2: int, hi2: int, hi: int)
    requires
        settled_outside(s, lo, lo2, hi2, hi),
        permuted_within(t, s, lo2, hi2),
    ensures
        settled_outside(t, lo, lo2, hi2, hi),
{
    // each value of `t` in `[lo2, hi2)` was in that part of `s`
    assert forall|a: int, b: int| lo <= a < lo2 && lo2 <= b < hi implies t[a] <= t[b] by {
        let b2 = if b < hi2 { lemma_permuted_source(t, s, lo2, hi2, b) } else { b };
        assert(s[a] <= s[b2]);
    }
    assert forall|a: int, b: int| lo <= a < hi2 && hi2 <= b < hi implies t[a] <= t[b] by {
        let a2 = if lo2 <= a { lemma_permuted_source(t, s, lo2, hi2, a) } else { a };
        assert(s[a2] <= s[b]);
    }
}

/// Everything in a settled range whose middle part is sorted is sorted.
pub proof fn lemma_settled_sorted(s: Seq<u64>, lo: int, lo2: int, hi2: int, hi: int)
    requires
        settled_outside(s, lo, lo2, hi2, hi),
        sorted_between(s, lo2, hi2),
    ensures
        sorted_between(s, lo, hi),
{
}

/// Partitions `v[lo..hi]` around its first value `p`: the values less than `p`
/// come first, then `p` at the returned position, then the values not less than it.
fn partition(v: &mut Vec<u64>, lo: usize, hi: usize) -> (mid: usize)
    requires
        lo < hi <= old(v)@.len(),
    ensures
        permuted_within(final(v)@, old(v)@, lo as int, hi as int),
        lo <= mid < hi,
        final(v)@[mid as int] == old(v)@[lo as int],
        forall|k: int| lo <= k < mid ==> final(v)@[k] < final(v)@[mid as int],
        forall|k: int| mid < k < hi ==> final(v)@[k] >= final(v)@[mid as int],
{
    let ghost orig = v@;
    let p = v[lo];
    let mut i: usize = lo + 1;
    let mut j: usize = lo + 1;
    proof {
        assert(v@.subrange(lo as int, hi as int) == orig.subrange(lo as int, hi as int));
    }
    while j < hi
        invariant
            lo < i <= j <= hi <= v@.len(),
            v@[lo as int] == p,
            p == orig[lo as int],
            permuted_within(v@, orig, lo as int, hi as int),
            forall|k: int| lo < k < i ==> v@[k] < p,
            forall|k: int| i <= k < j ==> v@[k] >= p,
        decreases hi - j,
    {
        if v[j] < p {
            proof {
                lemma_swap_permutes(v@, i as int, j as int, lo as int, hi as int);
                lemma_permuted_within_trans(swapped(v@, i as int, j as int), v@, orig, lo as int, hi as int);
            }
            swap(v, i, j);
            i = i + 1;
        }
        j = j + 1;
    }
    proof {
        lemma_swap_permutes(v@, i - 1, lo as int, lo as int, hi as int);
        lemma_permuted_within_trans(swapped(v@, i - 1, lo as int), v@, orig, lo as int, hi as int);
    }
    swap(v, i - 1, lo);
    i - 1
}

/// Sorts `v[lo..hi]` by quicksort with a random pivot, going on with the
/// larger part of each partition and recursing only into the smaller one,
/// and leaving ranges of at most `SMALL` values to insertion sort.
fn quick_sort_range(v: &mut Vec<u64>, lo: usize, hi: usize)
    requires
        lo <= hi <= old(v)@.len(),
    ensures
        permuted_within(final(v)@, old(v)@, lo as int, hi as int),
        sorted_between(final(v)@, lo as int, hi as int),
    decreases hi - lo,
{
    let ghost orig = v@;
    let mut lo2: usize = lo;
    let mut hi2: usize = hi;
    proof {
        assert(v@.subrange(lo as int, hi as int) == orig.subrange(lo as int, hi as int));
    }
    while hi2 - lo2 > SMALL
        invariant
            lo <= lo2 <= hi2 <= hi <= v@.len(),
            permuted_within(v@, orig, lo as int, hi as int),
            settled_outside(v@, lo as int, lo2 as int, hi2 as int, hi as int),
        decreases hi2 - lo2,
    {
        let ghost s0 = v@;
        let pivot = lo2 + random_index(hi2 - lo2);
        proof {
            lemma_swap_permutes(v@, pivot as int, lo2 as int, lo2 as int, hi2 as int);
        }
        swap(v, pivot, lo2);
        let ghost s1 = v@;
        let mid = partition(v, lo2, hi2);
        let ghost s2 = v@;
        proof {
            lemma_permuted_within_trans(s2, s1, s0, lo2 as int, hi2 as int);
            assert(all_le(s2, lo2 as int, mid as int, mid as int, hi2 as int));
            assert(all_le(s2, lo2 as int, mid + 1, mid + 1, hi2 as int));
        }
        let left = mid - lo2 < hi2 - mid;
        if left {
            quick_sort_range(v, lo2, mid);
            proof {
                lemma_split_kept(v@, s2, lo2 as int, mid as int, hi2 as int, lo2 as int, mid as int);
                lemma_split_kept(v@, s2, lo2 as int, mid + 1, hi2 as int, lo2 as int, mid as int);
            }
        } else {
            quick_sort_range(v, mid + 1, hi2);
            proof {
                lemma_split_kept(v@, s2, lo2 as int, mid as int, hi2 as int, mid + 1, hi2 as int);
                lemma_split_kept(v@, s2, lo2 as int, mid + 1, hi2 as int, mid + 1, hi2 as int);
            }
        }
        proof {
            let t = v@;
            if left {
                lemma_permuted_within_widen(t, s2, lo2 as int, hi2 as int, lo2 as int, mid as int);
            } else {
                lemma_permuted_within_widen(t, s2, lo2 as int, hi2 as int, mid + 1, hi2 as int);
            }
            lemma_permuted_within_trans(t, s2, s0, lo2 as int, hi2 as int);
            lemma_round(s0, t, lo as int, lo2 as int, hi2 as int, hi as int, mid as int, mid + 1, left);
            lemma_permuted_within_widen(t, s0, lo as int, hi as int, lo2 as int, hi2 as int);
            lemma_permuted_within_trans(t, s0, orig, lo as int, hi as int);
        }
        if left {
            lo2 = mid + 1;
        } else {
            hi2 = mid;
        }
    }
    let ghost s0 = v@;
    insertion_sort_range(v, lo2, hi2);
    proof {
        let t = v@;
        lemma_permuted_within_widen(t, s0, lo as int, hi as int, lo2 as int, hi2 as int);
        lemma_permuted_within_trans(t, s0, orig, lo as int, hi as int);
        lemma_settled_kept(s0, t, lo as int, lo2 as int, hi2 as int, hi as int);
        lemma_settled_sorted(t, lo as int, lo2 as int, hi2 as int, hi as int);
    }
}

/// Sorts `v` by quicksort with a random pivot and a two-way partition.
pub fn quick_sort(v: &mut Vec<u64>)
    ensures
        sorting_of(final(v)@, old(v)@),
{
    let n = v.len();
    quick_sort_range(v, 0, n);
    proof {
        lemma_permuted_within_whole(v@, old(v)@, 0, n as int);
    }
}

/// Partitions `v[lo..hi]` around its first value `p` into the values less than
/// `p`, those equal to it and those greater, in one left-to-right scan; returns
/// the bounds `(m1, m2)` of the block equal to `p`.
fn partition_3(v: &mut Vec<u64>, lo: usize, hi: usize) -> (r: (usize, usize))
    requires
        lo < hi <= old(v)@.len(),
    ensures
        permuted_within(final(v)@, old(v)@, lo as int, hi as int),
        lo <= r.0 < r.1 <= hi,
        forall|k: int| lo <= k < r.0 ==> final(v)@[k] < old(v)@[lo as int],
        forall|k: int| r.0 <= k < r.1 ==> final(v)@[k] == old(v)@[lo as int],
        forall|k: int| r.1 <= k < hi ==> final(v)@[k] > old(v)@[lo as int],
{
    let ghost orig = v@;
    let p = v[lo];
    let mut mid1: usize = lo + 1;
    let mut mid2: usize = lo + 1;
    let mut j: usize = lo + 1;
    proof {
        assert(v@.subrange(lo as int, hi as int) == orig.subrange(lo as int, hi as int));
    }
    while j < hi
        invariant
            lo < mid1 <= mid2 <= j <= hi <= v@.len(),
            v@[lo as int] == p,
            p == orig[lo as int],
            permuted_within(v@, orig, lo as int, hi as int),
            forall|k: int| lo < k < mid1 ==> v@[k] < p,
            forall|k: int| mid1 <= k < mid2 ==> v@[k] == p,
            forall|k: int| mid2 <= k < j ==> v@[k] > p,
        decreases hi - j,
    {
        if v[j] < p {
            proof {
                lemma_swap_permutes(v@, mid2 as int, j as int, lo as int, hi as int);
                lemma_permuted_within_trans(swapped(v@, mid2 as int, j as int), v@, orig, lo as int, hi as int);
            }
            swap(v, mid2, j);
            proof {
                lemma_swap_permutes(v@, mid2 as int, mid1 as int, lo as int, hi as int);
                lemma_permuted_within_trans(swapped(v@, mid2 as int, mid1 as int), v@, orig, lo as int, hi as int);
            }
            swap(v, mid2, mid1);
            mid1 = mid1 + 1;
            mid2 = mid2 + 1;
        } else if v[j] == p {
            proof {
                lemma_swap_permutes(v@, mid2 as int, j as int, lo as int, hi as int);
                lemma_permuted_within_trans(swapped(v@, mid2 as int, j as int), v@, orig, lo as int, hi as int);
            }
            swap(v, mid2, j);
            mid2 = mid2 + 1;
        }
        j = j + 1;
    }
    proof {
        lemma_swap_permutes(v@, mid1 - 1, lo as int, lo as int, hi as int);
        lemma_permuted_within_trans(swapped(v@, mid1 - 1, lo as int), v@, orig, lo as int, hi as int);
    }
    swap(v, mid1 - 1, lo);
    (mid1 - 1, mid2)
}

/// Sorts `v[lo..hi]` by quicksort with a random pivot and a three-way
/// partition, going on with the larger outer part and recursing only into the
/// smaller one, and leaving ranges of at most `SMALL` values to insertion sort.
fn quick_sort_3_range(v: &mut Vec<u64>, lo: usize, hi: usize)
    requires
        lo <= hi <= old(v)@.len(),
    ensures
        permuted_within(final(v)@, old(v)@, lo as int, hi as int),
        sorted_between(final(v)@, lo as int, hi as int),
    decreases hi - lo,
{
    let ghost orig = v@;
    let mut lo2: usize = lo;
    let mut hi2: usize = hi;
    proof {
        assert(v@.subrange(lo as int, hi as int) == orig.subrange(lo as int, hi as int));
    }
    while hi2 - lo2 > SMALL
        invariant
            lo <= lo2 <= hi2 <= hi <= v@.len(),
            permuted_within(v@, orig, lo as int, hi as int),
            settled_outside(v@, lo as int, lo2 as int, hi2 as int, hi as int),
        decreases hi2 - lo2,
    {
        let ghost s0 = v@;
        let pivot = lo2 + random_index(hi2 - lo2);
        proof {
            lemma_swap_permutes(v@, pivot as int, lo2 as int, lo2 as int, hi2 as int);
        }
        swap(v, pivot, lo2);
        let ghost s1 = v@;
        let (mid1, mid2) = partition_3(v, lo2, hi2);
        let ghost s2 = v@;
        proof {
            lemma_permuted_within_trans(s2, s1, s0, lo2 as int, hi2 as int);
            assert(all_le(s2, lo2 as int, mid1 as int, mid1 as int, hi2 as int));
            assert(all_le(s2, lo2 as int, mid2 as int, mid2 as int, hi2 as int));
        }
        let left = mid1 - lo2 < hi2 - mid2;
        if left {
            quick_sort_3_range(v, lo2, mid1);
            proof {
                lemma_split_kept(v@, s2, lo2 as int, mid1 as int, hi2 as int, lo2 as int, mid1 as int);
                lemma_split_kept(v@, s2, lo2 as int, mid2 as int, hi2 as int, lo2 as int, mid1 as int);
                lemma_permuted_within_widen(v@, s2, lo2 as int, hi2 as int, lo2 as int, mid1 as int);
            }
        } else {
            quick_sort_3_range(v, mid2, hi2);
            proof {
                lemma_split_kept(v@, s2, lo2 as int, mid1 as int, hi2 as int, mid2 as int, hi2 as int);
                lemma_split_kept(v@, s2, lo2 as int, mid2 as int, hi2 as int, mid2 as int, hi2 as int);
                lemma_permuted_within_widen(v@, s2, lo2 as int, hi2 as int, mid2 as int, hi2 as int);
            }
        }
        proof {
            let t = v@;
            assert(sorted_between(t, mid1 as int, mid2 as int)) by {
                assert forall|a: int| mid1 <= a < mid2 implies t[a] == s2[a] by {}
            }
            lemma_permuted_within_trans(t, s2, s0, lo2 as int, hi2 as int);
            lemma_round(s0, t, lo as int, lo2 as int, hi2 as int, hi as int, mid1 as int, mid2 as int, left);
            lemma_permuted_within_widen(t, s0, lo as int, hi as int, lo2 as int, hi2 as int);
            lemma_permuted_within_trans(t, s0, orig, lo as int, hi as int);
        }
        if left {
            lo2 = mid2;
        } else {
            hi2 = mid1;
        }
    }
    let ghost s0 = v@;
    insertion_sort_range(v, lo2, hi2);
    proof {
        let t = v@;
        lemma_permuted_within_widen(t, s0, lo as int, hi as int, lo2 as int, hi2 as int);
        lemma_permuted_within_trans(t, s0, orig, lo as int, hi as int);
        lemma_settled_kept(s0, t, lo as int, lo2 as int, hi2 as int, hi as int);
        lemma_settled_sorted(t, lo as int, lo2 as int, hi2 as int, hi as int);
    }
}

/// Sorts `v` by quicksort with a random pivot and a three-way partition, which
/// sets all values equal to the pivot aside at once.
pub fn quick_sort_3(v: &mut Vec<u64>)
    ensures
        sorting_of(final(v)@, old(v)@),
{
    let n = v.len();
    quick_sort_3_range(v, 0, n);
    proof {
        lemma_permuted_within_whole(v@, old(v)@, 0, n as int);
    }
}

} // verus!
