//! Merging of sorted runs, and the merge sorts built on it.
use vstd::prelude::*;
use vstd::multiset::Multiset;
use vstd::arithmetic::div_mod::{lemma_fundamental_div_mod, lemma_fundamental_div_mod_converse};
use crate::order::{sorted_between, sorting_of, lemma_permuted_within_whole};
use crate::simple::insertion_sort_range;

verus! {

broadcast use vstd::seq_lib::group_to_multiset_ensures;

/// The values of `s[lo..hi]` as a multiset.
pub open spec fn values(s: Seq<u64>, lo: int, hi: int) -> Multiset<u64> {
    s.subrange(lo, hi).to_multiset()
}

/// In `s`, the values that fall in one block of `d` positions (`[q*d, q*d+d)`) are in order.
pub open spec fn runs_sorted(s: Seq<u64>, d: int) -> bool {
    forall|a: int, b: int| 0 <= a <= b < s.len() && a / d == b / d ==> s[a] <= s[b]
}

/// The values of a range are those of its two parts together.
pub proof fn lemma_values_split(s: Seq<u64>, lo: int, mid: int, hi: int)
    requires
        0 <= lo <= mid <= hi <= s.len(),
    ensures
        values(s, lo, hi) == values(s, lo, mid).add(values(s, mid, hi)),
{
    assert(s.subrange(lo, hi) =~= s.subrange(lo, mid) + s.subrange(mid, hi));
    vstd::seq_lib::lemma_multiset_commutative(s.subrange(lo, mid), s.subrange(mid, hi));
}

/// A position in the block `[q*d, q*d+d)` has quotient `q` by `d`.
pub proof fn lemma_div_in_block(a: int, q: int, d: int)
    requires
        d > 0,
        q * d <= a < q * d + d,
    ensures
        a / d == q,
{
    lemma_fundamental_div_mod_converse(a, d, q, a - q * d);
}

/// Positions before the block `[q*d, ..)` have a smaller quotient by `d`,
/// positions at or after it one at least `q`.
pub proof fn lemma_div_around_block(a: int, q: int, d: int)
    requires
        d > 0,
        0 <= a,
    ensures
        a < q * d ==> a / d < q,
        q * d <= a ==> q <= a / d,
{
    lemma_fundamental_div_mod(a, d);
    let qa = a / d;
    let r = a % d;
    assert(0 <= r < d);
    assert(a < q * d ==> qa < q) by (nonlinear_arith)
        requires
            a == d * qa + r,
            0 <= r < d,
            d > 0,
    ;
    assert(q * d <= a ==> q <= qa) by (nonlinear_arith)
        requires
            a == d * qa + r,
            0 <= r < d,
            d > 0,
    ;
}

/// Merges the sorted runs `from[lo..mid]` and `from[mid..hi]` into `to[lo..hi]`;
/// of two equal heads, the one of the left run goes first.
fn merge(from: &Vec<u64>, lo: usize, mid: usize, hi: usize, to: &mut Vec<u64>)
    requires
        lo <= mid <= hi <= from@.len() == old(to)@.len(),
        sorted_between(from@, lo as int, mid as int),
        sorted_between(from@, mid as int, hi as int),
    ensures
        final(to)@.len() == old(to)@.len(),
        forall|k: int| 0 <= k < old(to)@.len() && !(lo <= k < hi) ==> final(to)@[k] == old(to)@[k],
        sorted_between(final(to)@, lo as int, hi as int),
        values(final(to)@, lo as int, hi as int) == values(from@, lo as int, hi as int),
{
    let ghost orig = to@;
    let mut i: usize = lo;
    let mut j: usize = mid;
    let mut k: usize = lo;
    while k < hi
        invariant
            lo <= i <= mid <= j <= hi <= from@.len() == to@.len(),
            k == i + j - mid,
            sorted_between(from@, lo as int, mid as int),
            sorted_between(from@, mid as int, hi as int),
            to@.len() == orig.len(),
            forall|x: int| 0 <= x < orig.len() && !(lo <= x < hi) ==> to@[x] == orig[x],
            sorted_between(to@, lo as int, k as int),
            values(to@, lo as int, k as int)
                == values(from@, lo as int, i as int).add(values(from@, mid as int, j as int)),
            k > lo && i < mid ==> to@[k - 1] <= from@[i as int],
            k > lo && j < hi ==> to@[k - 1] <= from@[j as int],
        decreases hi - k,
    {
        let ghost pre = to@;
        if i < mid && (j >= hi || from[i] <= from[j]) {
            to[k] = from[i];
            proof {
                assert(to@.subrange(lo as int, k + 1) =~= pre.subrange(lo as int, k as int).push(from@[i as int]));
                assert(from@.subrange(lo as int, i + 1) =~= from@.subrange(lo as int, i as int).push(from@[i as int]));
            }
            i = i + 1;
        } else {
            to[k] = from[j];
            proof {
                assert(to@.subrange(lo as int, k + 1) =~= pre.subrange(lo as int, k as int).push(from@[j as int]));
                assert(from@.subrange(mid as int, j + 1) =~= from@.subrange(mid as int, j as int).push(from@[j as int]));
            }
            j = j + 1;
        }
        k = k + 1;
    }
    proof {
        lemma_values_split(from@, lo as int, mid as int, hi as int);
    }
}

/// A copy of `v`, used as the second buffer of the merge sorts.
fn copy_of(v: &Vec<u64>) -> (w: Vec<u64>)
    ensures
        w@ == v@,
{
    let mut w: Vec<u64> = Vec::with_capacity(v.len());
    let mut k: usize = 0;
    while k < v.len()
        invariant
            k <= v@.len(),
            w@ == v@.subrange(0, k as int),
        decreases v@.len() - k,
    {
        w.push(v[k]);
        k = k + 1;
        assert(w@ =~= v@.subrange(0, k as int));
    }
    assert(w@ =~= v@);
    w
}

/// Leaves in `v[lo..hi]` the values of `w[lo..hi]` sorted, splitting the range in
/// halves, sorting each half into `w` (with `v` as the scratch buffer) and
/// merging the halves back into `v`. Ranges of at most `floor` values are sorted
/// by insertion in place instead, which needs `floor >= 1`; with `floor` 1 that
/// only happens for ranges of one value or none.
fn split_merge(w: &mut Vec<u64>, v: &mut Vec<u64>, lo: usize, hi: usize, floor: usize)
    requires
        old(w)@.len() == old(v)@.len(),
        lo <= hi <= old(v)@.len(),
        floor >= 1,
        old(w)@.subrange(lo as int, hi as int) == old(v)@.subrange(lo as int, hi as int),
    ensures
        final(w)@.len() == old(w)@.len(),
        final(v)@.len() == old(v)@.len(),
        forall|k: int| 0 <= k < old(v)@.len() && !(lo <= k < hi)
            ==> final(v)@[k] == old(v)@[k] && final(w)@[k] == old(w)@[k],
        sorted_between(final(v)@, lo as int, hi as int),
        values(final(v)@, lo as int, hi as int) == values(old(w)@, lo as int, hi as int),
    decreases hi - lo,
{
    if hi - lo <= floor {
        insertion_sort_range(v, lo, hi);
        return;
    }
    let half = lo + (hi - lo) / 2;
    proof {
        assert(v@.subrange(lo as int, half as int) =~= w@.subrange(lo as int, half as int)) by {
            assert(v@.subrange(lo as int, half as int) =~= v@.subrange(lo as int, hi as int).subrange(0, half - lo));
            assert(w@.subrange(lo as int, half as int) =~= w@.subrange(lo as int, hi as int).subrange(0, half - lo));
        }
        assert(v@.subrange(half as int, hi as int) =~= w@.subrange(half as int, hi as int)) by {
            assert(v@.subrange(half as int, hi as int) =~= v@.subrange(lo as int, hi as int).subrange(half - lo, hi - lo));
            assert(w@.subrange(half as int, hi as int) =~= w@.subrange(lo as int, hi as int).subrange(half - lo, hi - lo));
        }
        lemma_values_split(w@, lo as int, half as int, hi as int);
        lemma_values_split(v@, lo as int, half as int, hi as int);
    }
    let ghost v0 = v@;
    split_merge(v, w, lo, half, floor);
    let ghost w1 = w@;
    proof {
        assert(v@.subrange(half as int, hi as int) =~= v0.subrange(half as int, hi as int));
        assert(w@.subrange(half as int, hi as int) =~= old(w)@.subrange(half as int, hi as int));
    }
    split_merge(v, w, half, hi, floor);
    proof {
        assert(w@.subrange(lo as int, half as int) =~= w1.subrange(lo as int, half as int));
        lemma_values_split(w@, lo as int, half as int, hi as int);
    }
    merge(w, lo, half, hi, v);
}

/// Sorts `v` by top-down merge sort, with one scratch buffer of its length.
pub fn merge_sort_top_down(v: &mut Vec<u64>)
    ensures
        sorting_of(final(v)@, old(v)@),
{
    let n = v.len();
    let mut w = copy_of(v);
    split_merge(&mut w, v, 0, n, 1);
    proof {
        assert(v@.subrange(0, n as int) =~= v@);
        assert(old(v)@.subrange(0, n as int) =~= old(v)@);
    }
}

/// Sorts `v` by top-down merge sort, sorting ranges of at most 16 values by insertion.
pub fn merge_sort_top_down_insert(v: &mut Vec<u64>)
    ensures
        sorting_of(final(v)@, old(v)@),
{
    let n = v.len();
    let mut w = copy_of(v);
    split_merge(&mut w, v, 0, n, 16);
    proof {
        assert(v@.subrange(0, n as int) =~= v@);
        assert(old(v)@.subrange(0, n as int) =~= old(v)@);
    }
}

/// Merges each pair of neighbouring runs of `width` values of `src` into a run
/// of `dst` of twice that width, over the whole length.
fn merge_pass(src: &Vec<u64>, dst: &mut Vec<u64>, width: usize)
    requires
        src@.len() == old(dst)@.len(),
        width > 0,
        runs_sorted(src@, width as int),
    ensures
        final(dst)@.len() == src@.len(),
        final(dst)@.to_multiset() == src@.to_multiset(),
        runs_sorted(final(dst)@, 2 * width),
{
    let n = src.len();
    let ghost d: int = 2 * width;
    let ghost mut q: int = 0;
    let mut i: usize = 0;
    while i < n
        invariant
            n == src@.len() == dst@.len(),
            width > 0,
            d == 2 * width,
            runs_sorted(src@, width as int),
            i <= n,
            0 <= q,
            i < n ==> i == q * d,
            values(dst@, 0, i as int) == values(src@, 0, i as int),
            forall|a: int, b: int| 0 <= a <= b < i && a / d == b / d ==> dst@[a] <= dst@[b],
        decreases n - i,
    {
        let mid = if n - i > width { i + width } else { n };
        let end = if n - mid > width { mid + width } else { n };
        proof {
            assert(q * d + width == (2 * q) * width + width) by (nonlinear_arith)
                requires d == 2 * width;
            assert forall|a: int, b: int| i <= a <= b < mid implies src@[a] <= src@[b] by {
                lemma_div_in_block(a, 2 * q, width as int);
                lemma_div_in_block(b, 2 * q, width as int);
            }
            if mid < end {
                assert(q * d + 2 * width == (2 * q + 1) * width + width) by (nonlinear_arith)
                    requires d == 2 * width;
                assert forall|a: int, b: int| mid <= a <= b < end implies src@[a] <= src@[b] by {
                    lemma_div_in_block(a, 2 * q + 1, width as int);
                    lemma_div_in_block(b, 2 * q + 1, width as int);
                }
            }
        }
        let ghost pre = dst@;
        merge(src, i, mid, end, dst);
        proof {
            assert(dst@.subrange(0, i as int) =~= pre.subrange(0, i as int));
            lemma_values_split(dst@, 0, i as int, end as int);
            lemma_values_split(src@, 0, i as int, end as int);
            assert forall|a: int, b: int| 0 <= a <= b < end && a / d == b / d
                implies dst@[a] <= dst@[b] by {
                if a < i && i <= b {
                    lemma_div_around_block(a, q, d);
                    lemma_div_around_block(b, q, d);
                } else if a < i {
                    assert(dst@[a] == pre[a] && dst@[b] == pre[b]);
                }
            }
            if end < n {
                assert(end == (q + 1) * d) by (nonlinear_arith)
                    requires end == q * d + 2 * width, d == 2 * width;
            }
            q = q + 1;
        }
        i = end;
    }
    proof {
        assert(dst@.subrange(0, n as int) =~= dst@);
        assert(src@.subrange(0, n as int) =~= src@);
    }
}

/// Doubles the sorted runs of `v`, from `width` on, until one run covers it,
/// moving the values between `v` and the buffer `w` and ending with them in `v`.
fn merge_passes(v: &mut Vec<u64>, w: &mut Vec<u64>, width: usize)
    requires
        old(v)@.len() == old(w)@.len(),
        width > 0,
        runs_sorted(old(v)@, width as int),
    ensures
        sorting_of(final(v)@, old(v)@),
{
    let ghost orig = v@;
    let n = v.len();
    let mut v_to_w = true;
    let mut width = width;
    while width < n
        invariant
            n == v@.len() == w@.len(),
            width > 0,
            v_to_w ==> runs_sorted(v@, width as int) && v@.to_multiset() == orig.to_multiset(),
            !v_to_w ==> runs_sorted(w@, width as int) && w@.to_multiset() == orig.to_multiset(),
        decreases n - width,
    {
        if v_to_w {
            merge_pass(v, w, width);
        } else {
            merge_pass(w, v, width);
        }
        v_to_w = !v_to_w;
        if width < n - width {
            width = 2 * width;
        } else {
            proof {
                let s = if v_to_w { v@ } else { w@ };
                assert forall|a: int, b: int| 0 <= a <= b < n && a / (n as int) == b / (n as int)
                    implies s[a] <= s[b] by {
                    lemma_div_in_block(a, 0, 2 * width);
                    lemma_div_in_block(b, 0, 2 * width);
                }
            }
            width = n;
        }
    }
    if !v_to_w {
        let mut k: usize = 0;
        while k < n
            invariant
                n == v@.len() == w@.len(),
                k <= n,
                forall|x: int| 0 <= x < k ==> v@[x] == w@[x],
            decreases n - k,
        {
            v[k] = w[k];
            k = k + 1;
        }
        assert(v@ =~= w@);
    }
    proof {
        assert forall|a: int, b: int| 0 <= a <= b < n implies v@[a] <= v@[b] by {
            lemma_div_in_block(a, 0, width as int);
            lemma_div_in_block(b, 0, width as int);
        }
    }
}

/// Sorts `v` by bottom-up merge sort: runs of one value, then two, four and so
/// on, merged pairwise until one run covers `v`.
pub fn merge_sort_bottom_up(v: &mut Vec<u64>)
    ensures
        sorting_of(final(v)@, old(v)@),
{
    let mut w = copy_of(v);
    proof {
        assert forall|a: int, b: int| 0 <= a <= b < v@.len() && a / 1 == b / 1 implies v@[a] <= v@[b] by {
            lemma_div_in_block(a, a, 1);
            lemma_div_in_block(b, b, 1);
        }
    }
    merge_passes(v, &mut w, 1);
}

/// Sorts `v` by bottom-up merge sort that first sorts each block of 8 values by
/// insertion and then merges from runs of 8 on.
pub fn merge_sort_bottom_up_insert(v: &mut Vec<u64>)
    ensures
        sorting_of(final(v)@, old(v)@),
{
    let ghost orig = v@;
    let n = v.len();
    let mut w = copy_of(v);
    let width: usize = 8;
    let mut i: usize = 0;
    let ghost mut q: int = 0;
    while i < n
        invariant
            n == v@.len() == w@.len(),
            width == 8,
            i <= n,
            0 <= q,
            i < n ==> i == q * 8,
            v@.to_multiset() == orig.to_multiset(),
            forall|a: int, b: int| 0 <= a <= b < i && a / 8 == b / 8 ==> v@[a] <= v@[b],
        decreases n - i,
    {
        let end = if n - i > width { i + width } else { n };
        let ghost pre = v@;
        insertion_sort_range(v, i, end);
        proof {
            lemma_permuted_within_whole(v@, pre, i as int, end as int);
            assert forall|a: int, b: int| 0 <= a <= b < end && a / 8 == b / 8
                implies v@[a] <= v@[b] by {
                if a < i && i <= b {
                    lemma_div_around_block(a, q, 8);
                    lemma_div_around_block(b, q, 8);
                } else if a < i {
                    assert(v@[a] == pre[a] && v@[b] == pre[b]);
                }
            }
            q = q + 1;
        }
        i = end;
    }
    merge_passes(v, &mut w, width);
}

} // verus!
