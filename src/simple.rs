//! The quadratic sorts: insertion, gnome, bubble and selection sort.
use vstd::prelude::*;
use crate::order::{
    sorted_between, sorted, sorting_of, permuted_within, all_le, swapped, swap,
    lemma_swap_permutes, lemma_permuted_within_whole, lemma_permuted_within_trans,
};

verus! {

/// Sorts `v[lo..hi]` by insertion, leaving the rest of `v` as it was: each value
/// in turn is taken out, the larger values before it move one place right, and
/// it goes into the gap they leave.
pub fn insertion_sort_range(v: &mut Vec<u64>, lo: usize, hi: usize)
    requires
        lo <= hi <= old(v)@.len(),
    ensures
        permuted_within(final(v)@, old(v)@, lo as int, hi as int),
        sorted_between(final(v)@, lo as int, hi as int),
{
    let ghost orig = v@;
    if hi - lo < 2 {
        return;
    }
    let mut i: usize = lo + 1;
    while i < hi
        invariant
            lo < i <= hi <= v@.len(),
            permuted_within(v@, orig, lo as int, hi as int),
            sorted_between(v@, lo as int, i as int),
        decreases hi - i,
    {
        let ghost pre = v@;
        let a = v[i];
        let mut j: usize = i;
        proof {
            assert(v@.update(i as int, a) =~= pre);
        }
        while j > lo && v[j - 1] > a
            invariant
                lo <= j <= i < hi <= v@.len(),
                v@.len() == pre.len(),
                a == pre[i as int],
                forall|k: int| 0 <= k < v@.len() && !(j <= k <= i) ==> v@[k] == pre[k],
                forall|k: int| j < k <= i ==> v@[k] == pre[k - 1] && a < v@[k],
                permuted_within(v@.update(j as int, a), pre, lo as int, hi as int),
            decreases j,
        {
            let ghost w = v@.update(j as int, a);
            let b = v[j - 1];
            v[j] = b;
            proof {
                lemma_swap_permutes(w, j - 1, j as int, lo as int, hi as int);
                assert(v@.update(j - 1, a) =~= swapped(w, j - 1, j as int));
                lemma_permuted_within_trans(v@.update(j - 1, a), w, pre, lo as int, hi as int);
            }
            j = j - 1;
        }
        assert(j > lo ==> pre[j - 1] <= a);
        let ghost mid = v@;
        v[j] = a;
        assert(v@ == mid.update(j as int, a));
        proof {
            lemma_permuted_within_trans(v@, pre, orig, lo as int, hi as int);
            assert forall|x: int, y: int| lo <= x <= y < i + 1 implies v@[x] <= v@[y] by {
                if x < j {
                    assert(v@[x] == pre[x]);
                    assert(pre[x] <= pre[j - 1]);
                    if y > j {
                        assert(v@[y] == pre[y - 1]);
                        assert(v@[x] <= v@[y]);
                    } else if y == j {
                        assert(v@[x] <= v@[y]);
                    } else {
                        assert(v@[y] == pre[y]);
                        assert(v@[x] <= v@[y]);
                    }
                } else if x == j {
                    if y > j {
                        assert(v@[y] == mid[y]);
                        assert(v@[x] <= v@[y]);
                    }
                } else {
                    assert(v@[x] == pre[x - 1]);
                    assert(v@[y] == pre[y - 1]);
                    assert(v@[x] <= v@[y]);
                }
            }
        }
        i = i + 1;
    }
}

/// Sorts `v` by insertion into a growing sorted prefix.
pub fn insertion_sort(v: &mut Vec<u64>)
    ensures
        sorting_of(final(v)@, old(v)@),
{
    let n = v.len();
    insertion_sort_range(v, 0, n);
    proof {
        lemma_permuted_within_whole(v@, old(v)@, 0, n as int);
    }
}

/// Sorts `v` with a single cursor: it steps forward over values in order and
/// otherwise swaps the value under it one place back and steps back with it.
pub fn gnome_sort(v: &mut Vec<u64>)
    ensures
        sorting_of(final(v)@, old(v)@),
{
    let ghost orig = v@;
    let n = v.len();
    let mut i: usize = 0;
    // `top` is how far the cursor has reached; `back` holds while a value
    // is on its way back into the sorted prefix.
    let ghost mut top: int = 0;
    let ghost mut back: bool = false;
    while i < n
        invariant
            n == v@.len(),
            permuted_within(v@, orig, 0, n as int),
            0 <= i <= top <= n,
            !back ==> sorted_between(v@, 0, top),
            back ==> i < top,
            back ==> sorted_between(v@, 0, i as int),
            back ==> sorted_between(v@, i + 1, top),
            back ==> forall|k: int| i < k < top ==> v@[i as int] < v@[k],
            back ==> all_le(v@, 0, i as int, i + 1, top),
        decreases n - top, if back { 1int } else { 0int }, if back { i as int } else { top - i },
    {
        if i == 0 || v[i] >= v[i - 1] {
            proof {
                if i == top {
                    top = top + 1;
                }
                back = false;
            }
            i = i + 1;
        } else {
            proof {
                lemma_swap_permutes(v@, i as int, i - 1, 0, n as int);
                lemma_permuted_within_trans(swapped(v@, i as int, i - 1), v@, orig, 0, n as int);
            }
            let ghost pre = v@;
            swap(v, i, i - 1);
            proof {
                if i == top {
                    top = top + 1;
                }
                back = true;
            }
            i = i - 1;
            assert(forall|k: int| 0 <= k < i ==> v@[k] == pre[k]);
        }
    }
    proof {
        lemma_permuted_within_whole(v@, orig, 0, n as int);
    }
}

/// Sorts `v` by passes of adjacent swaps; each pass ends where the previous
/// one made its last swap, and a pass without swaps ends the sort.
pub fn bubble_sort(v: &mut Vec<u64>)
    ensures
        sorting_of(final(v)@, old(v)@),
{
    let ghost orig = v@;
    let len = v.len();
    let mut n: usize = len;
    while n > 0
        invariant
            n <= len == v@.len(),
            permuted_within(v@, orig, 0, len as int),
            sorted_between(v@, n as int, len as int),
            all_le(v@, 0, n as int, n as int, len as int),
        decreases n,
    {
        let mut nmax: usize = 0;
        let mut i: usize = 1;
        while i < n
            invariant
                0 < n <= len == v@.len(),
                1 <= i <= n,
                nmax < i,
                permuted_within(v@, orig, 0, len as int),
                sorted_between(v@, n as int, len as int),
                all_le(v@, 0, n as int, n as int, len as int),
                forall|k: int| 0 <= k < i ==> #[trigger] v@[k] <= v@[i - 1],
                forall|k: int, a: int| nmax <= k < i && 0 <= a < k ==> v@[a] <= v@[k],
            decreases n - i,
        {
            if v[i - 1] > v[i] {
                proof {
                    lemma_swap_permutes(v@, i - 1, i as int, 0, len as int);
                    lemma_permuted_within_trans(swapped(v@, i - 1, i as int), v@, orig, 0, len as int);
                }
                swap(v, i - 1, i);
                nmax = i;
            }
            i = i + 1;
        }
        n = nmax;
    }
    proof {
        lemma_permuted_within_whole(v@, orig, 0, len as int);
    }
}

/// Sorts `v` by moving, for each position from the left, the smallest of the
/// remaining values into it.
pub fn selection_sort(v: &mut Vec<u64>)
    ensures
        sorting_of(final(v)@, old(v)@),
{
    let ghost orig = v@;
    let n = v.len();
    if n == 0 {
        return;
    }
    let mut i: usize = 0;
    while i < n - 1
        invariant
            0 < n == v@.len(),
            i <= n - 1,
            permuted_within(v@, orig, 0, n as int),
            sorted_between(v@, 0, i as int),
            all_le(v@, 0, i as int, i as int, n as int),
        decreases n - i,
    {
        let mut min: usize = i;
        let mut j: usize = i + 1;
        while j < n
            invariant
                0 < n == v@.len(),
                i < n - 1,
                i <= min < j <= n,
                forall|k: int| i <= k < j ==> v@[min as int] <= v@[k],
            decreases n - j,
        {
            if v[j] < v[min] {
                min = j;
            }
            j = j + 1;
        }
        proof {
            lemma_swap_permutes(v@, i as int, min as int, 0, n as int);
            lemma_permuted_within_trans(swapped(v@, i as int, min as int), v@, orig, 0, n as int);
        }
        swap(v, i, min);
        i = i + 1;
    }
    proof {
        lemma_permuted_within_whole(v@, orig, 0, n as int);
    }
}

/// `h` belongs to the gap sequence 1, 4, 13, 40, ... (each gap is three times the
/// one below it, plus one).
pub open spec fn is_gap(h: int) -> bool
    decreases h,
{
    if h <= 1 {
        h == 1
    } else {
        h % 3 == 1 && is_gap(h / 3)
    }
}

/// One insertion pass over `v` that compares and shifts values `h` places
/// apart; with `h` 1 it is an insertion sort.
fn gap_pass(v: &mut Vec<u64>, h: usize)
    requires
        h > 0,
    ensures
        permuted_within(final(v)@, old(v)@, 0, old(v)@.len() as int),
        h == 1 ==> sorted(final(v)@),
{
    let ghost orig = v@;
    let n = v.len();
    proof {
        assert(v@.subrange(0, n as int) == orig.subrange(0, n as int));
    }
    let mut i: usize = h;
    while i < n
        invariant
            h > 0,
            n == v@.len(),
            permuted_within(v@, orig, 0, n as int),
            h == 1 ==> sorted_between(v@, 0, i as int),
        decreases n - i,
    {
        let ghost pre = v@;
        let a = v[i];
        let mut j: usize = i;
        proof {
            assert(v@.update(i as int, a) =~= pre);
        }
        while j >= h && v[j - h] > a
            invariant
                h > 0,
                j <= i < n == v@.len(),
                a == pre[i as int],
                forall|k: int| 0 <= k < n && !(j <= k <= i) ==> v@[k] == pre[k],
                h == 1 ==> forall|k: int| j < k <= i ==> v@[k] == pre[k - 1] && a < v@[k],
                permuted_within(v@.update(j as int, a), pre, 0, n as int),
            decreases j,
        {
            let ghost w = v@.update(j as int, a);
            let b = v[j - h];
            v[j] = b;
            proof {
                lemma_swap_permutes(w, j - h, j as int, 0, n as int);
                assert(v@.update(j - h, a) =~= swapped(w, j - h, j as int));
                lemma_permuted_within_trans(v@.update(j - h, a), w, pre, 0, n as int);
            }
            j = j - h;
        }
        assert(h == 1 && j > 0 ==> pre[j - 1] <= a);
        let ghost mid = v@;
        v[j] = a;
        proof {
            assert(v@ =~= mid.update(j as int, a));
            lemma_permuted_within_trans(v@, pre, orig, 0, n as int);
            if h == 1 {
                assert forall|x: int, y: int| 0 <= x <= y < i + 1 implies v@[x] <= v@[y] by {
                    if x < j {
                        assert(v@[x] == pre[x]);
                        assert(pre[x] <= pre[j - 1]);
                        if y > j {
                            assert(v@[y] == pre[y - 1]);
                            assert(v@[x] <= v@[y]);
                        } else if y == j {
                            assert(v@[x] <= v@[y]);
                        } else {
                            assert(v@[y] == pre[y]);
                            assert(v@[x] <= v@[y]);
                        }
                    } else if x == j {
                        if y > j {
                            assert(v@[y] == mid[y]);
                            assert(v@[x] <= v@[y]);
                        }
                    } else {
                        assert(v@[x] == pre[x - 1]);
                        assert(v@[y] == pre[y - 1]);
                        assert(v@[x] <= v@[y]);
                    }
                }
            }
        }
        i = i + 1;
    }
}

/// Sorts `v` by insertion passes over gaps 1, 4, 13, ... taken from the largest
/// at most `n / 9` down; the last pass, with gap 1, is a plain insertion sort.
pub fn shell_sort(v: &mut Vec<u64>)
    ensures
        sorting_of(final(v)@, old(v)@),
{
    let ghost orig = v@;
    let n = v.len();
    let mut h: usize = 1;
    while h <= n / 9
        invariant
            is_gap(h as int),
            h <= n + 1,
        decreases n + 1 - h,
    {
        h = 3 * h + 1;
        assert((h as int) / 3 == (h - 1) / 3);
    }
    proof {
        assert(v@.subrange(0, n as int) == orig.subrange(0, n as int));
    }
    while h > 0
        invariant
            n == v@.len(),
            permuted_within(v@, orig, 0, n as int),
            h > 0 ==> is_gap(h as int),
            h == 0 ==> sorted(v@),
        decreases h,
    {
        let ghost pre = v@;
        gap_pass(v, h);
        proof {
            lemma_permuted_within_trans(v@, pre, orig, 0, n as int);
        }
        h = h / 3;
    }
    proof {
        lemma_permuted_within_whole(v@, orig, 0, n as int);
    }
}

} // verus!
