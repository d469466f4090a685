//! Heap sort over an implicit binary max-heap.
use vstd::prelude::*;
use crate::order::{
    sorted_between, sorting_of, permuted_within, all_le, swapped, swap, lemma_swap_permutes,
    lemma_permuted_within_whole, lemma_permuted_within_trans, lemma_permuted_within_widen,
    lemma_permuted_source,
};

verus! {

/// The parent of position `c` in the implicit tree whose children of `p` are `2p+1` and `2p+2`.
pub open spec fn parent(c: int) -> int {
    (c - 1) / 2
}

/// In `s[..n]`, every node at position `start` or beyond is at least each of its children.
pub open spec fn heap_from(s: Seq<u64>, start: int, n: int) -> bool {
    forall|c: int| 0 < c < n && parent(c) >= start ==> s[parent(c)] >= #[trigger] s[c]
}

/// The root of a heap holds its largest value.
pub proof fn lemma_heap_root_max(s: Seq<u64>, n: int, a: int)
    requires
        heap_from(s, 0, n),
        0 <= a < n,
    ensures
        s[a] <= s[0],
    decreases a,
{
    if a > 0 {
        lemma_heap_root_max(s, n, parent(a));
    }
}

/// Moving the root of a heap `s0[..end]` to the end of the heap, in front of
/// a sorted tail of larger values, grows that tail by one, whatever the
/// rearrangement of the rest.
proof fn lemma_extract_step(s0: Seq<u64>, s1: Seq<u64>, s2: Seq<u64>, end: int, n: int)
    requires
        2 <= end <= n == s0.len(),
        heap_from(s0, 0, end),
        sorted_between(s0, end, n),
        all_le(s0, 0, end, end, n),
        s1 == swapped(s0, 0, end - 1),
        permuted_within(s2, s1, 0, end - 1),
    ensures
        sorted_between(s2, end - 1, n),
        all_le(s2, 0, end - 1, end - 1, n),
{
    assert forall|a: int| 0 <= a < end implies #[trigger] s0[a] <= s0[0] by {
        lemma_heap_root_max(s0, end, a);
    }
    assert forall|a: int, b: int| 0 <= a < end - 1 && end - 1 <= b < n implies s2[a] <= s2[b] by {
        let a2 = lemma_permuted_source(s2, s1, 0, end - 1, a);
        if a2 == 0 {
            assert(s1[a2] == s0[end - 1]);
        } else {
            assert(s1[a2] == s0[a2]);
        }
        assert(s1[a2] <= s0[0]);
        if b >= end {
            assert(s2[b] == s0[b]);
            assert(s0[0] <= s0[b]);
        }
    }
    assert forall|a: int, b: int| end - 1 <= a <= b < n implies s2[a] <= s2[b] by {
        if a == end - 1 && b >= end {
            assert(s0[0] <= s0[b]);
        }
    }
}

/// Moves the value at `start` down, swapping it with its larger child while that
/// child is larger, until the nodes from `start` on form a heap in `v[..n]`.
fn sift_down(v: &mut Vec<u64>, start: usize, n: usize)
    requires
        start < n <= old(v)@.len(),
        heap_from(old(v)@, start + 1, n as int),
    ensures
        permuted_within(final(v)@, old(v)@, start as int, n as int),
        heap_from(final(v)@, start as int, n as int),
{
    let ghost orig = v@;
    let mut i: usize = start;
    proof {
        assert(v@.subrange(start as int, n as int).to_multiset() == orig.subrange(start as int, n as int).to_multiset());
    }
    loop
        invariant
            start <= i < n <= v@.len(),
            permuted_within(v@, orig, start as int, n as int),
            forall|c: int| 0 < c < n && parent(c) >= start && parent(c) != i
                ==> v@[parent(c)] >= #[trigger] v@[c],
            i > start ==> parent(i as int) >= start,
            i > start ==> forall|c: int| 0 < c < n && parent(c) == i
                ==> v@[parent(i as int)] >= #[trigger] v@[c],
        ensures
            permuted_within(v@, orig, start as int, n as int),
            heap_from(v@, start as int, n as int),
        decreases n - i,
    {
        if i > (n - 1) / 2 {
            proof {
                assert forall|c: int| 0 < c < n && parent(c) >= start
                    implies v@[parent(c)] >= #[trigger] v@[c] by {
                    assert(parent(c) != i);
                }
                assert(heap_from(v@, start as int, n as int));
            }
            break;
        }
        let mut child = i * 2 + 1;
        if child >= n {
            proof {
                assert forall|c: int| 0 < c < n && parent(c) >= start
                    implies v@[parent(c)] >= #[trigger] v@[c] by {
                    assert(parent(c) != i);
                }
                assert(heap_from(v@, start as int, n as int));
            }
            break;
        }
        if child + 1 < n && v[child + 1] > v[child] {
            child = child + 1;
        }
        if v[i] < v[child] {
            proof {
                lemma_swap_permutes(v@, i as int, child as int, start as int, n as int);
                lemma_permuted_within_trans(swapped(v@, i as int, child as int), v@, orig, start as int, n as int);
            }
            let ghost pre = v@;
            swap(v, i, child);
            proof {
                assert(parent(child as int) == i);
                assert forall|c: int| 0 < c < n && parent(c) >= start && parent(c) != child
                    implies v@[parent(c)] >= #[trigger] v@[c] by {
                    if parent(c) == i {
                        assert(c == i * 2 + 1 || c == i * 2 + 2);
                    } else if c == i {
                        assert(pre[parent(i as int)] >= pre[child as int]);
                    }
                }
            }
            i = child;
        } else {
            proof {
                assert forall|c: int| 0 < c < n && parent(c) >= start
                    implies v@[parent(c)] >= #[trigger] v@[c] by {
                    if parent(c) == i {
                        assert(c == i * 2 + 1 || c == i * 2 + 2);
                    }
                }
                assert(heap_from(v@, start as int, n as int));
            }
            break;
        }
    }
}

/// Sorts `v` by building a max-heap over it and then moving its largest value
/// to the end of the shrinking heap, one at a time.
pub fn heap_sort(v: &mut Vec<u64>)
    ensures
        sorting_of(final(v)@, old(v)@),
{
    let ghost orig = v@;
    let n = v.len();
    if n < 2 {
        proof {
            assert(v@.subrange(0, n as int) == orig.subrange(0, n as int));
            lemma_permuted_within_whole(v@, orig, 0, n as int);
        }
        return;
    }
    let mut i: usize = n / 2 + 1;
    proof {
        assert(v@.subrange(0, n as int) == orig.subrange(0, n as int));
    }
    while i > 0
        invariant
            2 <= n == v@.len(),
            i <= n / 2 + 1,
            permuted_within(v@, orig, 0, n as int),
            heap_from(v@, i as int, n as int),
        decreases i,
    {
        i = i - 1;
        let ghost pre = v@;
        sift_down(v, i, n);
        proof {
            lemma_permuted_within_widen(v@, pre, 0, n as int, i as int, n as int);
            lemma_permuted_within_trans(v@, pre, orig, 0, n as int);
        }
    }
    let mut end: usize = n;
    while end > 1
        invariant
            2 <= n == v@.len(),
            1 <= end <= n,
            permuted_within(v@, orig, 0, n as int),
            heap_from(v@, 0, end as int),
            sorted_between(v@, end as int, n as int),
            all_le(v@, 0, end as int, end as int, n as int),
        decreases end,
    {
        let ghost s0 = v@;
        proof {
            lemma_swap_permutes(v@, 0, end - 1, 0, n as int);
            lemma_permuted_within_trans(swapped(v@, 0, end - 1), v@, orig, 0, n as int);
        }
        swap(v, 0, end - 1);
        let ghost s1 = v@;
        proof {
            assert(heap_from(s1, 1, end - 1));
        }
        sift_down(v, 0, end - 1);
        proof {
            lemma_permuted_within_widen(v@, s1, 0, n as int, 0, end - 1);
            lemma_permuted_within_trans(v@, s1, orig, 0, n as int);
            lemma_extract_step(s0, s1, v@, end as int, n as int);
        }
        end = end - 1;
    }
    proof {
        lemma_permuted_within_whole(v@, orig, 0, n as int);
    }
}

} // verus!
