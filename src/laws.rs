//! Laws that every sort of this library obeys, stated over `sorting_of`, the
//! contract that each of them ensures.
use vstd::prelude::*;
use crate::order::{sorted, sorted_between, permutation_of, sorting_of};

verus! {

broadcast use vstd::seq_lib::group_to_multiset_ensures;

/// `n` copies of `x`.
pub open spec fn repeated(x: u64, n: nat) -> Seq<u64> {
    Seq::new(n, |i: int| x)
}

/// Order: in a sorted sequence each value is at most the next one.
pub proof fn lemma_sorted_adjacent(s: Seq<u64>)
    requires
        sorted(s),
    ensures
        forall|i: int| 0 <= i < s.len() - 1 ==> s[i] <= #[trigger] s[i + 1],
{
}

/// Two sorted sequences that hold the same values are equal.
pub proof fn lemma_sorted_unique(s: Seq<u64>, t: Seq<u64>)
    requires
        sorted(s),
        sorted(t),
        permutation_of(t, s),
    ensures
        t == s,
    decreases s.len(),
{
    assert(s.len() == s.to_multiset().len());
    assert(t.len() == t.to_multiset().len());
    if s.len() == 0 {
        assert(t =~= s);
    } else {
        assert(s.contains(s[0]));
        assert(t.contains(t[0]));
        assert(t.to_multiset().count(s[0]) > 0);
        assert(s.to_multiset().count(t[0]) > 0);
        let i = choose|i: int| 0 <= i < t.len() && t[i] == s[0];
        let j = choose|j: int| 0 <= j < s.len() && s[j] == t[0];
        assert(t[0] <= t[i]);
        assert(s[0] <= s[j]);
        assert(s[0] == t[0]);
        let s1 = s.drop_first();
        let t1 = t.drop_first();
        assert(s.remove(0) =~= s1);
        assert(t.remove(0) =~= t1);
        assert(s1.to_multiset() == s.to_multiset().remove(s[0]));
        assert(t1.to_multiset() == t.to_multiset().remove(t[0]));
        assert(sorted(s1)) by {
            assert forall|a: int, b: int| 0 <= a <= b < s1.len() implies s1[a] <= s1[b] by {
                assert(s[a + 1] <= s[b + 1]);
            }
        }
        assert(sorted(t1)) by {
            assert forall|a: int, b: int| 0 <= a <= b < t1.len() implies t1[a] <= t1[b] by {
                assert(t[a + 1] <= t[b + 1]);
            }
        }
        lemma_sorted_unique(s1, t1);
        assert(t =~= s) by {
            assert forall|k: int| 0 <= k < s.len() implies t[k] == s[k] by {
                if k > 0 {
                    assert(t1[k - 1] == s1[k - 1]);
                }
            }
        }
    }
}

/// Idempotence: sorting a sequence that is already sorted leaves it as it is.
pub proof fn lemma_sort_of_sorted(s: Seq<u64>, t: Seq<u64>)
    requires
        sorted(s),
        sorting_of(t, s),
    ensures
        t == s,
{
    lemma_sorted_unique(s, t);
}

/// Sorting is determined by the values alone: two results of sorting one
/// sequence, by any of the sorts, are equal.
pub proof fn lemma_sort_result_unique(s: Seq<u64>, t1: Seq<u64>, t2: Seq<u64>)
    requires
        sorting_of(t1, s),
        sorting_of(t2, s),
    ensures
        t1 == t2,
{
    lemma_sorted_unique(t1, t2);
}

/// Boundary: a sequence of at most one value is returned unchanged.
pub proof fn lemma_sort_short(s: Seq<u64>, t: Seq<u64>)
    requires
        s.len() <= 1,
        sorting_of(t, s),
    ensures
        t == s,
{
    lemma_sort_of_sorted(s, t);
}

/// Boundary: a sequence of `n` equal values is returned unchanged.
pub proof fn lemma_sort_constant(x: u64, n: nat, t: Seq<u64>)
    requires
        sorting_of(t, repeated(x, n)),
    ensures
        t == repeated(x, n),
{
    lemma_sort_of_sorted(repeated(x, n), t);
}

/// `n` equal values followed by a smaller one sort to that smaller value
/// followed by the `n` equal ones.
pub proof fn lemma_sort_last_smaller(x: u64, y: u64, n: nat, t: Seq<u64>)
    requires
        y < x,
        sorting_of(t, repeated(x, n).push(y)),
    ensures
        t == seq![y] + repeated(x, n),
{
    let s = repeated(x, n).push(y);
    let r = seq![y] + repeated(x, n);
    assert(repeated(x, n).push(y) =~= repeated(x, n) + seq![y]);
    vstd::seq_lib::lemma_multiset_commutative(repeated(x, n), seq![y]);
    vstd::seq_lib::lemma_multiset_commutative(seq![y], repeated(x, n));
    assert(r.to_multiset() =~= s.to_multiset()) by {
        broadcast use vstd::multiset::group_multiset_axioms;
    }
    assert(sorted_between(r, 0, r.len() as int)) by {
        assert forall|a: int, b: int| 0 <= a <= b < r.len() implies r[a] <= r[b] by {
            if a > 0 {
                assert(r[a] == x && r[b] == x);
            }
        }
    }
    lemma_sorted_unique(r, t);
}

/// A larger value followed by `n` equal ones sorts to the `n` equal values
/// followed by the larger one.
pub proof fn lemma_sort_first_larger(x: u64, y: u64, n: nat, t: Seq<u64>)
    requires
        y < x,
        sorting_of(t, seq![x] + repeated(y, n)),
    ensures
        t == repeated(y, n).push(x),
{
    let r = repeated(y, n).push(x);
    assert(r =~= repeated(y, n) + seq![x]);
    vstd::seq_lib::lemma_multiset_commutative(repeated(y, n), seq![x]);
    vstd::seq_lib::lemma_multiset_commutative(seq![x], repeated(y, n));
    assert(r.to_multiset() =~= (seq![x] + repeated(y, n)).to_multiset()) by {
        broadcast use vstd::multiset::group_multiset_axioms;
    }
    assert(sorted_between(r, 0, r.len() as int)) by {
        assert forall|a: int, b: int| 0 <= a <= b < r.len() implies r[a] <= r[b] by {
            if b < n {
                assert(r[a] == y && r[b] == y);
            }
        }
    }
    lemma_sorted_unique(r, t);
}

} // verus!
