//! The standard library's own sorts, kept as a baseline for the others.
use vstd::prelude::*;
use crate::order::sorting_of;

verus! {

/// Relies on `slice::sort`, documented as sorting the slice in ascending order
/// (stable; equal values keep their order).
#[verifier::external_body]
fn std_sort(v: &mut Vec<u64>)
    ensures
        sorting_of(final(v)@, old(v)@),
{
    v.sort();
}

/// Relies on `slice::sort_unstable`, documented as sorting the slice in
/// ascending order (equal values may be reordered).
#[verifier::external_body]
fn std_sort_unstable(v: &mut Vec<u64>)
    ensures
        sorting_of(final(v)@, old(v)@),
{
    v.sort_unstable();
}

/// Sorts `v` with the standard library's stable sort.
pub fn native_sort(v: &mut Vec<u64>)
    ensures
        sorting_of(final(v)@, old(v)@),
{
    std_sort(v);
}

/// Sorts `v` with the standard library's unstable sort.
pub fn native_unstable_sort(v: &mut Vec<u64>)
    ensures
        sorting_of(final(v)@, old(v)@),
{
    std_sort_unstable(v);
}

} // verus!
