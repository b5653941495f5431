//! The set of ruled-out nimbers, kept by `sorted_vec::SortedSet`.
//!
//! Nothing in this file is proved: each function states what the
//! `sorted_vec` crate does, and the rest of the library builds on that.

use vstd::prelude::*;
use sorted_vec::SortedSet;

verus! {

#[verifier::external_type_specification]
#[verifier::external_body]
#[verifier::reject_recursive_types(T)]
pub struct ExSortedSet<T: Ord>(SortedSet<T>);

/// The elements that a `SortedSet<usize>` holds, in the order in which it
/// holds them.
pub uninterp spec fn sorted_items(s: SortedSet<usize>) -> Seq<usize>;

/// Each element is smaller than every later one.
pub open spec fn increasing(s: Seq<usize>) -> bool {
    forall|i: int, j: int| 0 <= i < j < s.len() ==> s[i] < s[j]
}

/// `SortedSet::new`: the new set holds nothing.
#[verifier::external_body]
pub(crate) fn sorted_set_new() -> (s: SortedSet<usize>)
    ensures
        sorted_items(s) == Seq::<usize>::empty(),
{
    SortedSet::new()
}

/// `SortedSet::find_or_push`: the set then holds `x` besides what it held,
/// and nothing else; it searches for the place of `x` by comparing, so a set
/// that was in increasing order stays so.
#[verifier::external_body]
pub(crate) fn sorted_set_find_or_push(s: &mut SortedSet<usize>, x: usize)
    ensures
        forall|v: usize|
            sorted_items(*final(s)).contains(v) <==> (sorted_items(*old(s)).contains(v) || v == x),
        increasing(sorted_items(*old(s))) ==> increasing(sorted_items(*final(s))),
{
    s.find_or_push(x);
}

/// `len` of the vector that a `SortedSet` dereferences to: the number of
/// elements held.
#[verifier::external_body]
pub(crate) fn sorted_set_len(s: &SortedSet<usize>) -> (n: usize)
    ensures
        n == sorted_items(*s).len(),
{
    s.len()
}

/// Indexing the vector that a `SortedSet` dereferences to: the element at
/// place `i`.
#[verifier::external_body]
pub(crate) fn sorted_set_at(s: &SortedSet<usize>, i: usize) -> (v: usize)
    requires
        i < sorted_items(*s).len(),
    ensures
        v == sorted_items(*s)[i as int],
{
    s[i]
}

} // verus!
