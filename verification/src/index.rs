//! The index from the code of a position to the place of its record, kept by
//! `dashmap::DashMap`.
//!
//! Nothing in this file is proved: each function states what the `dashmap`
//! crate does, and the rest of the library builds on that.

use vstd::prelude::*;
use dashmap::DashMap;
use std::collections::hash_map::RandomState;

verus! {

#[verifier::external_type_specification]
#[verifier::external_body]
#[verifier::reject_recursive_types(K)]
#[verifier::reject_recursive_types(V)]
#[verifier::reject_recursive_types(S)]
pub struct ExDashMap<K, V, S>(DashMap<K, V, S>);

/// The keys that a `DashMap<u64, usize>` holds, each with its value.
pub uninterp spec fn index_entries(m: DashMap<u64, usize, RandomState>) -> Map<u64, usize>;

/// `DashMap::new`: the new map holds no key.
#[verifier::external_body]
pub(crate) fn index_new() -> (m: DashMap<u64, usize, RandomState>)
    ensures
        index_entries(m).dom() == Set::<u64>::empty(),
{
    DashMap::new()
}

/// `DashMap::get`, with the value copied out of the reference that it
/// returns: the value held for `key`, or `None` where the map holds no such
/// key.
#[verifier::external_body]
pub(crate) fn index_get(m: &DashMap<u64, usize, RandomState>, key: u64) -> (place: Option<usize>)
    ensures
        place == (if index_entries(*m).contains_key(key) {
            Some(index_entries(*m)[key])
        } else {
            None
        }),
{
    m.get(&key).map(|place| *place)
}

/// `DashMap::insert`: the map then holds `place` for `key`, and for every
/// other key what it held before.
#[verifier::external_body]
pub(crate) fn index_insert(m: &mut DashMap<u64, usize, RandomState>, key: u64, place: usize)
    ensures
        index_entries(*final(m)) == index_entries(*old(m)).insert(key, place),
{
    m.insert(key, place);
}

/// `DashMap::len`: the number of keys held.
#[verifier::external_body]
pub(crate) fn index_len(m: &DashMap<u64, usize, RandomState>) -> (n: usize)
    ensures
        n == index_entries(*m).dom().len(),
{
    m.len()
}

} // verus!
