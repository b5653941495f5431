//! Calls on slices that the rest of the library takes on trust: sorting by a
//! key and swapping two elements.
//!
//! Nothing in this file is proved: each function states what the standard
//! library documents of the call it makes.

use vstd::prelude::*;
use crate::canon::move_key;
use crate::canon::ordered_by_code;
use crate::canon::ordered_by_key;
use crate::game::Impartial;

verus! {

/// `sort_by_cached_key` of slices, with the code of a position as the key:
/// the vector holds afterwards what it held, each position as often as
/// before, in the order of the codes.
#[verifier::external_body]
pub(crate) fn sort_parts<G: Impartial>(parts: &mut Vec<G>)
    ensures
        final(parts)@.to_multiset() == old(parts)@.to_multiset(),
        ordered_by_code(final(parts)@),
{
    parts.sort_by_cached_key(|g| g.get_code());
}

/// `swap` of slices: the elements at `i` and `j` change places.
#[verifier::external_body]
pub(crate) fn swap_elements<T>(v: &mut Vec<T>, i: usize, j: usize)
    requires
        i < old(v)@.len(),
        j < old(v)@.len(),
    ensures
        final(v)@ == old(v)@.update(i as int, old(v)@[j as int]).update(j as int, old(v)@[i as int]),
{
    v.swap(i, j);
}

/// `sort_by_cached_key` of slices, with the key of a move as the key: the
/// vector holds afterwards what it held, each move as often as before, in the
/// order of the keys. The keys are vectors of integers, which the standard
/// library compares place by place.
#[verifier::external_body]
pub(crate) fn sort_moves<G: Impartial>(moves: &mut Vec<Vec<G>>)
    ensures
        final(moves)@.to_multiset() == old(moves)@.to_multiset(),
        ordered_by_key(final(moves)@),
{
    moves.sort_by_cached_key(|parts| move_key(parts));
}

} // verus!
