//! What holds of the answers of the evaluator, whatever it was asked before.
//!
//! Each law is stated of the outcomes of searches, by what `search` and
//! `search_by_parts` ensure (`searched`, `searched_sum`), or of the answers of
//! the queries, by what they ensure (`answers`, `answers_sum`,
//! `answers_within`).

use vstd::prelude::*;
use crate::evaluator::answers;
use crate::evaluator::answers_sum;
use crate::evaluator::answers_within;
use crate::evaluator::searched;
use crate::evaluator::searched_sum;
use crate::evaluator::Evaluator;
use crate::evaluator::Outcome;
use crate::game::Impartial;
use crate::game::Position;
use crate::nim::bounds;
use crate::nim::lemma_nim_sum_concat;
use crate::nim::lemma_nim_sum_pair_cancels;
use crate::nim::lemma_nim_sum_single;
use crate::nim::lemma_nimber_is_mex;
use crate::nim::nim_sum;
use crate::nim::nimber;
use crate::nim::reaches;
use crate::record::done_count;
use crate::record::lemma_counts_add_up;
use crate::record::processing_count;
use crate::record::sound;
use crate::record::stubless;
use crate::record::Record;
use crate::record::stub_count;

verus! {

/// The XOR of a sequence of nimbers.
pub open spec fn xor_all(nimbers: Seq<usize>) -> usize
    decreases nimbers.len(),
{
    if nimbers.len() == 0 {
        0usize
    } else {
        xor_all(nimbers.drop_last()) ^ nimbers.last()
    }
}

/// Determinism: two fresh evaluators, searching for the nimber of the same
/// position without a bound and without a stop, find the same nimber, the
/// nimber of the position.
pub proof fn law_determinism<G: Impartial>(
    first: Evaluator<G>,
    first_after: Evaluator<G>,
    second: Evaluator<G>,
    second_after: Evaluator<G>,
    g: G,
    first_out: Outcome,
    second_out: Outcome,
)
    requires
        first.valid(),
        first.entries().len() == 0,
        second.valid(),
        second.entries().len() == 0,
        searched(first, first_after, g, usize::MAX, Some(false), first_out),
        searched(second, second_after, g, usize::MAX, Some(false), second_out),
    ensures
        first_out == second_out,
        first_out == Outcome::Found(nimber(g)),
{
}

/// Cache equivalence: an evaluator that has searched before, whatever for,
/// finds for a position what a fresh evaluator finds.
pub proof fn law_cache_equivalence<G: Impartial>(
    fresh: Evaluator<G>,
    fresh_after: Evaluator<G>,
    warmed: Evaluator<G>,
    warmed_after: Evaluator<G>,
    g: G,
    fresh_out: Outcome,
    warmed_out: Outcome,
)
    requires
        fresh.valid(),
        fresh.entries().len() == 0,
        warmed.valid(),
        searched(fresh, fresh_after, g, usize::MAX, Some(false), fresh_out),
        searched(warmed, warmed_after, g, usize::MAX, Some(false), warmed_out),
    ensures
        fresh_out == warmed_out,
{
}

/// Where two caches in order have both settled the same position, they have
/// settled it with the same nimber, the nimber of the position.
pub proof fn law_caches_agree<G: Impartial>(a: Evaluator<G>, b: Evaluator<G>, i: int, j: int)
    requires
        a.valid(),
        b.valid(),
        0 <= i < a.entries().len(),
        0 <= j < b.entries().len(),
        a.entries()[i].game == b.entries()[j].game,
        a.entries()[i].entry.data is Done,
        b.entries()[j].entry.data is Done,
    ensures
        a.entries()[i].entry.data->nimber == b.entries()[j].entry.data->nimber,
        a.entries()[i].entry.data->nimber == nimber(a.entries()[i].game),
{
    assert(sound(a.entries()[i]));
    assert(sound(b.entries()[j]));
}

/// Two sound answers for the same position that both hold a nimber hold the
/// same one. Every answer of a query is sound, so it makes no difference
/// which evaluator was asked, what it had been asked before, or whether it
/// had been interrupted and taken up again.
pub proof fn law_answers_agree<G: Position>(g: G, first: Option<usize>, second: Option<usize>)
    requires
        answers(g, first),
        answers(g, second),
        first is Some,
        second is Some,
    ensures
        first == second,
{
}

/// Bound consistency: a search under a bound that was not stopped, for a
/// position that had not been settled before, finds the nimber only within
/// the bound, and then a full search finds the same; and where it finds the
/// nimber beyond the bound, a full search finds a nimber above the bound.
pub proof fn law_bound_consistency<G: Impartial>(
    bounded: Evaluator<G>,
    bounded_after: Evaluator<G>,
    full: Evaluator<G>,
    full_after: Evaluator<G>,
    g: G,
    bound: usize,
    stop: Option<bool>,
    bounded_out: Outcome,
    full_out: Outcome,
)
    requires
        bounded.valid(),
        full.valid(),
        !bounded.solved(g),
        searched(bounded, bounded_after, g, bound, stop, bounded_out),
        searched(full, full_after, g, usize::MAX, Some(false), full_out),
        !(bounded_out is Stopped),
    ensures
        bounded_out matches Outcome::Found(n) ==> n <= bound && full_out == Outcome::Found(n),
        bounded_out is Beyond ==> (full_out matches Outcome::Found(n) && n > bound),
{
}

/// Bound consistency of the answers: an answer under a bound, for a position
/// that had not been settled before, to a query that was not stopped, is
/// within the bound and is what the full query answers; and where there is
/// none, the full query answers with a nimber above the bound.
pub proof fn law_bounded_answer<G: Position>(
    g: G,
    bound: usize,
    bounded: Option<usize>,
    full: Option<usize>,
)
    requires
        answers_within(g, bound, false, false, bounded),
        answers(g, full),
        full is Some,
    ensures
        bounded matches Some(n) ==> n <= bound && full == Some(n),
        bounded is None ==> full->0 > bound,
{
}

/// Cancellation and resumption: a search that is taken up again after any
/// search before it, stopped or not, bounded or not, finds what a fresh
/// evaluator finds.
pub proof fn law_resumed_search<G: Impartial>(
    start: Evaluator<G>,
    interrupted: Evaluator<G>,
    resumed: Evaluator<G>,
    fresh: Evaluator<G>,
    fresh_after: Evaluator<G>,
    g: G,
    bound: usize,
    stop: Option<bool>,
    first_out: Outcome,
    resumed_out: Outcome,
    fresh_out: Outcome,
)
    requires
        start.valid(),
        searched(start, interrupted, g, bound, stop, first_out),
        searched(interrupted, resumed, g, usize::MAX, Some(false), resumed_out),
        fresh.valid(),
        fresh.entries().len() == 0,
        searched(fresh, fresh_after, g, usize::MAX, Some(false), fresh_out),
    ensures
        interrupted.valid(),
        resumed_out == fresh_out,
        resumed_out == Outcome::Found(nimber(g)),
{
}

/// The XOR of the nimbers of the parts of a sum is its nim-sum.
pub proof fn lemma_xor_of_nimbers<G: Position>(parts: Seq<G>, nimbers: Seq<usize>)
    requires
        nimbers.len() == parts.len(),
        forall|i: int| 0 <= i < parts.len() ==> nimbers[i] == nimber(#[trigger] parts[i]),
    ensures
        nim_sum(parts) == xor_all(nimbers),
    decreases parts.len(),
{
    if parts.len() > 0 {
        lemma_xor_of_nimbers(parts.drop_last(), nimbers.drop_last());
    }
}

/// The sum-XOR law: what a search finds for a sum is the XOR of the nimbers
/// of its parts, which are what searches find for the parts.
pub proof fn law_sum_is_xor<G: Impartial>(
    before: Evaluator<G>,
    after: Evaluator<G>,
    parts: Seq<G>,
    nimbers: Seq<usize>,
    bound: usize,
    stop: Option<bool>,
    out: Outcome,
)
    requires
        before.valid(),
        searched_sum(before, after, parts, bound, stop, out),
        out is Found,
        nimbers.len() == parts.len(),
        forall|i: int| 0 <= i < parts.len() ==> answers(#[trigger] parts[i], Some(nimbers[i])),
    ensures
        out == Outcome::Found(xor_all(nimbers)),
{
    lemma_xor_of_nimbers(parts, nimbers);
}

/// A sum of one position has the nimber of that position, and a sum of two
/// sums has the XOR of their nimbers.
pub proof fn law_sum_splits<G: Position>(g: G, left: Seq<G>, right: Seq<G>)
    ensures
        nim_sum(seq![g]) == nimber(g),
        nim_sum(left + right) == nim_sum(left) ^ nim_sum(right),
{
    lemma_nim_sum_single(g);
    lemma_nim_sum_concat(left, right);
}

/// Pair cancellation: a position that stands twice in a sum adds nothing to
/// the nimber of the sum, so what searches find for the sum with the pair
/// and for the sum without it is the same.
pub proof fn law_pair_cancels<G: Impartial>(
    first: Evaluator<G>,
    first_after: Evaluator<G>,
    second: Evaluator<G>,
    second_after: Evaluator<G>,
    a: G,
    rest: Seq<G>,
    with_pair: Outcome,
    without: Outcome,
)
    requires
        first.valid(),
        second.valid(),
        searched_sum(first, first_after, seq![a, a] + rest, usize::MAX, Some(false), with_pair),
        searched_sum(second, second_after, rest, usize::MAX, Some(false), without),
    ensures
        with_pair == without,
        nim_sum(seq![a, a] + rest) == nim_sum(rest),
{
    lemma_nim_sum_pair_cancels(a, rest);
    let full = usize::MAX;
    if rest.len() > 0 {
        let m = nim_sum(rest.drop_last());
        assert((full | m) >= full) by (bit_vector);
    }
    let sum = seq![a, a] + rest;
    let n = nim_sum(sum.drop_last());
    assert((full | n) >= full) by (bit_vector);
}

/// Pair cancellation of the answers: the sound answers for a sum with a pair
/// of equal positions and for the sum without the pair are the same.
pub proof fn law_pair_cancels_in_answers<G: Position>(
    a: G,
    rest: Seq<G>,
    with_pair: Option<usize>,
    without: Option<usize>,
)
    requires
        answers_sum(seq![a, a] + rest, with_pair),
        answers_sum(rest, without),
        with_pair is Some,
        without is Some,
    ensures
        with_pair == without,
{
    lemma_nim_sum_pair_cancels(a, rest);
}

/// A terminal position, one without a move, has the nimber 0, and that is
/// what a search that is not stopped finds, under any bound.
pub proof fn law_terminal_is_zero<G: Impartial>(
    before: Evaluator<G>,
    after: Evaluator<G>,
    g: G,
    bound: usize,
    stop: Option<bool>,
    out: Outcome,
)
    requires
        before.valid(),
        g.moves().len() == 0,
        searched(before, after, g, bound, stop, out),
        !(out is Stopped),
    ensures
        nimber(g) == 0,
        out == Outcome::Found(0),
{
    assert(!reaches(g, 0));
}

/// The empty sum has the nimber 0, and that is what every search finds.
pub proof fn law_empty_sum_is_zero<G: Impartial>(
    before: Evaluator<G>,
    after: Evaluator<G>,
    bound: usize,
    stop: Option<bool>,
    out: Outcome,
)
    requires
        before.valid(),
        searched_sum(before, after, Seq::<G>::empty(), bound, stop, out),
    ensures
        out == Outcome::Found(0),
        nim_sum(Seq::<G>::empty()) == 0,
{
}

/// A position that publishes 0 as the bound of its nimber, and keeps to it,
/// has the nimber 0, whether or not it has moves, none of which leads to a
/// sum with the nimber 0; and that is what a search that is not stopped
/// finds.
pub proof fn law_zero_bound_is_zero<G: Impartial>(
    before: Evaluator<G>,
    after: Evaluator<G>,
    g: G,
    published: Option<usize>,
    bound: usize,
    stop: Option<bool>,
    out: Outcome,
)
    requires
        before.valid(),
        published == Some(0usize),
        bounds(g, published),
        searched(before, after, g, bound, stop, out),
        !(out is Stopped),
    ensures
        out == Outcome::Found(0),
        !reaches(g, 0),
{
    lemma_nimber_is_mex(g);
}

/// Where none of the records is a stub, the count of stubs is 0.
pub proof fn lemma_stubless_counts_none<G: Impartial>(records: Seq<Record<G>>)
    requires
        stubless(records),
    ensures
        stub_count(records) == 0,
    decreases records.len(),
{
    if records.len() > 0 {
        assert(!(records[records.len() - 1].entry.data is Stub));
        assert forall|i: int| 0 <= i < records.drop_last().len() implies !((
        #[trigger] records.drop_last()[i]).entry.data is Stub) by {
            assert(records.drop_last()[i] == records[i]);
        }
        lemma_stubless_counts_none(records.drop_last());
    }
}

/// No stub is left in a cache in order: every record that a query made has
/// been taken to the processing stage before the query returned, so the
/// records in process and the settled ones are all there are.
pub proof fn law_no_stub_is_left<G: Impartial>(evaluator: Evaluator<G>)
    requires
        evaluator.valid(),
    ensures
        stub_count(evaluator.entries()) == 0,
        processing_count(evaluator.entries()) + done_count(evaluator.entries())
            == evaluator.entries().len(),
{
    lemma_stubless_counts_none(evaluator.entries());
    lemma_counts_add_up(evaluator.entries());
}

/// The counts of the stages add up to the size of the cache.
pub proof fn law_counts_add_up<G: Impartial>(evaluator: Evaluator<G>)
    ensures
        stub_count(evaluator.entries()) + processing_count(evaluator.entries()) + done_count(
            evaluator.entries(),
        ) == evaluator.entries().len(),
{
    lemma_counts_add_up(evaluator.entries());
}

} // verus!
