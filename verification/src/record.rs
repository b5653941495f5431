//! The records of the cache, what makes them sound, and what a search may
//! make of them.

use vstd::prelude::*;
use crate::canon::canonical_of;
use crate::canon::has_stand_in;
use crate::canon::stands_for;
use crate::canon::stands_for_one;
use crate::entry::Entry;
use crate::entry::EntryData;
use crate::game::lemma_reached_through;
use crate::game::part_of;
use crate::game::reached_from;
use crate::game::Impartial;
use crate::game::Position;
use crate::nim::bounds;
use crate::nim::is_mex;
use crate::nim::lemma_reaches;
use crate::nim::nim_sum;
use crate::nim::nimber;
use crate::nim::reaches;

verus! {

/// A position with the state of its evaluation.
pub struct Record<G> {
    pub game: G,
    pub entry: Entry<G>,
}

/// One of the moves on `stack` has the nim-sum `v`.
pub open spec fn sum_among<G: Position>(stack: Seq<Seq<G>>, v: usize) -> bool {
    exists|k: int| 0 <= k < stack.len() && nim_sum(#[trigger] stack[k]) == v
}

/// `p` answers for a move from `g`: its nim-sum is reached from `g`, and
/// each of its parts is a part of a move from `g` and ranks below `g`.
pub open spec fn reply<G: Position>(g: G, p: Seq<G>) -> bool {
    &&& reaches(g, nim_sum(p))
    &&& forall|j: int| 0 <= j < p.len() ==> (#[trigger] p[j]).rank() < g.rank()
    &&& forall|j: int| 0 <= j < p.len() ==> part_of(g, #[trigger] p[j])
}

/// Every move on `stack` answers for a move from `g`.
pub open spec fn replies<G: Position>(g: G, stack: Seq<Seq<G>>) -> bool {
    forall|k: int| 0 <= k < stack.len() ==> reply(g, #[trigger] stack[k])
}

/// Every value reached from `g` is ruled out already or is the nim-sum of a
/// move on one of the two stacks.
pub open spec fn accounted<G: Position>(
    g: G,
    ruled_out: Set<usize>,
    stack: Seq<Seq<G>>,
    aside: Seq<Seq<G>>,
) -> bool {
    forall|v: usize| #[trigger]
        reaches(g, v) ==> ruled_out.contains(v) || sum_among(stack, v) || sum_among(aside, v)
}

/// No move stands twice on `stack`.
pub open spec fn no_repeat<G>(stack: Seq<Seq<G>>) -> bool {
    forall|i: int, j: int| 0 <= i < j < stack.len() ==> stack[i] != stack[j]
}

/// How the pending moves stand to the moves of a position: each pending move
/// is the canonical form of one of `moves`, and each of `moves` has its
/// canonical form pending or its nim-sum ruled out.
pub open spec fn moves_held<G: Position>(
    moves: Seq<Seq<G>>,
    pending: Seq<Seq<G>>,
    ruled_out: Set<usize>,
) -> bool {
    &&& forall|k: int| 0 <= k < pending.len() ==> stands_for_one(#[trigger] pending[k], moves)
    &&& forall|i: int|
        0 <= i < moves.len() ==> has_stand_in(pending, #[trigger] moves[i]) || ruled_out.contains(
            nim_sum(moves[i]),
        )
}

/// What the evaluator relies on in a record: a published bound holds; the
/// pending moves are canonical forms of moves of the position, none twice,
/// and each move has its canonical form pending or its nim-sum ruled out;
/// what is ruled out is reached by a move, and every reached value is ruled
/// out or still to be found behind a pending move; a nimber, once settled, is
/// the nimber of the position.
pub open spec fn sound<G: Impartial>(r: Record<G>) -> bool {
    &&& r.entry.wf()
    &&& bounds(r.game, r.entry.max_nimber)
    &&& match r.entry.data {
        EntryData::Stub {} => true,
        EntryData::Processing { data } => {
            &&& moves_held(r.game.moves(), r.entry.pending(), r.entry.impossible())
            &&& no_repeat(r.entry.pending())
            &&& replies(r.game, r.entry.pending())
            &&& forall|v: usize| #[trigger] r.entry.impossible().contains(v) ==> reaches(r.game, v)
            &&& accounted(r.game, r.entry.impossible(), r.entry.pending(), Seq::empty())
        },
        EntryData::Done { nimber: n } => n == nimber(r.game),
    }
}

/// Every record of a position that ranks below `r` is sound.
pub open spec fn sound_below<G: Impartial>(records: Seq<Record<G>>, r: nat) -> bool {
    forall|i: int| 0 <= i < records.len() && records[i].game.rank() < r ==> sound(#[trigger] records[i])
}

/// `after` is a later state of the entry `before`: the published bound is
/// the same; what was settled is untouched; what was being processed has not
/// gone back to a stub; and what was ruled out is still ruled out, unless the
/// nimber has been settled since.
pub open spec fn advanced<G: Impartial>(before: Entry<G>, after: Entry<G>) -> bool {
    &&& after.max_nimber == before.max_nimber
    &&& (before.data is Done ==> after == before)
    &&& (before.data is Processing ==> !(after.data is Stub))
    &&& forall|v: usize| #[trigger]
        before.impossible().contains(v) ==> after.data is Done || after.impossible().contains(v)
}

/// `after` is what a search among positions that rank below `r` can make of
/// `before`: the records stand where they stood, for the same positions,
/// each in a later state; those of positions that rank no lower than `r`,
/// and those that were settled, are untouched; and every new record ranks
/// below `r`.
pub open spec fn grown<G: Impartial>(before: Seq<Record<G>>, after: Seq<Record<G>>, r: nat) -> bool {
    &&& before.len() <= after.len()
    &&& forall|i: int| 0 <= i < before.len() ==> (#[trigger] after[i]).game == before[i].game
    &&& forall|i: int| 0 <= i < before.len() ==> advanced(before[i].entry, (#[trigger] after[i]).entry)
    &&& forall|i: int|
        0 <= i < before.len() && (before[i].game.rank() >= r || before[i].entry.data is Done) ==> (
        #[trigger] after[i]) == before[i]
    &&& forall|i: int| before.len() <= i < after.len() ==> (#[trigger] after[i]).game.rank() < r
}

/// Nothing is settled in `after` that was not settled in `before`.
pub open spec fn no_news<G: Impartial>(before: Seq<Record<G>>, after: Seq<Record<G>>) -> bool {
    forall|i: int|
        0 <= i < after.len() && (#[trigger] after[i]).entry.data is Done ==> i < before.len() && before[i]
            == after[i]
}

/// The record of `g` is settled.
pub open spec fn settled<G: Impartial>(records: Seq<Record<G>>, g: G) -> bool {
    exists|i: int|
        0 <= i < records.len() && (#[trigger] records[i]).game == g && records[i].entry.data is Done
}

/// Every one of `parts` is settled in `records`.
pub open spec fn all_settled<G: Impartial>(records: Seq<Record<G>>, parts: Seq<G>) -> bool {
    forall|j: int| 0 <= j < parts.len() ==> settled(records, #[trigger] parts[j])
}

/// None of `records` is a stub.
pub open spec fn stubless<G: Impartial>(records: Seq<Record<G>>) -> bool {
    forall|i: int| 0 <= i < records.len() ==> !((#[trigger] records[i]).entry.data is Stub)
}

/// The least value that `entry` has not ruled out is above `bound`.
pub open spec fn mex_above<G: Impartial>(entry: Entry<G>, bound: usize) -> bool {
    exists|n: usize| #[trigger] is_mex(entry.impossible(), n) && n > bound
}

/// The record of `g` is in the processing stage.
pub open spec fn in_process<G: Impartial>(records: Seq<Record<G>>, g: G) -> bool {
    exists|i: int|
        0 <= i < records.len() && (#[trigger] records[i]).game == g && records[i].entry.data is Processing
}

/// The record of `g` is in the processing stage, and the least value that it
/// has not ruled out is above `bound`.
pub open spec fn held_beyond<G: Impartial>(records: Seq<Record<G>>, g: G, bound: usize) -> bool {
    exists|i: int|
        0 <= i < records.len() && (#[trigger] records[i]).game == g && records[i].entry.data is Processing
            && mex_above(records[i].entry, bound)
}

/// The published bound, where there is one, is below `target`.
pub open spec fn bound_below(published: Option<usize>, target: usize) -> bool {
    published matches Some(m) && m < target
}

/// The move `m` is still pending or set aside, or its nim-sum is ruled out.
pub open spec fn kept<G: Position>(
    pending: Seq<Seq<G>>,
    aside: Seq<Seq<G>>,
    ruled_out: Set<usize>,
    m: Seq<G>,
) -> bool {
    pending.contains(m) || aside.contains(m) || ruled_out.contains(nim_sum(m))
}

/// How the moves `before`, those pending when a probe for `target` began,
/// stand in the course of the probe: each of them is still pending or set
/// aside, or has its nim-sum ruled out; no other move is pending or set
/// aside; and as long as the probe is `open`, each of them that is no longer
/// pending has a nim-sum other than `target`.
pub open spec fn followed<G: Position>(
    before: Seq<Seq<G>>,
    pending: Seq<Seq<G>>,
    aside: Seq<Seq<G>>,
    ruled_out: Set<usize>,
    target: usize,
    open: bool,
) -> bool {
    &&& forall|k: int| 0 <= k < before.len() ==> kept(pending, aside, ruled_out, #[trigger] before[k])
    &&& forall|k: int| 0 <= k < pending.len() ==> before.contains(#[trigger] pending[k])
    &&& forall|k: int| 0 <= k < aside.len() ==> before.contains(#[trigger] aside[k])
    &&& open ==> forall|k: int|
        0 <= k < before.len() ==> pending.contains(#[trigger] before[k]) || nim_sum(before[k]) != target
}

/// One of `moves` has the nim-sum `target`, and all its parts are settled in
/// `records`.
pub open spec fn witnessed<G: Impartial>(moves: Seq<Seq<G>>, records: Seq<Record<G>>, target: usize) -> bool {
    exists|k: int|
        0 <= k < moves.len() && nim_sum(#[trigger] moves[k]) == target && all_settled(records, moves[k])
}

/// `h` is reached from one of `roots`.
pub open spec fn from_roots<G: Position>(roots: Seq<G>, h: G) -> bool {
    exists|j: int| 0 <= j < roots.len() && reached_from(#[trigger] roots[j], h)
}

/// Every record that `after` holds beyond those of `before` is of a position
/// reached from one of `roots`.
pub open spec fn made_from<G: Impartial>(before: Seq<Record<G>>, after: Seq<Record<G>>, roots: Seq<G>) -> bool {
    forall|i: int| before.len() <= i < after.len() ==> from_roots(roots, (#[trigger] after[i]).game)
}

/// The position `g` has a record.
pub open spec fn listed<G: Impartial>(records: Seq<Record<G>>, g: G) -> bool {
    exists|i: int| 0 <= i < records.len() && (#[trigger] records[i]).game == g
}

/// The record of `g` is as a search leaves it that opened it and went no
/// further: in the processing stage, with nothing ruled out, and with the
/// canonical form of the moves of `g` pending.
pub open spec fn opened<G: Impartial>(records: Seq<Record<G>>, g: G) -> bool {
    exists|i: int|
        0 <= i < records.len() && (#[trigger] records[i]).game == g && records[i].entry.data is Processing
            && records[i].entry.impossible() == Set::<usize>::empty() && canonical_of(
            records[i].entry.pending(),
            g.moves(),
        )
}

/// The state of a probe of the position `g` for a move that reaches
/// `target`, with `entry` the state of its record and `aside` the moves set
/// aside; `first` and `ruled_first` are what was pending and what was ruled
/// out when the probe began, `hit` says that the target has been reached, and
/// `stopped` that the probe has been told to stop.
#[verifier::opaque]
pub open spec fn probing<G: Impartial>(
    g: G,
    entry: Entry<G>,
    aside: Seq<Seq<G>>,
    first: Seq<Seq<G>>,
    ruled_first: Set<usize>,
    target: usize,
    hit: bool,
    stopped: bool,
) -> bool {
    &&& bounds(g, entry.max_nimber)
    &&& moves_held(g.moves(), first, ruled_first)
    &&& replies(g, entry.pending())
    &&& replies(g, aside)
    &&& forall|v: usize| #[trigger] entry.impossible().contains(v) ==> reaches(g, v)
    &&& forall|v: usize| ruled_first.contains(v) ==> entry.impossible().contains(v)
    &&& accounted(g, entry.impossible(), entry.pending(), aside)
    &&& followed(first, entry.pending(), aside, entry.impossible(), target, !hit && !stopped)
    &&& no_repeat(entry.pending() + aside)
    &&& !stopped ==> !sum_among(aside, target)
    &&& !hit ==> (entry.impossible().contains(target) <==> ruled_first.contains(target))
    &&& hit ==> entry.impossible().contains(target)
    &&& entry.pending().len() + aside.len() + (if hit {
        1int
    } else {
        0int
    }) <= first.len()
}

/// The index holds, for each record, its place under the code of its
/// position, and nothing else.
pub open spec fn indexed<G: Impartial>(index: Map<u64, usize>, records: Seq<Record<G>>) -> bool {
    &&& index.dom().finite()
    &&& index.dom().len() == records.len()
    &&& forall|i: int|
        0 <= i < records.len() ==> index.contains_key((#[trigger] records[i]).game.code())
            && index[records[i].game.code()] == i
    &&& forall|c: u64| #[trigger]
        index.contains_key(c) ==> index[c] < records.len() && records[index[c] as int].game.code() == c
}

/// The least rank that is above the ranks of all of `parts`.
pub open spec fn ceiling<G: Position>(parts: Seq<G>) -> nat
    decreases parts.len(),
{
    if parts.len() == 0 {
        0
    } else if ceiling(parts.drop_last()) <= parts.last().rank() {
        parts.last().rank() + 1
    } else {
        ceiling(parts.drop_last())
    }
}

/// Every record but the one at `place` that is of a position ranking below
/// `r` is sound.
pub open spec fn sound_beside<G: Impartial>(records: Seq<Record<G>>, place: int, r: nat) -> bool {
    forall|i: int|
        0 <= i < records.len() && i != place && records[i].game.rank() < r ==> sound(#[trigger] records[i])
}

/// The ceiling of a sum is above the rank of each part.
pub proof fn lemma_ceiling_covers<G: Position>(parts: Seq<G>, j: int)
    requires
        0 <= j < parts.len(),
    ensures
        parts[j].rank() < ceiling(parts),
    decreases parts.len(),
{
    if j < parts.len() - 1 {
        lemma_ceiling_covers(parts.drop_last(), j);
    }
}

/// The ceiling of a sum is the least rank above the ranks of its parts.
pub proof fn lemma_ceiling_least<G: Position>(parts: Seq<G>, r: nat)
    requires
        forall|j: int| 0 <= j < parts.len() ==> (#[trigger] parts[j]).rank() < r,
    ensures
        ceiling(parts) <= r,
    decreases parts.len(),
{
    if parts.len() > 0 {
        lemma_ceiling_least(parts.drop_last(), r);
    }
}

/// A search that changes nothing is a search.
pub proof fn lemma_grown_same<G: Impartial>(a: Seq<Record<G>>, r: nat)
    ensures
        grown(a, a, r),
{
}

/// One search after another is a search, among the positions that either
/// could reach.
pub proof fn lemma_grown_twice<G: Impartial>(
    a: Seq<Record<G>>,
    b: Seq<Record<G>>,
    c: Seq<Record<G>>,
    r1: nat,
    r2: nat,
    r: nat,
)
    requires
        grown(a, b, r1),
        grown(b, c, r2),
        r1 <= r,
        r2 <= r,
    ensures
        grown(a, c, r),
{
    assert forall|i: int| 0 <= i < a.len() implies (#[trigger] c[i]).game == a[i].game by {
        assert(b[i].game == a[i].game);
    }
    assert forall|i: int|
        0 <= i < a.len() && (a[i].game.rank() >= r || a[i].entry.data is Done) implies (#[trigger] c[i])
        == a[i] by {
        assert(b[i] == a[i]);
    }
    assert forall|i: int| a.len() <= i < c.len() implies (#[trigger] c[i]).game.rank() < r by {
        if i < b.len() {
            assert(c[i].game == b[i].game);
        }
    }
    assert forall|i: int| 0 <= i < a.len() implies advanced(a[i].entry, (#[trigger] c[i]).entry) by {
        assert(advanced(a[i].entry, b[i].entry));
        assert(advanced(b[i].entry, c[i].entry));
    }
}

/// A search among positions below `low` that leaves them sound leaves sound
/// whatever was sound below any higher rank; and it leaves the record at
/// `place` out of account if that record was out of account before.
pub proof fn lemma_grown_keeps_sound<G: Impartial>(
    a: Seq<Record<G>>,
    b: Seq<Record<G>>,
    place: int,
    low: nat,
    high: nat,
)
    requires
        grown(a, b, low),
        sound_below(b, low),
        sound_beside(a, place, high),
        low <= high,
        0 <= place < a.len() ==> a[place].game.rank() >= low,
    ensures
        sound_beside(b, place, high),
{
    assert forall|i: int|
        0 <= i < b.len() && i != place && b[i].game.rank() < high implies sound(#[trigger] b[i]) by {
        if b[i].game.rank() >= low {
            assert(i < a.len());
            assert(b[i].game == a[i].game);
            assert(b[i] == a[i]);
        }
    }
}

/// A settled record stays settled through a search.
pub proof fn lemma_grown_keeps_settled<G: Impartial>(a: Seq<Record<G>>, b: Seq<Record<G>>, r: nat, g: G)
    requires
        grown(a, b, r),
        settled(a, g),
    ensures
        settled(b, g),
{
    let i = choose|i: int| 0 <= i < a.len() && (#[trigger] a[i]).game == g && a[i].entry.data is Done;
    assert(b[i] == a[i]);
}

/// Settled parts stay settled through a search.
pub proof fn lemma_grown_keeps_all_settled<G: Impartial>(
    a: Seq<Record<G>>,
    b: Seq<Record<G>>,
    r: nat,
    parts: Seq<G>,
)
    requires
        grown(a, b, r),
        all_settled(a, parts),
    ensures
        all_settled(b, parts),
{
    assert forall|j: int| 0 <= j < parts.len() implies settled(b, #[trigger] parts[j]) by {
        lemma_grown_keeps_settled(a, b, r, parts[j]);
    }
}

/// A search among positions below `low`, made after a search among positions
/// below `high`, is a search among positions below `high`, and leaves sound
/// what was sound.
pub proof fn lemma_search_keeps<G: Impartial>(
    a: Seq<Record<G>>,
    b: Seq<Record<G>>,
    c: Seq<Record<G>>,
    low: nat,
    high: nat,
)
    requires
        grown(a, b, high),
        grown(b, c, low),
        sound_below(b, high),
        sound_below(c, low),
        low <= high,
    ensures
        grown(a, c, high),
        sound_below(c, high),
{
    lemma_grown_twice(a, b, c, high, low, high);
    assert(sound_beside(b, -1, high));
    lemma_grown_keeps_sound(b, c, -1, low, high);
    assert(sound_beside(c, -1, high));
}

/// Taking the top move off the pending stack leaves every reached value
/// accounted for, whether the value of that move is then ruled out or the
/// move is set aside.
pub proof fn lemma_popped_accounted<G: Position>(
    g: G,
    ruled_out: Set<usize>,
    pending: Seq<Seq<G>>,
    aside: Seq<Seq<G>>,
)
    requires
        pending.len() > 0,
        accounted(g, ruled_out, pending, aside),
    ensures
        accounted(g, ruled_out.insert(nim_sum(pending.last())), pending.drop_last(), aside),
        accounted(g, ruled_out, pending.drop_last(), aside.push(pending.last())),
{
    let top = pending.last();
    assert forall|v: usize| #[trigger] reaches(g, v) implies (ruled_out.insert(nim_sum(top)).contains(v)
        || sum_among(pending.drop_last(), v) || sum_among(aside, v)) && (ruled_out.contains(v)
        || sum_among(pending.drop_last(), v) || sum_among(aside.push(top), v)) by {
        if sum_among(pending, v) {
            let k = choose|k: int| 0 <= k < pending.len() && nim_sum(#[trigger] pending[k]) == v;
            if k < pending.len() - 1 {
                assert(pending.drop_last()[k] == pending[k]);
            } else {
                assert(aside.push(top)[aside.len() as int] == top);
            }
        }
        if sum_among(aside, v) {
            let k = choose|k: int| 0 <= k < aside.len() && nim_sum(#[trigger] aside[k]) == v;
            assert(aside.push(top)[k] == aside[k]);
        }
    }
}

/// Setting a move aside that answers for a move and does not have the value
/// `n` keeps the moves set aside as they have to be.
pub proof fn lemma_set_aside<G: Position>(g: G, aside: Seq<Seq<G>>, p: Seq<G>, n: usize)
    requires
        replies(g, aside),
        reply(g, p),
    ensures
        replies(g, aside.push(p)),
        !sum_among(aside, n) && nim_sum(p) != n ==> !sum_among(aside.push(p), n),
{
    assert forall|k: int| 0 <= k < aside.push(p).len() implies reply(g, #[trigger] aside.push(p)[k]) by {
        if k < aside.len() {
            assert(aside.push(p)[k] == aside[k]);
        }
    }
    if !sum_among(aside, n) && nim_sum(p) != n && sum_among(aside.push(p), n) {
        let k = choose|k: int| 0 <= k < aside.push(p).len() && nim_sum(#[trigger] aside.push(p)[k]) == n;
        if k < aside.len() {
            assert(aside.push(p)[k] == aside[k]);
        }
    }
}

/// Putting the moves set aside back on the pending stack leaves every move
/// on it answering for a move, and every reached value accounted for.
pub proof fn lemma_put_back<G: Position>(
    g: G,
    ruled_out: Set<usize>,
    pending: Seq<Seq<G>>,
    aside: Seq<Seq<G>>,
)
    requires
        replies(g, pending),
        replies(g, aside),
        accounted(g, ruled_out, pending, aside),
    ensures
        replies(g, pending + aside),
        accounted(g, ruled_out, pending + aside, Seq::empty()),
{
    let all = pending + aside;
    assert forall|k: int| 0 <= k < all.len() implies reply(g, #[trigger] all[k]) by {
        if k < pending.len() {
            assert(all[k] == pending[k]);
        } else {
            assert(all[k] == aside[k - pending.len()]);
        }
    }
    assert forall|v: usize| #[trigger] reaches(g, v) implies ruled_out.contains(v) || sum_among(all, v) by {
        if sum_among(pending, v) {
            let k = choose|k: int| 0 <= k < pending.len() && nim_sum(#[trigger] pending[k]) == v;
            assert(all[k] == pending[k]);
        }
        if sum_among(aside, v) {
            let k = choose|k: int| 0 <= k < aside.len() && nim_sum(#[trigger] aside[k]) == v;
            assert(all[k + pending.len()] == aside[k]);
        }
    }
}

/// At the start of a probe every move is pending.
pub proof fn lemma_followed_start<G: Position>(before: Seq<Seq<G>>, ruled_out: Set<usize>, target: usize)
    ensures
        followed(before, before, Seq::empty(), ruled_out, target, true),
{
    assert forall|k: int| 0 <= k < before.len() implies before.contains(#[trigger] before[k]) by {}
}

/// Ruling out the nim-sum of the move on top of the pending stack keeps the
/// moves followed; the probe stays open unless that nim-sum is the target.
pub proof fn lemma_followed_ruled<G: Position>(
    before: Seq<Seq<G>>,
    pending: Seq<Seq<G>>,
    aside: Seq<Seq<G>>,
    ruled_out: Set<usize>,
    target: usize,
    open: bool,
)
    requires
        pending.len() > 0,
        followed(before, pending, aside, ruled_out, target, open),
    ensures
        followed(
            before,
            pending.drop_last(),
            aside,
            ruled_out.insert(nim_sum(pending.last())),
            target,
            open && nim_sum(pending.last()) != target,
        ),
{
    let rest = pending.drop_last();
    let top = pending.last();
    assert forall|k: int| 0 <= k < before.len() implies (kept(
        rest,
        aside,
        ruled_out.insert(nim_sum(top)),
        #[trigger] before[k],
    ) && (pending.contains(before[k]) ==> rest.contains(before[k]) || before[k] == top)) by {
        lemma_in_rest_or_top(pending, before[k]);
    }
    assert forall|k: int| 0 <= k < rest.len() implies before.contains(#[trigger] rest[k]) by {
        assert(rest[k] == pending[k]);
    }
}

/// Setting the move on top of the pending stack aside keeps the moves
/// followed; the probe stays open only if the nim-sum of that move is not the
/// target.
pub proof fn lemma_followed_aside<G: Position>(
    before: Seq<Seq<G>>,
    pending: Seq<Seq<G>>,
    aside: Seq<Seq<G>>,
    ruled_out: Set<usize>,
    target: usize,
    open: bool,
    still: bool,
)
    requires
        pending.len() > 0,
        followed(before, pending, aside, ruled_out, target, open),
        still ==> open && nim_sum(pending.last()) != target,
    ensures
        followed(before, pending.drop_last(), aside.push(pending.last()), ruled_out, target, still),
{
    let rest = pending.drop_last();
    let top = pending.last();
    let more = aside.push(top);
    assert(more[aside.len() as int] == top);
    assert forall|k: int| 0 <= k < before.len() implies (kept(rest, more, ruled_out, #[trigger] before[k])
        && (pending.contains(before[k]) ==> rest.contains(before[k]) || before[k] == top)) by {
        lemma_in_rest_or_top(pending, before[k]);
        if aside.contains(before[k]) {
            let at = choose|at: int| 0 <= at < aside.len() && aside[at] == before[k];
            assert(more[at] == before[k]);
        }
    }
    assert forall|k: int| 0 <= k < rest.len() implies before.contains(#[trigger] rest[k]) by {
        assert(rest[k] == pending[k]);
    }
    assert forall|k: int| 0 <= k < more.len() implies before.contains(#[trigger] more[k]) by {
        if k < aside.len() {
            assert(more[k] == aside[k]);
        } else {
            assert(pending[pending.len() - 1] == top);
        }
    }
}

/// Putting the moves set aside back on the pending stack keeps the moves
/// followed.
pub proof fn lemma_followed_back<G: Position>(
    before: Seq<Seq<G>>,
    pending: Seq<Seq<G>>,
    aside: Seq<Seq<G>>,
    ruled_out: Set<usize>,
    target: usize,
    open: bool,
)
    requires
        followed(before, pending, aside, ruled_out, target, open),
    ensures
        followed(before, pending + aside, Seq::empty(), ruled_out, target, open),
{
    let all = pending + aside;
    assert forall|m: Seq<G>| pending.contains(m) || aside.contains(m) implies all.contains(m) by {
        if pending.contains(m) {
            let at = choose|at: int| 0 <= at < pending.len() && pending[at] == m;
            assert(all[at] == m);
        } else {
            let at = choose|at: int| 0 <= at < aside.len() && aside[at] == m;
            assert(all[pending.len() + at] == m);
        }
    }
    assert forall|k: int| 0 <= k < all.len() implies before.contains(#[trigger] all[k]) by {
        if k < pending.len() {
            assert(all[k] == pending[k]);
        } else {
            assert(all[k] == aside[k - pending.len()]);
        }
    }
}

/// What a stack holds is on top of it or in the rest of it.
pub proof fn lemma_in_rest_or_top<G>(stack: Seq<Seq<G>>, m: Seq<G>)
    requires
        stack.len() > 0,
    ensures
        stack.contains(m) ==> stack.drop_last().contains(m) || stack.last() == m,
{
    if stack.contains(m) {
        let at = choose|at: int| 0 <= at < stack.len() && stack[at] == m;
        if at < stack.len() - 1 {
            assert(stack.drop_last()[at] == m);
        }
    }
}

/// A witness stays one where only the record at `place`, which is not
/// settled, changes.
pub proof fn lemma_witness_stays<G: Impartial>(
    moves: Seq<Seq<G>>,
    a: Seq<Record<G>>,
    b: Seq<Record<G>>,
    place: int,
    target: usize,
)
    requires
        witnessed(moves, a, target),
        a.len() == b.len(),
        0 <= place < a.len(),
        !(a[place].entry.data is Done),
        forall|i: int| 0 <= i < a.len() && i != place ==> (#[trigger] b[i]) == a[i],
    ensures
        witnessed(moves, b, target),
{
    let k = choose|k: int|
        0 <= k < moves.len() && nim_sum(#[trigger] moves[k]) == target && all_settled(a, moves[k]);
    assert forall|j: int| 0 <= j < moves[k].len() implies settled(b, #[trigger] moves[k][j]) by {
        let i = choose|i: int|
            0 <= i < a.len() && (#[trigger] a[i]).game == moves[k][j] && a[i].entry.data is Done;
        assert(b[i] == a[i]);
    }
}

/// Records made in one search after another are made from the same roots.
pub proof fn lemma_made_twice<G: Impartial>(
    a: Seq<Record<G>>,
    b: Seq<Record<G>>,
    c: Seq<Record<G>>,
    roots: Seq<G>,
)
    requires
        made_from(a, b, roots),
        made_from(b, c, roots),
        b.len() <= c.len(),
        forall|i: int| 0 <= i < b.len() ==> (#[trigger] c[i]).game == b[i].game,
    ensures
        made_from(a, c, roots),
{
    assert forall|i: int| a.len() <= i < c.len() implies from_roots(roots, (#[trigger] c[i]).game) by {
        if i < b.len() {
            assert(from_roots(roots, b[i].game));
        }
    }
}

/// Records made from parts of moves from `g` are made from `g`.
pub proof fn lemma_made_by_parts<G: Impartial>(a: Seq<Record<G>>, b: Seq<Record<G>>, parts: Seq<G>, g: G)
    requires
        made_from(a, b, parts),
        forall|j: int| 0 <= j < parts.len() ==> part_of(g, #[trigger] parts[j]),
    ensures
        made_from(a, b, seq![g]),
{
    assert forall|i: int| a.len() <= i < b.len() implies from_roots(seq![g], (#[trigger] b[i]).game) by {
        let j = choose|j: int| 0 <= j < parts.len() && reached_from(#[trigger] parts[j], b[i].game);
        lemma_reached_through(g, parts[j], b[i].game);
        assert(reached_from(seq![g][0], b[i].game));
    }
}

/// Records made from one of `parts` are made from `parts`.
pub proof fn lemma_made_by_one<G: Impartial>(a: Seq<Record<G>>, b: Seq<Record<G>>, parts: Seq<G>, j: int)
    requires
        0 <= j < parts.len(),
        made_from(a, b, seq![parts[j]]),
    ensures
        made_from(a, b, parts),
{
    assert forall|i: int| a.len() <= i < b.len() implies from_roots(parts, (#[trigger] b[i]).game) by {
        let k = choose|k: int|
            0 <= k < seq![parts[j]].len() && reached_from(#[trigger] seq![parts[j]][k], b[i].game);
        assert(reached_from(parts[j], b[i].game));
    }
}

/// Moves that were held before a probe are held after it: what is pending
/// after was pending before, and what was pending before is pending after or
/// has its nim-sum ruled out.
pub proof fn lemma_moves_stay_held<G: Position>(
    moves: Seq<Seq<G>>,
    first: Seq<Seq<G>>,
    ruled_first: Set<usize>,
    pending: Seq<Seq<G>>,
    ruled_out: Set<usize>,
    target: usize,
)
    requires
        moves_held(moves, first, ruled_first),
        followed(first, pending, Seq::empty(), ruled_out, target, false),
        forall|v: usize| ruled_first.contains(v) ==> ruled_out.contains(v),
    ensures
        moves_held(moves, pending, ruled_out),
{
    assert forall|k: int| 0 <= k < pending.len() implies stands_for_one(#[trigger] pending[k], moves) by {
        let at = choose|at: int| 0 <= at < first.len() && first[at] == pending[k];
        assert(stands_for_one(first[at], moves));
    }
    assert forall|i: int| 0 <= i < moves.len() implies has_stand_in(pending, #[trigger] moves[i])
        || ruled_out.contains(nim_sum(moves[i])) by {
        if has_stand_in(first, moves[i]) {
            let k = choose|k: int| 0 <= k < first.len() && stands_for(#[trigger] first[k], moves[i]);
            assert(kept(pending, Seq::<Seq<G>>::empty(), ruled_out, first[k]));
            if pending.contains(first[k]) {
                let at = choose|at: int| 0 <= at < pending.len() && pending[at] == first[k];
                assert(stands_for(pending[at], moves[i]));
            }
        }
    }
}

/// Taking the move on top of the pending stack, to drop it or to set it
/// aside, leaves no move twice on the two stacks together.
pub proof fn lemma_no_repeat_popped<G>(pending: Seq<Seq<G>>, aside: Seq<Seq<G>>)
    requires
        pending.len() > 0,
        no_repeat(pending + aside),
    ensures
        no_repeat(pending.drop_last() + aside),
        no_repeat(pending.drop_last() + aside.push(pending.last())),
{
    let all = pending + aside;
    let rest = pending.drop_last();
    let top = pending.last();
    let fewer = rest + aside;
    let moved = rest + aside.push(top);
    let n = rest.len() as int;
    assert(all[n] == top);
    assert forall|i: int| 0 <= i < moved.len() implies #[trigger] moved[i] == all[if i < n {
        i
    } else if i < n + aside.len() {
        i + 1
    } else {
        n
    }] by {}
    assert forall|i: int| 0 <= i < fewer.len() implies #[trigger] fewer[i] == all[if i < n {
        i
    } else {
        i + 1
    }] by {}
    assert forall|i: int, j: int| 0 <= i < j < moved.len() implies moved[i] != moved[j] by {
        let fi = if i < n { i } else if i < n + aside.len() { i + 1 } else { n };
        let fj = if j < n { j } else if j < n + aside.len() { j + 1 } else { n };
        assert(moved[i] == all[fi] && moved[j] == all[fj]);
        assert(fi != fj);
        if fi < fj {
            assert(all[fi] != all[fj]);
        } else {
            assert(all[fj] != all[fi]);
        }
    }
    assert forall|i: int, j: int| 0 <= i < j < fewer.len() implies fewer[i] != fewer[j] by {
        let fi = if i < n { i } else { i + 1 };
        let fj = if j < n { j } else { j + 1 };
        assert(fewer[i] == all[fi] && fewer[j] == all[fj]);
        assert(all[fi] != all[fj]);
    }
}

/// A probe begins with the pending moves of a sound record, none set aside.
pub proof fn lemma_probing_start<G: Impartial>(r: Record<G>, target: usize)
    requires
        sound(r),
        r.entry.data is Processing,
    ensures
        probing(
            r.game,
            r.entry,
            Seq::empty(),
            r.entry.pending(),
            r.entry.impossible(),
            target,
            false,
            false,
        ),
{
    reveal(probing);
    lemma_followed_start(r.entry.pending(), r.entry.impossible(), target);
    assert(r.entry.pending() + Seq::<Seq<G>>::empty() =~= r.entry.pending());
}

/// The move on top of the pending stack answers for a move from `g`, and was
/// pending when the probe began.
pub proof fn lemma_probing_top<G: Impartial>(
    g: G,
    entry: Entry<G>,
    aside: Seq<Seq<G>>,
    first: Seq<Seq<G>>,
    ruled_first: Set<usize>,
    target: usize,
    hit: bool,
    stopped: bool,
)
    requires
        probing(g, entry, aside, first, ruled_first, target, hit, stopped),
        entry.pending().len() > 0,
    ensures
        reply(g, entry.pending().last()),
        first.contains(entry.pending().last()),
{
    reveal(probing);
    assert(reply(g, entry.pending()[entry.pending().len() - 1]));
    assert(first.contains(entry.pending()[entry.pending().len() - 1]));
}

/// A probe is in the same state with an entry that holds the same.
pub proof fn lemma_probing_same<G: Impartial>(
    g: G,
    entry: Entry<G>,
    same: Entry<G>,
    aside: Seq<Seq<G>>,
    first: Seq<Seq<G>>,
    ruled_first: Set<usize>,
    target: usize,
    hit: bool,
    stopped: bool,
)
    requires
        probing(g, entry, aside, first, ruled_first, target, hit, stopped),
        same.max_nimber == entry.max_nimber,
        same.pending() == entry.pending(),
        same.impossible() == entry.impossible(),
    ensures
        probing(g, same, aside, first, ruled_first, target, hit, stopped),
{
    reveal(probing);
}

/// The move on top of the pending stack was found, and its nim-sum ruled
/// out: the probe goes on, or has hit the target.
pub proof fn lemma_probing_ruled<G: Impartial>(
    g: G,
    entry: Entry<G>,
    next: Entry<G>,
    aside: Seq<Seq<G>>,
    first: Seq<Seq<G>>,
    ruled_first: Set<usize>,
    target: usize,
)
    requires
        probing(g, entry, aside, first, ruled_first, target, false, false),
        entry.pending().len() > 0,
        next.max_nimber == entry.max_nimber,
        next.pending() == entry.pending().drop_last(),
        next.impossible() == entry.impossible().insert(nim_sum(entry.pending().last())),
    ensures
        probing(
            g,
            next,
            aside,
            first,
            ruled_first,
            target,
            nim_sum(entry.pending().last()) == target,
            false,
        ),
{
    reveal(probing);
    let pending = entry.pending();
    assert(reply(g, pending[pending.len() - 1]));
    lemma_popped_accounted(g, entry.impossible(), pending, aside);
    lemma_followed_ruled(first, pending, aside, entry.impossible(), target, true);
    lemma_no_repeat_popped(pending, aside);
    assert forall|k: int| 0 <= k < next.pending().len() implies reply(g, #[trigger] next.pending()[k]) by {
        assert(next.pending()[k] == pending[k]);
    }
}

/// The move on top of the pending stack was set aside: because it is beyond
/// the bound, so that the probe goes on, or because the probe was told to
/// stop.
pub proof fn lemma_probing_aside<G: Impartial>(
    g: G,
    entry: Entry<G>,
    next: Entry<G>,
    aside: Seq<Seq<G>>,
    first: Seq<Seq<G>>,
    ruled_first: Set<usize>,
    target: usize,
    still: bool,
)
    requires
        probing(g, entry, aside, first, ruled_first, target, false, false),
        entry.pending().len() > 0,
        next.max_nimber == entry.max_nimber,
        next.pending() == entry.pending().drop_last(),
        next.impossible() == entry.impossible(),
        still ==> nim_sum(entry.pending().last()) != target,
    ensures
        probing(
            g,
            next,
            aside.push(entry.pending().last()),
            first,
            ruled_first,
            target,
            false,
            !still,
        ),
{
    reveal(probing);
    let pending = entry.pending();
    assert(reply(g, pending[pending.len() - 1]));
    lemma_popped_accounted(g, entry.impossible(), pending, aside);
    lemma_followed_aside(first, pending, aside, entry.impossible(), target, true, still);
    lemma_no_repeat_popped(pending, aside);
    lemma_set_aside(g, aside, pending.last(), target);
    assert forall|k: int| 0 <= k < next.pending().len() implies reply(g, #[trigger] next.pending()[k]) by {
        assert(next.pending()[k] == pending[k]);
    }
}

/// At the end of a probe the moves set aside are put back, and the record is
/// sound again. Each move that was pending when the probe began is pending
/// or has its nim-sum ruled out, and no other move is pending. Where the
/// probe hit the target, the target is ruled out and a move is gone from the
/// stack; where it came to the end of the stack without a hit or a stop, no
/// move that was pending had the target as its nim-sum.
pub proof fn lemma_probing_end<G: Impartial>(
    r: Record<G>,
    entry: Entry<G>,
    aside: Seq<Seq<G>>,
    first: Seq<Seq<G>>,
    ruled_first: Set<usize>,
    target: usize,
    hit: bool,
    stopped: bool,
)
    requires
        probing(r.game, entry, aside, first, ruled_first, target, hit, stopped),
        r.entry.data is Processing,
        r.entry.wf(),
        r.entry.max_nimber == entry.max_nimber,
        r.entry.impossible() == entry.impossible(),
        r.entry.pending() == entry.pending() + aside,
    ensures
        sound(r),
        followed(first, r.entry.pending(), Seq::empty(), r.entry.impossible(), target, false),
        r.entry.pending().len() <= first.len(),
        hit ==> r.entry.pending().len() < first.len() && r.entry.impossible().contains(target) && reaches(
            r.game,
            target,
        ),
        !hit && !stopped && entry.pending().len() == 0 ==> !sum_among(first, target),
        !hit && !stopped && entry.pending().len() == 0 && !ruled_first.contains(target) ==> !reaches(
            r.game,
            target,
        ),
{
    reveal(probing);
    let g = r.game;
    lemma_put_back(g, entry.impossible(), entry.pending(), aside);
    lemma_followed_back(first, entry.pending(), aside, entry.impossible(), target, !hit && !stopped);
    lemma_moves_stay_held(g.moves(), first, ruled_first, r.entry.pending(), r.entry.impossible(), target);
    if !hit && !stopped && entry.pending().len() == 0 {
        if sum_among(first, target) {
            let k = choose|k: int| 0 <= k < first.len() && nim_sum(#[trigger] first[k]) == target;
            assert(entry.pending().contains(first[k]));
        }
    }
}

/// How many of `records` are in the stub stage.
pub open spec fn stub_count<G: Impartial>(records: Seq<Record<G>>) -> nat
    decreases records.len(),
{
    if records.len() == 0 {
        0
    } else if records.last().entry.data is Stub {
        stub_count(records.drop_last()) + 1
    } else {
        stub_count(records.drop_last())
    }
}

/// How many of `records` are in the processing stage.
pub open spec fn processing_count<G: Impartial>(records: Seq<Record<G>>) -> nat
    decreases records.len(),
{
    if records.len() == 0 {
        0
    } else if records.last().entry.data is Processing {
        processing_count(records.drop_last()) + 1
    } else {
        processing_count(records.drop_last())
    }
}

/// How many of `records` are settled.
pub open spec fn done_count<G: Impartial>(records: Seq<Record<G>>) -> nat
    decreases records.len(),
{
    if records.len() == 0 {
        0
    } else if records.last().entry.data is Done {
        done_count(records.drop_last()) + 1
    } else {
        done_count(records.drop_last())
    }
}

/// The positions of the settled ones among `records`, each with its nimber,
/// in the order of the records.
pub open spec fn settled_list<G: Impartial>(records: Seq<Record<G>>) -> Seq<(G, usize)>
    decreases records.len(),
{
    if records.len() == 0 {
        Seq::empty()
    } else {
        match records.last().entry.data {
            EntryData::Done { nimber } => settled_list(records.drop_last()).push(
                (records.last().game, nimber),
            ),
            _ => settled_list(records.drop_last()),
        }
    }
}

/// The three counts together are the number of records.
pub proof fn lemma_counts_add_up<G: Impartial>(records: Seq<Record<G>>)
    ensures
        stub_count(records) + processing_count(records) + done_count(records) == records.len(),
    decreases records.len(),
{
    if records.len() > 0 {
        lemma_counts_add_up(records.drop_last());
    }
}

/// A search among positions below `r` that leaves them sound leaves a cache
/// in order if it found one.
pub proof fn lemma_search_keeps_valid<G: Impartial>(a: Seq<Record<G>>, b: Seq<Record<G>>, r: nat)
    requires
        forall|i: int| 0 <= i < a.len() ==> sound(#[trigger] a[i]),
        grown(a, b, r),
        sound_below(b, r),
    ensures
        forall|i: int| 0 <= i < b.len() ==> sound(#[trigger] b[i]),
{
    assert forall|i: int| 0 <= i < b.len() implies sound(#[trigger] b[i]) by {
        if b[i].game.rank() >= r {
            assert(i < a.len());
            assert(b[i].game == a[i].game);
            assert(b[i] == a[i]);
        }
    }
}

/// The canonical form of the moves of `g` answers for the moves of `g` and
/// accounts for every value reached from `g`.
pub proof fn lemma_canonical_moves_answer<G: Impartial>(g: G, pending: Seq<Seq<G>>)
    requires
        canonical_of(pending, g.moves()),
    ensures
        replies(g, pending),
        accounted(g, Set::<usize>::empty(), pending, Seq::empty()),
        moves_held(g.moves(), pending, Set::<usize>::empty()),
        no_repeat(pending),
{
    assert forall|k: int| 0 <= k < pending.len() implies reply(g, #[trigger] pending[k]) by {
        let p = pending[k];
        let i = choose|i: int| 0 <= i < g.moves().len() && stands_for(p, #[trigger] g.moves()[i]);
        lemma_reaches(g, nim_sum(p));
        assert forall|j: int| 0 <= j < p.len() implies (#[trigger] p[j]).rank() < g.rank() && part_of(
            g,
            p[j],
        ) by {
            let at = choose|at: int| 0 <= at < g.moves()[i].len() && g.moves()[i][at] == p[j];
            g.lemma_moves_descend(i, at);
        }
    }
    assert forall|v: usize| #[trigger] reaches(g, v) implies sum_among(pending, v) by {
        lemma_reaches(g, v);
        let i = choose|i: int| 0 <= i < g.moves().len() && nim_sum(#[trigger] g.moves()[i]) == v;
        assert(has_stand_in(pending, g.moves()[i]));
        let k = choose|k: int| 0 <= k < pending.len() && stands_for(#[trigger] pending[k], g.moves()[i]);
        assert(nim_sum(pending[k]) == v);
    }
}

} // verus!
