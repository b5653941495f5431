//! The evaluator: a cache of evaluation records, and the bounded search that
//! fills it.

use vstd::prelude::*;
use dashmap::DashMap;
use std::collections::hash_map::RandomState;
use std::sync::atomic::AtomicBool;
use std::sync::atomic::Ordering;
use std::sync::Arc;
use crate::canon::canonical_moves;
use crate::canon::canonical_of;
use crate::entry::Entry;
use crate::entry::EntryData;
use crate::entry::ProcessingData;
use crate::game::lemma_move_list_push;
use crate::game::move_list;
use crate::game::reached_from;
use crate::game::Impartial;
use crate::game::Position;
use crate::index::index_entries;
use crate::index::index_get;
use crate::index::index_insert;
use crate::index::index_len;
use crate::index::index_new;
use crate::nim::is_mex;
use crate::nim::lemma_beyond_is_not_bound;
use crate::nim::lemma_mex_at_least;
use crate::nim::lemma_nimber_unique;
use crate::nim::nim_sum;
use crate::nim::nimber;
use crate::nim::reaches;
use crate::record::all_settled;
use crate::record::bound_below;
use crate::record::held_beyond;
use crate::record::in_process;
use crate::record::lemma_grown_keeps_all_settled;
use crate::record::mex_above;
use crate::record::stubless;
use crate::record::advanced;
use crate::record::ceiling;
use crate::record::done_count;
use crate::record::grown;
use crate::record::indexed;
use crate::record::lemma_canonical_moves_answer;
use crate::record::lemma_ceiling_covers;
use crate::record::lemma_ceiling_least;
use crate::record::lemma_grown_keeps_settled;
use crate::record::lemma_grown_keeps_sound;
use crate::record::lemma_grown_same;
use crate::record::lemma_grown_twice;
use crate::record::lemma_made_by_one;
use crate::record::lemma_made_by_parts;
use crate::record::lemma_made_twice;
use crate::record::listed;
use crate::record::made_from;
use crate::record::probing;
use crate::record::opened;
use crate::record::lemma_probing_aside;
use crate::record::lemma_probing_end;
use crate::record::lemma_probing_ruled;
use crate::record::lemma_probing_same;
use crate::record::lemma_probing_start;
use crate::record::lemma_probing_top;
use crate::record::lemma_search_keeps;
use crate::record::lemma_search_keeps_valid;
use crate::record::lemma_followed_start;
use crate::record::lemma_witness_stays;
use crate::record::no_news;
use crate::record::processing_count;
use crate::record::settled;
use crate::record::settled_list;
use crate::record::sound;
use crate::record::sound_below;
use crate::record::sound_beside;
use crate::record::stub_count;
use crate::record::sum_among;
use crate::record::followed;
use crate::record::witnessed;
use crate::record::Record;

verus! {

/// What a bounded search found out.
#[derive(Debug, Clone, Copy, PartialEq, Eq)]
pub enum Outcome {
    /// The nimber.
    Found(usize),
    /// The nimber is beyond the bound.
    Beyond,
    /// The search was told to stop.
    Stopped,
}

/// `answer` is a sound answer to the question for the nimber of `g`: no
/// answer, or the nimber.
pub open spec fn answers<G: Position>(g: G, answer: Option<usize>) -> bool {
    answer matches Some(n) ==> n == nimber(g)
}

/// `answer` is a sound answer to the question for the nimber of the sum of
/// `parts`: no answer, or the nim-sum.
pub open spec fn answers_sum<G: Position>(parts: Seq<G>, answer: Option<usize>) -> bool {
    answer matches Some(n) ==> n == nim_sum(parts)
}

/// `answer` is a sound answer to the question for the nimber of `g` under
/// `bound`, given whether the nimber was settled before the question and
/// whether the search for it was stopped: a nimber that is the nimber of `g`
/// and, unless it was settled before, within the bound; or none, which
/// without a stop says that the nimber is beyond the bound.
pub open spec fn answers_within<G: Position>(
    g: G,
    bound: usize,
    settled_before: bool,
    stopped: bool,
    answer: Option<usize>,
) -> bool {
    &&& answer matches Some(n) ==> n == nimber(g) && (n <= bound || settled_before)
    &&& answer is None && !stopped ==> nimber(g) > bound
    &&& stopped ==> answer is None
    &&& settled_before ==> answer is Some
}

/// Evaluates impartial games by a recursive search for their nimbers that
/// remembers what it has found, can be told to stay under a bound, and can
/// be interrupted and taken up again.
pub struct Evaluator<G> where G: Impartial {
    cache: DashMap<u64, usize, RandomState>,
    records: Vec<Record<G>>,
    pub cancel_flag: Arc<AtomicBool>,
    interrupted: bool,
}

/// What a search for the nimber of `g` under `bound` makes of the evaluator
/// `before`, and what it finds out, `stop` standing for the request to stop.
///
/// The evaluator stays in order and only advances. A nimber that is found is
/// the nimber of `g`, is settled from then on, and is within the bound
/// unless it was settled before, in which case the cache is left as it was.
/// A search that gives up or stops leaves the record of `g` in the
/// processing stage; one that gives up, with every value up to the bound
/// ruled out. Where the request is not raised throughout,
/// the nimber is found exactly where it is within the bound or was settled
/// before, and is beyond the bound otherwise. Where the request is raised
/// throughout, the nimber is found exactly where it was settled before, the
/// search stops otherwise, and nothing is settled; a position without a
/// record gets one, with the canonical form of its moves pending and nothing
/// ruled out, and no other record is made. Every record that a search makes
/// is of a position reached from `g`.
pub open spec fn searched<G: Impartial>(
    before: Evaluator<G>,
    after: Evaluator<G>,
    g: G,
    bound: usize,
    stop: Option<bool>,
    out: Outcome,
) -> bool {
    &&& after.valid()
    &&& after.extends(&before)
    &&& after.interrupted() == before.interrupted()
    &&& out matches Outcome::Found(n) ==> n == nimber(g) && (n <= bound || before.solved(g))
        && after.solved(g)
    &&& made_from(before.entries(), after.entries(), seq![g])
    &&& before.solved(g) ==> after.entries() == before.entries()
    &&& out is Beyond ==> nimber(g) > bound && !before.solved(g) && held_beyond(
        after.entries(),
        g,
        bound,
    )
    &&& out is Stopped ==> !before.solved(g) && in_process(after.entries(), g)
    &&& stop == Some(false) ==> !(out is Stopped)
    &&& stop == Some(false) ==> (out is Found <==> nimber(g) <= bound || before.solved(g))
    &&& stop == Some(true) ==> !(out is Beyond) && (out is Found <==> before.solved(g))
    &&& stop == Some(true) ==> no_news(before.entries(), after.entries())
    &&& stop == Some(true) ==> after.entries().len() <= before.entries().len() + 1
    &&& stop == Some(true) && !listed(before.entries(), g) ==> opened(after.entries(), g)
}

/// Every one of `parts` is settled in `evaluator`.
pub open spec fn all_solved<G: Impartial>(evaluator: Evaluator<G>, parts: Seq<G>) -> bool {
    forall|j: int| 0 <= j < parts.len() ==> evaluator.solved(#[trigger] parts[j])
}

/// What a search for the nimber of the sum of `parts` under `bound` makes of
/// the evaluator `before`, and what it finds out, `stop` standing for the
/// request to stop.
///
/// The evaluator stays in order and only advances. A nimber that is found is
/// the nim-sum of the parts, all of which are settled from then on. The
/// search gives the sum up as beyond the bound
/// only where the nimber of the last part is beyond the bound adjusted by
/// the nim-sum of the others, and was not settled before. The empty sum is
/// found to be 0 with the cache left as it was, and a sum of settled parts is
/// found. Where the request is
/// not raised throughout, the sum is found if the nimber of the last part is
/// within the adjusted bound. Where the request is raised throughout, the
/// sum is found exactly where all parts were settled before and the cache is
/// then left as it was, the search stops otherwise, at most one record is
/// made, and nothing is settled. Every record that a search makes is of a
/// position reached from one of the parts.
pub open spec fn searched_sum<G: Impartial>(
    before: Evaluator<G>,
    after: Evaluator<G>,
    parts: Seq<G>,
    bound: usize,
    stop: Option<bool>,
    out: Outcome,
) -> bool {
    &&& after.valid()
    &&& after.extends(&before)
    &&& after.interrupted() == before.interrupted()
    &&& made_from(before.entries(), after.entries(), parts)
    &&& out matches Outcome::Found(n) ==> n == nim_sum(parts) && all_solved(after, parts)
    &&& out is Beyond ==> parts.len() > 0 && nimber(parts.last()) > (bound | nim_sum(parts.drop_last()))
        && !before.solved(parts.last())
    &&& parts.len() == 0 ==> out == Outcome::Found(0) && after.entries() == before.entries()
    &&& all_solved(before, parts) ==> out is Found
    &&& stop == Some(false) ==> !(out is Stopped)
    &&& stop == Some(false) && parts.len() > 0 && nimber(parts.last()) <= (bound | nim_sum(
        parts.drop_last(),
    )) ==> out is Found
    &&& stop == Some(true) ==> !(out is Beyond) && (out is Found <==> all_solved(before, parts))
    &&& stop == Some(true) ==> no_news(before.entries(), after.entries())
    &&& stop == Some(true) ==> after.entries().len() <= before.entries().len() + 1
    &&& stop == Some(true) && out is Found ==> after.entries() == before.entries()
}

impl<G> Evaluator<G> where G: Impartial {
    /// The records of the cache, in the order in which the positions were
    /// first met.
    pub closed spec fn entries(&self) -> Seq<Record<G>> {
        self.records@
    }

    /// The record at `place`.
    pub open spec fn at(&self, place: usize) -> Record<G> {
        self.entries()[place as int]
    }

    /// The last query saw the request to stop.
    pub closed spec fn interrupted(&self) -> bool {
        self.interrupted
    }

    /// The index and the records agree.
    pub closed spec fn coherent(&self) -> bool {
        indexed(index_entries(self.cache), self.records@)
    }

    /// The cache is in order: the index and the records agree, every record
    /// is sound, and none is left a stub.
    pub open spec fn valid(&self) -> bool {
        &&& self.coherent()
        &&& forall|i: int| 0 <= i < self.entries().len() ==> sound(#[trigger] self.entries()[i])
        &&& stubless(self.entries())
    }

    /// No two records of a coherent cache are of the same position.
    pub proof fn law_positions_differ(&self, i: int, j: int)
        requires
            self.coherent(),
            0 <= i < j < self.entries().len(),
        ensures
            self.entries()[i].game != self.entries()[j].game,
    {
    }

    /// Constructs a new, empty evaluator.
    pub fn new() -> (evaluator: Evaluator<G>)
        ensures
            evaluator.valid(),
            evaluator.entries().len() == 0,
            !evaluator.interrupted(),
    {
        Evaluator {
            cache: index_new(),
            records: Vec::new(),
            cancel_flag: Arc::new(AtomicBool::new(false)),
            interrupted: false,
        }
    }

    /// Finds the record of `part`, making one for it where there is none yet.
    fn ensure_entry(&mut self, part: &G) -> (place: usize)
        requires
            old(self).coherent(),
        ensures
            final(self).coherent(),
            final(self).interrupted() == old(self).interrupted(),
            place < final(self).entries().len(),
            final(self).at(place).game == *part,
            final(self).entries().len() >= old(self).entries().len(),
            final(self).entries().len() <= old(self).entries().len() + 1,
            forall|i: int|
                0 <= i < old(self).entries().len() ==> (#[trigger] final(self).entries()[i]) == old(
                    self,
                ).entries()[i],
            forall|i: int|
                old(self).entries().len() <= i < final(self).entries().len() ==> i == place && sound(
                    #[trigger] final(self).entries()[i],
                ) && final(self).entries()[i].entry.data is Stub,
    {
        let code = part.get_code();
        match index_get(&self.cache, code) {
            Some(place) => {
                proof {
                    part.lemma_code_identifies(&self.records@[place as int].game);
                }
                place
            },
            None => {
                let place = self.records.len();
                let game = part.clone();
                proof {
                    part.lemma_clone_exact(&game);
                }
                let entry = Entry::new(part.get_max_nimber());
                self.records.push(Record { game, entry });
                index_insert(&mut self.cache, code, place);
                proof {
                    let before = index_entries(old(self).cache);
                    let after = index_entries(self.cache);
                    assert(after.dom() =~= before.dom().insert(code));
                    assert forall|c: u64| #[trigger] after.contains_key(c) implies after[c]
                        < self.records@.len() && self.records@[after[c] as int].game.code() == c by {
                        if c != code {
                            assert(before.contains_key(c));
                        }
                    }
                }
                place
            },
        }
    }

    /// The nimber of `g` is settled in the cache.
    pub open spec fn solved(&self, g: G) -> bool {
        settled(self.entries(), g)
    }

    /// `self` is what queries can make of `before`: the records stand where
    /// they stood, for the same positions, each in a later state; so what
    /// was settled is untouched, and what was ruled out stays ruled out.
    pub open spec fn extends(&self, before: &Self) -> bool {
        &&& before.entries().len() <= self.entries().len()
        &&& forall|i: int|
            0 <= i < before.entries().len() ==> (#[trigger] self.entries()[i]).game
                == before.entries()[i].game
        &&& forall|i: int|
            0 <= i < before.entries().len() ==> advanced(
                before.entries()[i].entry,
                (#[trigger] self.entries()[i]).entry,
            )
    }

    /// Returns every position whose nimber is settled, with its nimber, in
    /// the order in which the positions were first met.
    pub fn get_nimbers(&self) -> (nimbers: Vec<(G, usize)>)
        ensures
            nimbers@ == settled_list(self.entries()),
    {
        let mut nimbers: Vec<(G, usize)> = Vec::new();
        let mut i: usize = 0;
        while i < self.records.len()
            invariant
                i <= self.records@.len(),
                nimbers@ == settled_list(self.records@.take(i as int)),
            decreases self.records@.len() - i,
        {
            let record = &self.records[i];
            proof {
                assert(self.records@.take(i + 1).drop_last() =~= self.records@.take(i as int));
            }
            match record.entry.get_nimber() {
                Some(nimber) => {
                    let game = record.game.clone();
                    proof {
                        record.game.lemma_clone_exact(&game);
                    }
                    nimbers.push((game, nimber));
                },
                None => {},
            }
            i = i + 1;
        }
        assert(self.records@.take(i as int) =~= self.records@);
        nimbers
    }

    /// Returns the number of records in the cache.
    pub fn get_cache_size(&self) -> (size: usize)
        requires
            self.valid(),
        ensures
            size == self.entries().len(),
    {
        index_len(&self.cache)
    }

    /// Returns the numbers of records in the stub stage, in the processing
    /// stage, and settled.
    pub fn get_cache_stats(&self) -> (stats: (usize, usize, usize))
        ensures
            stats.0 == stub_count(self.entries()),
            stats.1 == processing_count(self.entries()),
            stats.2 == done_count(self.entries()),
    {
        let mut stub: usize = 0;
        let mut processing: usize = 0;
        let mut done: usize = 0;
        let mut i: usize = 0;
        while i < self.records.len()
            invariant
                i <= self.records@.len(),
                stub == stub_count(self.records@.take(i as int)),
                processing == processing_count(self.records@.take(i as int)),
                done == done_count(self.records@.take(i as int)),
                stub + processing + done == i,
            decreases self.records@.len() - i,
        {
            proof {
                assert(self.records@.take(i + 1).drop_last() =~= self.records@.take(i as int));
            }
            match &self.records[i].entry.data {
                EntryData::Stub {} => {
                    stub = stub + 1;
                },
                EntryData::Processing { .. } => {
                    processing = processing + 1;
                },
                EntryData::Done { .. } => {
                    done = done + 1;
                },
            }
            i = i + 1;
        }
        assert(self.records@.take(i as int) =~= self.records@);
        (stub, processing, done)
    }

    /// Asks a running or coming query to stop.
    pub fn stop(&self) {
        self.cancel_flag.store(true, Ordering::Relaxed);
    }

    /// Withdraws the request to stop.
    pub fn resume(&self) {
        self.cancel_flag.store(false, Ordering::Relaxed);
    }

    /// Says whether the last query gave up because it was asked to stop.
    pub fn was_interrupted(&self) -> (interrupted: bool)
        ensures
            interrupted == self.interrupted(),
    {
        self.interrupted
    }

    /// Searches for the nimber of `g` under `bound`.
    ///
    /// `stop` stands for the request to stop: `Some(true)` and `Some(false)`
    /// take it as raised, or as not raised, wherever the search looks it up;
    /// `None` reads the cancel flag there.
    ///
    /// A settled nimber is found whatever the bound and the request. Where
    /// the request is not raised, the nimber is found exactly where it is
    /// within the bound or was settled before, and is beyond the bound
    /// otherwise. Where the request is raised, the search stops unless the
    /// nimber was settled before, and settles nothing.
    pub fn search(&mut self, g: &G, bound: usize, stop: Option<bool>) -> (out: Outcome)
        requires
            old(self).valid(),
        ensures
            searched(*old(self), *final(self), *g, bound, stop, out),
    {
        let out = self.get_bounded_nimber_of_part(g, bound, stop);
        proof {
            lemma_search_keeps_valid(old(self).entries(), self.entries(), g.rank() + 1);
        }
        out
    }

    /// Searches for the nimber of the sum of `parts` under `bound`.
    ///
    /// All parts but the last are searched in full. The last is searched
    /// under `bound` adjusted by the nim-sum of the others, so that no sum
    /// that comes to `bound` is given up. `stop` stands for the request to
    /// stop, as in `search`.
    ///
    /// The empty sum is found to be 0, and a sum of settled parts is found,
    /// whatever the bound and the request. Where the request is not raised,
    /// the sum is found if the nimber of the last part is within the adjusted
    /// bound. Where the request is raised, the sum is found exactly where all
    /// its parts were settled before, and nothing is settled.
    pub fn search_by_parts(&mut self, parts: &[G], bound: usize, stop: Option<bool>) -> (out: Outcome)
        requires
            old(self).valid(),
        ensures
            searched_sum(*old(self), *final(self), parts@, bound, stop, out),
    {
        let out = self.bounded_sum(parts, bound, stop);
        proof {
            lemma_search_keeps_valid(old(self).entries(), self.entries(), ceiling(parts@));
        }
        out
    }

    /// Computes the nimber of `game`.
    ///
    /// The answer, where there is one, is the nimber of the position,
    /// whatever the cache held before; there is none only where the query was
    /// asked to stop, and the position is then left in process. A settled
    /// position is answered with the cache left as it was.
    pub fn get_nimber(&mut self, game: &G) -> (nimber: Option<usize>)
        requires
            old(self).valid(),
        ensures
            final(self).valid(),
            final(self).extends(old(self)),
            answers(*game, nimber),
            nimber is None <==> final(self).interrupted(),
            nimber is None ==> in_process(final(self).entries(), *game),
            nimber is Some ==> final(self).solved(*game),
            old(self).solved(*game) ==> nimber is Some && final(self).entries() == old(self).entries(),
    {
        self.get_bounded_nimber(game, usize::MAX)
    }

    /// Computes the nimber of `g`, giving up where it exceeds `bound`.
    ///
    /// The answer, where there is one, is the nimber of the position; it is
    /// within the bound unless it was settled before, in which case the cache
    /// is left as it was. There is none where the nimber is beyond the bound,
    /// or where the query was asked to stop; the position is then left in
    /// process, in the first case with every value up to the bound ruled out.
    pub fn get_bounded_nimber(&mut self, g: &G, bound: usize) -> (nimber: Option<usize>)
        requires
            old(self).valid(),
        ensures
            final(self).valid(),
            final(self).extends(old(self)),
            answers_within(*g, bound, old(self).solved(*g), final(self).interrupted(), nimber),
            nimber is Some ==> final(self).solved(*g),
            nimber is None ==> in_process(final(self).entries(), *g),
            nimber is None && !final(self).interrupted() ==> held_beyond(final(self).entries(), *g, bound),
            old(self).solved(*g) ==> final(self).entries() == old(self).entries(),
    {
        let out = self.search(g, bound, None);
        self.conclude(out)
    }

    /// Computes the nimber of the sum of `parts`.
    ///
    /// The answer, where there is one, is the XOR of the nimbers of the
    /// parts, which are all settled then; there is none only where the query
    /// was asked to stop. The empty sum leaves the cache as it was.
    pub fn get_nimber_by_parts(&mut self, parts: &[G]) -> (nimber: Option<usize>)
        requires
            old(self).valid(),
        ensures
            final(self).valid(),
            final(self).extends(old(self)),
            answers_sum(parts@, nimber),
            nimber is None <==> final(self).interrupted(),
            nimber is Some ==> all_solved(*final(self), parts@),
            parts@.len() == 0 ==> nimber == Some(0usize) && final(self).entries() == old(self).entries(),
            all_solved(*old(self), parts@) ==> nimber is Some,
    {
        let nimber = self.get_bounded_nimber_by_parts(parts, usize::MAX);
        proof {
            if parts@.len() > 0 {
                let full = usize::MAX;
                let m = nim_sum(parts@.drop_last());
                assert((full | m) >= full) by (bit_vector);
            }
        }
        nimber
    }

    /// Computes the nimber of the sum of `parts` under a bound.
    ///
    /// All parts but the last are evaluated in full. The last is evaluated
    /// under `bound` adjusted by the nim-sum of the others, so that no sum
    /// that comes to `bound` is given up. The answer, where there is one, is
    /// the XOR of the nimbers of the parts, which are all settled then. There
    /// is none where the nimber of the last part is beyond the adjusted bound,
    /// or where the query was asked to stop. The empty sum leaves the cache as
    /// it was.
    pub fn get_bounded_nimber_by_parts(&mut self, parts: &[G], bound: usize) -> (nimber: Option<usize>)
        requires
            old(self).valid(),
        ensures
            final(self).valid(),
            final(self).extends(old(self)),
            answers_sum(parts@, nimber),
            nimber is None && !final(self).interrupted() ==> parts@.len() > 0 && crate::nim::nimber(
                parts@.last(),
            ) > (bound | nim_sum(parts@.drop_last())) && !old(self).solved(parts@.last()),
            final(self).interrupted() ==> nimber is None,
            nimber is Some ==> all_solved(*final(self), parts@),
            parts@.len() == 0 ==> nimber == Some(0usize) && final(self).entries() == old(self).entries(),
            all_solved(*old(self), parts@) ==> nimber is Some,
    {
        let out = self.search_by_parts(parts, bound, None);
        self.conclude(out)
    }

    /// Ends a query: notes whether it was stopped, and hands out its answer.
    fn conclude(&mut self, out: Outcome) -> (nimber: Option<usize>)
        ensures
            final(self).entries() == old(self).entries(),
            final(self).coherent() == old(self).coherent(),
            final(self).interrupted() == (out is Stopped),
            nimber == (match out {
                Outcome::Found(n) => Some(n),
                _ => None,
            }),
    {
        match out {
            Outcome::Found(n) => {
                self.interrupted = false;
                Some(n)
            },
            Outcome::Beyond => {
                self.interrupted = false;
                None
            },
            Outcome::Stopped => {
                self.interrupted = true;
                None
            },
        }
    }

    /// Looks up the request to stop: `given`, where it names a value, and the
    /// cancel flag otherwise. Another thread may raise or withdraw the request
    /// at any time, so nothing is known of what the flag says.
    fn stop_requested(&self, given: Option<bool>) -> (stop: bool)
        ensures
            given matches Some(requested) ==> stop == requested,
    {
        match given {
            Some(requested) => requested,
            None => self.cancel_flag.load(Ordering::Relaxed),
        }
    }

    /// Computes the nimber of a sum of positions under a bound.
    ///
    /// All parts but the last are evaluated in full; the last is evaluated
    /// under the bound adjusted by the nim-sum of the others.
    fn bounded_sum(&mut self, parts: &[G], bound: usize, given: Option<bool>) -> (out: Outcome)
        requires
            old(self).coherent(),
            stubless(old(self).entries()),
            sound_below(old(self).entries(), ceiling(parts@)),
        ensures
            final(self).coherent(),
            final(self).interrupted() == old(self).interrupted(),
            stubless(final(self).entries()),
            sound_below(final(self).entries(), ceiling(parts@)),
            grown(old(self).entries(), final(self).entries(), ceiling(parts@)),
            out matches Outcome::Found(n) ==> n == nim_sum(parts@) && all_settled(
                final(self).entries(),
                parts@,
            ),
            parts@.len() == 0 ==> final(self).entries() == old(self).entries(),
            made_from(old(self).entries(), final(self).entries(), parts@),
            given == Some(true) ==> final(self).entries().len() <= old(self).entries().len() + 1,
            given == Some(true) && out is Found ==> final(self).entries() == old(self).entries(),
            out is Beyond ==> parts@.len() > 0 && nimber(parts@.last()) > (bound | nim_sum(
                parts@.drop_last(),
            )) && !settled(old(self).entries(), parts@.last()),
            parts@.len() == 0 ==> out == Outcome::Found(0),
            (forall|j: int| 0 <= j < parts@.len() ==> settled(old(self).entries(), #[trigger] parts@[j]))
                ==> out is Found,
            given == Some(false) ==> !(out is Stopped),
            given == Some(true) ==> !(out is Beyond) && no_news(old(self).entries(), final(self).entries()),
            given == Some(true) && out is Found ==> forall|j: int|
                0 <= j < parts@.len() ==> settled(old(self).entries(), #[trigger] parts@[j]),
        decreases ceiling(parts@), 2nat,
    {
        let len = parts.len();
        proof {
            lemma_grown_same(self.entries(), ceiling(parts@));
        }
        if len == 0 {
            return Outcome::Found(0);
        }
        let mut modifier: usize = 0;
        let mut i: usize = 0;
        while i < len - 1
            invariant
                len == parts@.len(),
                len > 0,
                i <= len - 1,
                self.coherent(),
                self.interrupted() == old(self).interrupted(),
                stubless(self.entries()),
                sound_below(self.entries(), ceiling(parts@)),
                grown(old(self).entries(), self.entries(), ceiling(parts@)),
                modifier == nim_sum(parts@.take(i as int)),
                all_settled(self.entries(), parts@.take(i as int)),
                made_from(old(self).entries(), self.entries(), parts@),
                given == Some(true) ==> self.entries() == old(self).entries(),
                given == Some(true) ==> no_news(old(self).entries(), self.entries()),
                given == Some(true) ==> forall|j: int|
                    0 <= j < i ==> settled(old(self).entries(), #[trigger] parts@[j]),
            decreases len - i,
        {
            let ghost before = self.entries();
            proof {
                lemma_ceiling_covers(parts@, i as int);
            }
            let out = self.get_bounded_nimber_of_part(&parts[i], usize::MAX, given);
            proof {
                lemma_search_keeps(
                    old(self).entries(),
                    before,
                    self.entries(),
                    (parts@[i as int].rank() + 1) as nat,
                    ceiling(parts@),
                );
                lemma_made_by_one(before, self.entries(), parts@, i as int);
                lemma_made_twice(old(self).entries(), before, self.entries(), parts@);
                if settled(old(self).entries(), parts@[i as int]) {
                    lemma_grown_keeps_settled(old(self).entries(), before, ceiling(parts@), parts@[i as int]);
                }
            }
            match out {
                Outcome::Found(n) => {
                    modifier = modifier ^ n;
                },
                Outcome::Beyond => {
                    // No nimber is beyond the greatest bound: this is never reached.
                    return Outcome::Beyond;
                },
                Outcome::Stopped => {
                    return Outcome::Stopped;
                },
            }
            proof {
                assert(parts@.take(i + 1).drop_last() =~= parts@.take(i as int));
                lemma_grown_keeps_all_settled(
                    before,
                    self.entries(),
                    ceiling(parts@),
                    parts@.take(i as int),
                );
                assert(all_settled(self.entries(), parts@.take(i + 1))) by {
                    assert forall|j: int| 0 <= j < i + 1 implies settled(
                        self.entries(),
                        #[trigger] parts@.take(i + 1)[j],
                    ) by {
                        if j < i {
                            assert(parts@.take(i as int)[j] == parts@.take(i + 1)[j]);
                        }
                    }
                }
            }
            i = i + 1;
        }
        let ghost before = self.entries();
        proof {
            lemma_ceiling_covers(parts@, len - 1);
            assert(parts@.take(len - 1) =~= parts@.drop_last());
        }
        let out = match self.get_bounded_nimber_of_part(&parts[len - 1], bound | modifier, given) {
            Outcome::Found(n) => Outcome::Found(modifier ^ n),
            Outcome::Beyond => Outcome::Beyond,
            Outcome::Stopped => Outcome::Stopped,
        };
        proof {
            lemma_search_keeps(
                old(self).entries(),
                before,
                self.entries(),
                (parts@[len - 1].rank() + 1) as nat,
                ceiling(parts@),
            );
            lemma_made_by_one(before, self.entries(), parts@, len - 1);
            lemma_made_twice(old(self).entries(), before, self.entries(), parts@);
            if settled(old(self).entries(), parts@.last()) {
                lemma_grown_keeps_settled(old(self).entries(), before, ceiling(parts@), parts@.last());
            }
            if out is Found {
                lemma_grown_keeps_all_settled(
                    before,
                    self.entries(),
                    ceiling(parts@),
                    parts@.take(len - 1),
                );
                assert forall|j: int| 0 <= j < parts@.len() implies settled(
                    self.entries(),
                    #[trigger] parts@[j],
                ) by {
                    if j < len - 1 {
                        assert(parts@.take(len - 1)[j] == parts@[j]);
                    }
                }
            }
        }
        out
    }

    /// Computes the nimber of one position under a bound.
    ///
    /// A settled nimber is returned whatever the bound. Otherwise the least
    /// nimber not yet ruled out is the candidate, as long as it is within the
    /// bound: either a move is found that reaches it, which rules it out, or
    /// it is the nimber.
    fn get_bounded_nimber_of_part(&mut self, part: &G, bound: usize, given: Option<bool>) -> (out: Outcome)
        requires
            old(self).coherent(),
            stubless(old(self).entries()),
            sound_below(old(self).entries(), part.rank() + 1),
        ensures
            final(self).coherent(),
            final(self).interrupted() == old(self).interrupted(),
            stubless(final(self).entries()),
            settled(old(self).entries(), *part) ==> final(self).entries() == old(self).entries(),
            made_from(old(self).entries(), final(self).entries(), seq![*part]),
            given == Some(true) ==> final(self).entries().len() <= old(self).entries().len() + 1,
            given == Some(true) && !listed(old(self).entries(), *part) ==> opened(
                final(self).entries(),
                *part,
            ),
            out is Beyond ==> held_beyond(final(self).entries(), *part, bound),
            out is Stopped ==> in_process(final(self).entries(), *part),
            sound_below(final(self).entries(), part.rank() + 1),
            grown(old(self).entries(), final(self).entries(), part.rank() + 1),
            out matches Outcome::Found(n) ==> n == nimber(*part) && (n <= bound || settled(
                old(self).entries(),
                *part,
            )) && settled(final(self).entries(), *part),
            out is Beyond ==> nimber(*part) > bound && !settled(old(self).entries(), *part),
            out is Stopped ==> !settled(old(self).entries(), *part),
            given == Some(false) ==> !(out is Stopped),
            given == Some(true) ==> !(out is Beyond) && no_news(old(self).entries(), final(self).entries()),
            given == Some(true) && out is Found ==> settled(old(self).entries(), *part),
        decreases part.rank() + 1, 1nat,
    {
        let place = self.ensure_entry(part);
        proof {
            assert(grown(old(self).entries(), self.entries(), part.rank() + 1));
            assert(sound_below(self.entries(), part.rank() + 1));
            assert(made_from(old(self).entries(), self.entries(), seq![*part])) by {
                assert(reached_from(seq![*part][0], *part));
            }
            if !listed(old(self).entries(), *part) && place < old(self).entries().len() {
                assert(old(self).entries()[place as int].game == *part);
            }
            if settled(old(self).entries(), *part) {
                let i = choose|i: int|
                    0 <= i < old(self).entries().len() && (#[trigger] old(self).entries()[i]).game == *part
                        && old(self).entries()[i].entry.data is Done;
                assert(self.entries()[i] == old(self).entries()[i]);
                assert(i == place);
            }
        }
        match self.records[place].entry.get_nimber() {
            Some(n) => {
                proof {
                    assert(sound(self.at(place)));
                    assert(place < old(self).entries().len());
                    assert(old(self).at(place) == self.at(place));
                    if self.entries().len() > old(self).entries().len() {
                        assert(self.entries()[old(self).entries().len() as int].entry.data is Stub);
                    }
                    assert(self.entries() =~= old(self).entries());
                }
                return Outcome::Found(n);
            },
            None => {},
        }
        let ghost entered = self.entries();
        self.destub(place);
        proof {
            assert(grown(entered, self.entries(), part.rank() + 1));
            lemma_grown_twice(
                old(self).entries(),
                entered,
                self.entries(),
                part.rank() + 1,
                part.rank() + 1,
                part.rank() + 1,
            );
            assert(made_from(entered, self.entries(), seq![*part]));
            lemma_made_twice(old(self).entries(), entered, self.entries(), seq![*part]);
            assert(stubless(self.entries())) by {
                assert forall|i: int| 0 <= i < self.entries().len() implies !((
                #[trigger] self.entries()[i]).entry.data is Stub) by {
                    if i != place {
                        assert(self.entries()[i] == entered[i]);
                        if i < old(self).entries().len() {
                            assert(entered[i] == old(self).entries()[i]);
                        }
                    }
                }
            }
            if !listed(old(self).entries(), *part) {
                assert(place >= old(self).entries().len());
                assert(entered[place as int].entry.data is Stub);
                assert(opened(self.entries(), *part));
            }
        }
        loop
            invariant
                self.coherent(),
                self.interrupted() == old(self).interrupted(),
                place < self.entries().len(),
                self.at(place).game == *part,
                self.at(place).entry.data is Processing,
                stubless(self.entries()),
                sound_below(self.entries(), part.rank() + 1),
                grown(old(self).entries(), self.entries(), part.rank() + 1),
                made_from(old(self).entries(), self.entries(), seq![*part]),
                given == Some(true) ==> self.entries().len() <= old(self).entries().len() + 1,
                given == Some(true) && !listed(old(self).entries(), *part) ==> opened(
                    self.entries(),
                    *part,
                ),
                !settled(old(self).entries(), *part),
                given == Some(true) ==> no_news(old(self).entries(), self.entries()),
            decreases self.at(place).entry.pending().len(),
        {
            if self.stop_requested(given) {
                return Outcome::Stopped;
            }
            let candidate = self.records[place].entry.get_smallest_possible_nimber().unwrap();
            proof {
                assert forall|k: usize| k < candidate implies reaches(*part, k) by {
                    assert(self.at(place).entry.impossible().contains(k));
                }
                lemma_mex_at_least(*part, 0, candidate);
            }
            if candidate > bound {
                proof {
                    assert(is_mex(self.at(place).entry.impossible(), candidate));
                    assert(mex_above(self.at(place).entry, bound));
                }
                return Outcome::Beyond;
            }
            let ghost before = self.entries();
            proof {
                assert(sound(self.at(place)));
            }
            let ruled = self.try_rule_out_nimber(place, candidate, given);
            proof {
                lemma_made_twice(old(self).entries(), before, self.entries(), seq![*part]);
                lemma_grown_twice(
                    old(self).entries(),
                    before,
                    self.entries(),
                    part.rank() + 1,
                    part.rank() + 1,
                    part.rank() + 1,
                );
            }
            match ruled {
                None => {
                    return Outcome::Stopped;
                },
                Some(ruled_out) => {
                    if !ruled_out {
                        proof {
                            lemma_nimber_unique(*part, candidate);
                        }
                        let ghost unsettled = self.entries();
                        self.records[place].entry.data = EntryData::Done { nimber: candidate };
                        proof {
                            assert(grown(unsettled, self.entries(), part.rank() + 1));
                            lemma_grown_twice(
                                old(self).entries(),
                                unsettled,
                                self.entries(),
                                part.rank() + 1,
                                part.rank() + 1,
                                part.rank() + 1,
                            );
                        }
                        return Outcome::Found(candidate);
                    }
                },
            }
        }
    }

    /// Probes the pending moves of the position recorded at `place` for one
    /// that reaches `nimber`.
    ///
    /// Where the position published a bound below `nimber`, the answer is
    /// `Some(false)` at once and nothing is touched. Otherwise the pending
    /// moves are taken one by one and searched under the bound `nimber`. The
    /// nim-sum of a move that is found is ruled out, and the probe ends with
    /// `Some(true)` where it is `nimber`. A move that is beyond the bound is
    /// set aside. `Some(false)` says that no pending move had the nim-sum
    /// `nimber`, and `None` that the probe was told to stop. The moves set
    /// aside, and on a stop the move in hand, are put back before returning.
    fn try_rule_out_nimber(&mut self, place: usize, nimber: usize, given: Option<bool>) -> (ruled: Option<
        bool,
    >)
        requires
            old(self).coherent(),
            stubless(old(self).entries()),
            place < old(self).entries().len(),
            old(self).at(place).entry.data is Processing,
            sound_below(old(self).entries(), old(self).at(place).game.rank() + 1),
        ensures
            final(self).coherent(),
            final(self).interrupted() == old(self).interrupted(),
            stubless(final(self).entries()),
            sound_below(final(self).entries(), old(self).at(place).game.rank() + 1),
            grown(old(self).entries(), final(self).entries(), old(self).at(place).game.rank() + 1),
            made_from(old(self).entries(), final(self).entries(), seq![old(self).at(place).game]),
            final(self).at(place).entry.data is Processing,
            final(self).at(place).entry.pending().len() <= old(self).at(place).entry.pending().len(),
            followed(
                old(self).at(place).entry.pending(),
                final(self).at(place).entry.pending(),
                Seq::empty(),
                final(self).at(place).entry.impossible(),
                nimber,
                false,
            ),
            bound_below(old(self).at(place).entry.max_nimber, nimber) ==> ruled == Some(false)
                && final(self).entries() == old(self).entries(),
            ruled == Some(true) ==> final(self).at(place).entry.pending().len() < old(self).at(
                place,
            ).entry.pending().len(),
            ruled == Some(true) ==> final(self).at(place).entry.impossible().contains(nimber),
            ruled == Some(true) ==> reaches(old(self).at(place).game, nimber),
            ruled == Some(true) ==> witnessed(
                old(self).at(place).entry.pending(),
                final(self).entries(),
                nimber,
            ),
            ruled == Some(false) && !bound_below(old(self).at(place).entry.max_nimber, nimber)
                ==> !sum_among(old(self).at(place).entry.pending(), nimber),
            ruled == Some(false) && !bound_below(old(self).at(place).entry.max_nimber, nimber) && !old(
                self,
            ).at(place).entry.impossible().contains(nimber) ==> !reaches(
                old(self).at(place).game,
                nimber,
            ),
            given == Some(false) ==> ruled is Some,
        decreases old(self).at(place).game.rank() + 1, 0nat,
    {
        let ghost g = self.at(place).game;
        let ghost rank = (g.rank() + 1) as nat;
        let ghost first = self.at(place).entry.pending();
        let ghost ruled_first = self.at(place).entry.impossible();
        proof {
            assert(sound(self.at(place)));
            lemma_grown_same(self.entries(), rank);
            lemma_followed_start(first, ruled_first, nimber);
            lemma_probing_start(self.at(place), nimber);
        }
        match self.records[place].entry.max_nimber {
            Some(max_nimber) => {
                if max_nimber < nimber {
                    return Some(false);
                }
            },
            None => {},
        }
        let mut still_unprocessed_moves: Vec<Vec<G>> = Vec::new();
        let mut ruled_out_nimber = false;
        let mut exhausted = false;
        let mut stopped = false;
        proof {
            assert(move_list(still_unprocessed_moves@) =~= Seq::<Seq<G>>::empty());
        }
        while !ruled_out_nimber && !exhausted && !stopped
            invariant
                self.coherent(),
                self.interrupted() == old(self).interrupted(),
                place < self.entries().len(),
                g == old(self).at(place).game,
                rank == g.rank() + 1,
                first == old(self).at(place).entry.pending(),
                ruled_first == old(self).at(place).entry.impossible(),
                !bound_below(old(self).at(place).entry.max_nimber, nimber),
                grown(old(self).entries(), self.entries(), rank),
                made_from(old(self).entries(), self.entries(), seq![g]),
                stubless(self.entries()),
                sound_beside(self.entries(), place as int, rank),
                self.at(place).game == g,
                self.at(place).entry.data is Processing,
                self.at(place).entry.wf(),
                probing(
                    g,
                    self.at(place).entry,
                    move_list(still_unprocessed_moves@),
                    first,
                    ruled_first,
                    nimber,
                    ruled_out_nimber,
                    stopped,
                ),
                ruled_out_nimber ==> witnessed(first, self.entries(), nimber),
                ruled_out_nimber ==> !stopped,
                given == Some(false) ==> !stopped,
                exhausted ==> self.at(place).entry.pending().len() == 0,
            decreases
                    self.at(place).entry.pending().len() + (if exhausted || stopped {
                        0int
                    } else {
                        1int
                    }),
        {
            let ghost entry = self.at(place).entry;
            let ghost aside = move_list(still_unprocessed_moves@);
            match self.records[place].entry.pop_unprocessed_move() {
                Some(Some(parts)) => {
                    let ghost popped = self.entries();
                    proof {
                        lemma_probing_top(g, entry, aside, first, ruled_first, nimber, false, false);
                        lemma_ceiling_least(parts@, g.rank());
                        lemma_move_list_push(still_unprocessed_moves@, parts);
                    }
                    if self.stop_requested(given) {
                        proof {
                            lemma_probing_aside(
                                g,
                                entry,
                                self.at(place).entry,
                                aside,
                                first,
                                ruled_first,
                                nimber,
                                false,
                            );
                        }
                        still_unprocessed_moves.push(parts);
                        stopped = true;
                    } else {
                        let sum = self.bounded_sum(parts.as_slice(), nimber, given);
                        proof {
                            lemma_grown_keeps_sound(
                                popped,
                                self.entries(),
                                place as int,
                                ceiling(parts@),
                                rank,
                            );
                            lemma_grown_twice(
                                old(self).entries(),
                                popped,
                                self.entries(),
                                rank,
                                ceiling(parts@),
                                rank,
                            );
                            assert(self.at(place) == popped[place as int]);
                            lemma_made_by_parts(popped, self.entries(), parts@, g);
                            lemma_made_twice(old(self).entries(), popped, self.entries(), seq![g]);
                        }
                        match sum {
                            Outcome::Found(move_nimber) => {
                                let ghost summed = self.entries();
                                self.records[place].entry.mark_impossible(move_nimber);
                                proof {
                                    lemma_probing_ruled(
                                        g,
                                        entry,
                                        self.at(place).entry,
                                        aside,
                                        first,
                                        ruled_first,
                                        nimber,
                                    );
                                }
                                if nimber == move_nimber {
                                    ruled_out_nimber = true;
                                    proof {
                                        let k = choose|k: int| 0 <= k < first.len() && first[k] == parts@;
                                        assert(nim_sum(first[k]) == nimber && all_settled(summed, first[k]));
                                        assert(witnessed(first, summed, nimber));
                                        lemma_witness_stays(
                                            first,
                                            summed,
                                            self.entries(),
                                            place as int,
                                            nimber,
                                        );
                                    }
                                }
                            },
                            Outcome::Beyond => {
                                proof {
                                    lemma_beyond_is_not_bound(
                                        crate::nim::nimber(parts@.last()),
                                        nimber,
                                        nim_sum(parts@.drop_last()),
                                    );
                                    lemma_probing_aside(
                                        g,
                                        entry,
                                        self.at(place).entry,
                                        aside,
                                        first,
                                        ruled_first,
                                        nimber,
                                        true,
                                    );
                                }
                                still_unprocessed_moves.push(parts);
                            },
                            Outcome::Stopped => {
                                proof {
                                    lemma_probing_aside(
                                        g,
                                        entry,
                                        self.at(place).entry,
                                        aside,
                                        first,
                                        ruled_first,
                                        nimber,
                                        false,
                                    );
                                }
                                still_unprocessed_moves.push(parts);
                                stopped = true;
                            },
                        }
                    }
                },
                _ => {
                    proof {
                        lemma_probing_same(
                            g,
                            entry,
                            self.at(place).entry,
                            aside,
                            first,
                            ruled_first,
                            nimber,
                            false,
                            false,
                        );
                    }
                    exhausted = true;
                },
            }
        }
        let ghost probed = self.entries();
        let ghost aside = move_list(still_unprocessed_moves@);
        self.records[place].entry.append_unprocessed_moves(still_unprocessed_moves);
        proof {
            lemma_probing_end(
                self.at(place),
                probed[place as int].entry,
                aside,
                first,
                ruled_first,
                nimber,
                ruled_out_nimber,
                stopped,
            );
            if ruled_out_nimber {
                lemma_witness_stays(first, probed, self.entries(), place as int, nimber);
            }
        }
        if stopped {
            None
        } else {
            Some(ruled_out_nimber)
        }
    }

    /// Takes a record from the stub stage to the processing stage: asks the
    /// position for its moves, brings them into canonical form, and makes
    /// them the pending moves, with no nimber ruled out. A record beyond the
    /// stub stage is left as it is.
    fn destub(&mut self, place: usize)
        requires
            old(self).coherent(),
            place < old(self).entries().len(),
            sound(old(self).at(place)),
        ensures
            final(self).coherent(),
            final(self).interrupted() == old(self).interrupted(),
            final(self).entries().len() == old(self).entries().len(),
            forall|i: int|
                0 <= i < final(self).entries().len() && i != place ==> (#[trigger] final(self).entries()[i])
                    == old(self).entries()[i],
            final(self).at(place).game == old(self).at(place).game,
            sound(final(self).at(place)),
            advanced(old(self).at(place).entry, final(self).at(place).entry),
            old(self).at(place).entry.data is Stub ==> final(self).at(place).entry.data is Processing,
            old(self).at(place).entry.data is Stub ==> final(self).at(place).entry.impossible()
                == Set::<usize>::empty(),
            old(self).at(place).entry.data is Stub ==> canonical_of(
                final(self).at(place).entry.pending(),
                old(self).at(place).game.moves(),
            ),
            !(old(self).at(place).entry.data is Stub) ==> final(self).at(place)
                == old(self).at(place),
    {
        if !self.records[place].entry.is_stub() {
            return ;
        }
        let moves = self.records[place].game.get_split_moves();
        let moves = canonical_moves(moves);
        let ghost g = self.records@[place as int].game;
        let data = ProcessingData::new(moves);
        proof {
            lemma_canonical_moves_answer(g, data.pending());
        }
        self.records[place].entry.data = EntryData::Processing { data };
    }
}

impl<G> Default for Evaluator<G> where G: Impartial {
    fn default() -> (evaluator: Self)
        ensures
            evaluator.valid(),
            evaluator.entries().len() == 0,
            !evaluator.interrupted(),
    {
        Self::new()
    }
}

} // verus!
