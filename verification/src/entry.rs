//! The evaluation state that the evaluator keeps for one position.

use vstd::prelude::*;
use sorted_vec::SortedSet;
use crate::game::move_list;
use crate::game::Impartial;
use crate::nim::is_mex;
use crate::sorted::increasing;
use crate::sorted::sorted_items;
use crate::sorted::sorted_set_at;
use crate::sorted::sorted_set_find_or_push;
use crate::sorted::sorted_set_len;
use crate::sorted::sorted_set_new;

verus! {

/// The state of a position under evaluation: the moves that are still to be
/// probed, and the nimbers that the position is known not to have.
pub struct ProcessingData<G> {
    unprocessed_split_moves: Vec<Vec<G>>,
    impossible_nimbers: SortedSet<usize>,
}

impl<G> ProcessingData<G> where G: Impartial {
    /// The moves still to be probed, as a stack whose top is the last one.
    pub closed spec fn pending(&self) -> Seq<Seq<G>> {
        move_list(self.unprocessed_split_moves@)
    }

    /// The nimbers that have been ruled out.
    pub closed spec fn impossible(&self) -> Set<usize> {
        sorted_items(self.impossible_nimbers).to_set()
    }

    /// The ruled-out nimbers are held in increasing order.
    pub closed spec fn wf(&self) -> bool {
        increasing(sorted_items(self.impossible_nimbers))
    }

    /// Starts the evaluation of a position from its moves, with no nimber
    /// ruled out.
    pub fn new(moves: Vec<Vec<G>>) -> (data: ProcessingData<G>)
        ensures
            data.wf(),
            data.pending() == move_list(moves@),
            data.impossible() == Set::<usize>::empty(),
    {
        let data = ProcessingData {
            unprocessed_split_moves: moves,
            impossible_nimbers: sorted_set_new(),
        };
        assert(data.impossible() =~= Set::<usize>::empty());
        data
    }

    /// Returns the least nimber that has not been ruled out.
    pub fn get_smallest_possible_nimber(&self) -> (nimber: usize)
        requires
            self.wf(),
        ensures
            is_mex(self.impossible(), nimber),
    {
        let len = sorted_set_len(&self.impossible_nimbers);
        let ghost items = sorted_items(self.impossible_nimbers);
        let mut i: usize = 0;
        while i < len && sorted_set_at(&self.impossible_nimbers, i) == i
            invariant
                i <= len,
                len == items.len(),
                items == sorted_items(self.impossible_nimbers),
                increasing(items),
                forall|k: int| 0 <= k < i ==> items[k] == k,
            decreases len - i,
        {
            i = i + 1;
        }
        proof {
            assert forall|k: usize| k < i implies self.impossible().contains(k) by {
                assert(items[k as int] == k);
            }
            if self.impossible().contains(i) {
                let at = choose|at: int| 0 <= at < items.len() && items[at] == i;
                lemma_increasing_floor(items, at);
                if at > i {
                    lemma_increasing_floor(items, i as int);
                    assert(items[i as int] < items[at]);
                } else if at < i {
                    assert(items[at] == at);
                }
            }
        }
        i
    }

    /// Rules out `nimber`; ruling it out again changes nothing.
    pub fn mark_impossible(&mut self, nimber: usize)
        requires
            old(self).wf(),
        ensures
            final(self).wf(),
            final(self).impossible() == old(self).impossible().insert(nimber),
            final(self).pending() == old(self).pending(),
    {
        sorted_set_find_or_push(&mut self.impossible_nimbers, nimber);
        assert(self.impossible() =~= old(self).impossible().insert(nimber));
    }

    /// Takes the move on top of the stack, if there is one.
    pub fn pop_unprocessed_move(&mut self) -> (parts: Option<Vec<G>>)
        ensures
            final(self).wf() == old(self).wf(),
            final(self).impossible() == old(self).impossible(),
            old(self).pending().len() == 0 ==> parts is None,
            old(self).pending().len() == 0 ==> final(self).pending() == old(self).pending(),
            old(self).pending().len() > 0 ==> parts is Some && parts->0@ == old(self).pending().last(),
            old(self).pending().len() > 0 ==> final(self).pending() == old(self).pending().drop_last(),
    {
        let parts = self.unprocessed_split_moves.pop();
        assert(self.pending() =~= if old(self).pending().len() > 0 {
            old(self).pending().drop_last()
        } else {
            old(self).pending()
        });
        parts
    }

    /// Puts a batch of moves back on the stack, the last of them on top.
    pub fn append_unprocessed_moves(&mut self, other: Vec<Vec<G>>)
        ensures
            final(self).wf() == old(self).wf(),
            final(self).impossible() == old(self).impossible(),
            final(self).pending() == old(self).pending() + move_list(other@),
    {
        let ghost batch = move_list(other@);
        let mut batch_moves = other;
        self.unprocessed_split_moves.append(&mut batch_moves);
        assert(self.pending() =~= old(self).pending() + batch);
    }
}

/// The three stages of an evaluation.
pub enum EntryData<G> {
    /// Nothing has been done yet.
    Stub {},
    /// The moves are known, the nimber is not.
    Processing { data: ProcessingData<G> },
    /// The nimber is known.
    Done { nimber: usize },
}

/// What the evaluator keeps for one position: the stage of its evaluation,
/// and the upper bound that the position published for its nimber.
pub struct Entry<G> {
    pub data: EntryData<G>,
    pub max_nimber: Option<usize>,
}

impl<G> Entry<G> where G: Impartial {
    /// The moves still to be probed; none outside the processing stage.
    pub open spec fn pending(&self) -> Seq<Seq<G>> {
        match self.data {
            EntryData::Processing { data } => data.pending(),
            _ => Seq::empty(),
        }
    }

    /// The nimbers ruled out so far; none outside the processing stage.
    pub open spec fn impossible(&self) -> Set<usize> {
        match self.data {
            EntryData::Processing { data } => data.impossible(),
            _ => Set::empty(),
        }
    }

    /// The state of a processing entry is well formed.
    pub open spec fn wf(&self) -> bool {
        match self.data {
            EntryData::Processing { data } => data.wf(),
            _ => true,
        }
    }

    /// Creates the entry of a position that nothing is known of but the bound
    /// it published.
    pub fn new(max_nimber: Option<usize>) -> (entry: Entry<G>)
        ensures
            entry.data is Stub,
            entry.max_nimber == max_nimber,
    {
        Self { max_nimber, data: EntryData::Stub {} }
    }

    /// Says whether nothing has been done yet.
    pub fn is_stub(&self) -> (stub: bool)
        ensures
            stub == (self.data is Stub),
    {
        match self.data {
            EntryData::Stub {} => true,
            _ => false,
        }
    }

    /// Returns the nimber, once it is known.
    pub fn get_nimber(&self) -> (nimber: Option<usize>)
        ensures
            nimber == (match self.data {
                EntryData::Done { nimber } => Some(nimber),
                _ => None,
            }),
    {
        match &self.data {
            EntryData::Done { nimber } => Some(*nimber),
            _ => None,
        }
    }

    /// Returns the least nimber not yet ruled out, for an entry that is being
    /// processed.
    pub fn get_smallest_possible_nimber(&self) -> (nimber: Option<usize>)
        requires
            self.wf(),
        ensures
            nimber is Some == (self.data is Processing),
            nimber matches Some(n) ==> is_mex(self.impossible(), n),
    {
        match &self.data {
            EntryData::Processing { data } => Some(data.get_smallest_possible_nimber()),
            _ => None,
        }
    }

    /// Rules out `nimber` for an entry that is being processed; leaves any
    /// other entry as it is.
    pub fn mark_impossible(&mut self, nimber: usize)
        requires
            old(self).wf(),
        ensures
            final(self).wf(),
            final(self).max_nimber == old(self).max_nimber,
            final(self).pending() == old(self).pending(),
            old(self).data is Processing ==> final(self).data is Processing,
            old(self).data is Processing ==> final(self).impossible() == old(self).impossible().insert(
                nimber,
            ),
            !(old(self).data is Processing) ==> *final(self) == *old(self),
    {
        match &mut self.data {
            EntryData::Processing { data } => data.mark_impossible(nimber),
            _ => (),
        }
    }

    /// Takes the move on top of the stack of an entry that is being
    /// processed: `None` for any other entry, `Some(None)` where the stack is
    /// empty.
    pub fn pop_unprocessed_move(&mut self) -> (popped: Option<Option<Vec<G>>>)
        ensures
            final(self).wf() == old(self).wf(),
            final(self).max_nimber == old(self).max_nimber,
            final(self).impossible() == old(self).impossible(),
            popped is Some == (old(self).data is Processing),
            final(self).data is Processing == (old(self).data is Processing),
            !(old(self).data is Processing) ==> *final(self) == *old(self),
            old(self).pending().len() == 0 ==> final(self).pending() == old(self).pending(),
            old(self).pending().len() == 0 ==> (popped matches Some(parts) ==> parts is None),
            old(self).pending().len() > 0 ==> final(self).pending() == old(self).pending().drop_last(),
            old(self).pending().len() > 0 ==> (popped matches Some(Some(parts)) && parts@ == old(
                self,
            ).pending().last()),
    {
        match &mut self.data {
            EntryData::Processing { data } => Some(data.pop_unprocessed_move()),
            _ => None,
        }
    }

    /// Puts a batch of moves back on the stack of an entry that is being
    /// processed; leaves any other entry as it is.
    pub fn append_unprocessed_moves(&mut self, other: Vec<Vec<G>>)
        ensures
            final(self).wf() == old(self).wf(),
            final(self).max_nimber == old(self).max_nimber,
            final(self).impossible() == old(self).impossible(),
            final(self).data is Processing == (old(self).data is Processing),
            old(self).data is Processing ==> final(self).pending() == old(self).pending()
                + move_list(other@),
            !(old(self).data is Processing) ==> *final(self) == *old(self),
    {
        match &mut self.data {
            EntryData::Processing { data } => data.append_unprocessed_moves(other),
            _ => (),
        }
    }
}

/// In an increasing sequence the element at place `k` is at least `k`.
pub proof fn lemma_increasing_floor(s: Seq<usize>, k: int)
    requires
        increasing(s),
        0 <= k < s.len(),
    ensures
        s[k] >= k,
    decreases k,
{
    if k > 0 {
        lemma_increasing_floor(s, k - 1);
        assert(s[k - 1] < s[k]);
    }
}

} // verus!
