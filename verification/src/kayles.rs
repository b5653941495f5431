//! Kayles on a single row: a move takes one or two adjacent pins and may
//! leave the rest of the row as two separate rows.

use vstd::prelude::*;
use crate::game::lemma_move_list_push;
use crate::game::move_list;
use crate::game::Impartial;
use crate::game::Position;
use crate::nim::lemma_nim_sum_pair;
use crate::nim::lemma_nim_sum_single;
use crate::nim::lemma_nimber_unique;
use crate::nim::lemma_reaches;
use crate::nim::lemma_unreached_bounds;
use crate::nim::nim_sum;
use crate::nim::nimber;
use crate::nim::reaches;

verus! {

/// The most pins that one move takes.
pub const MAX_REMOVE: usize = 2;

/// A row of `kayles` pins.
#[derive(Debug, Eq, PartialEq, Hash)]
pub struct Kayles {
    pub kayles: usize,
}

impl Clone for Kayles {
    fn clone(&self) -> (copy: Self)
        ensures
            copy == *self,
    {
        Kayles { kayles: self.kayles }
    }
}

/// The row of `n` pins.
pub open spec fn row(n: int) -> Kayles {
    Kayles { kayles: n as usize }
}

/// The moves that take pins from the end of a row of `n`: one pin, then two.
pub open spec fn end_moves(n: int) -> Seq<Seq<Kayles>> {
    Seq::new((if n < 2 { n } else { 2 }) as nat, |t: int| seq![row(n - 1 - t)])
}

/// The moves that take `i` pins from inside a row of `n` and leave two rows,
/// the left one growing from one pin to half of what is left.
pub open spec fn inner_moves(n: int, i: int) -> Seq<Seq<Kayles>> {
    if n - i >= 2 {
        Seq::new(((n - i) / 2) as nat, |t: int| seq![row(t + 1), row(n - i - 1 - t)])
    } else {
        Seq::empty()
    }
}

impl Position for Kayles {
    open spec fn moves(&self) -> Seq<Seq<Self>> {
        end_moves(self.kayles as int) + inner_moves(self.kayles as int, 1) + inner_moves(
            self.kayles as int,
            2,
        )
    }

    open spec fn rank(&self) -> nat {
        self.kayles as nat
    }

    open spec fn code(&self) -> u64 {
        self.kayles as u64
    }

    proof fn lemma_moves_descend(&self, i: int, j: int) {
        lemma_parts_are_shorter(*self, i, j);
    }

    proof fn lemma_code_identifies(&self, other: &Self) {
    }
}

/// Every move from a row leaves one row or two; each of them is shorter
/// than the row, and two together hold fewer pins than the row.
pub proof fn lemma_parts_are_shorter(g: Kayles, i: int, j: int)
    requires
        0 <= i < g.moves().len(),
        0 <= j < g.moves()[i].len(),
    ensures
        g.moves()[i][j].kayles < g.kayles,
        g.moves()[i].len() == 1 || g.moves()[i].len() == 2,
        g.moves()[i].len() == 2 ==> g.moves()[i][0].kayles + g.moves()[i][1].kayles < g.kayles,
{
    let n = g.kayles as int;
    let a = end_moves(n);
    let b = inner_moves(n, 1);
    let c = inner_moves(n, 2);
    if i < a.len() {
        assert(g.moves()[i] == a[i]);
    } else if i < a.len() + b.len() {
        assert(g.moves()[i] == b[i - a.len()]);
    } else {
        assert(g.moves()[i] == c[i - a.len() - b.len()]);
    }
}

/// No move from a row of `n` pins reaches the value `n`, so the nimber of
/// the row is at most `n`.
pub proof fn lemma_row_bound(g: Kayles)
    ensures
        nimber(g) <= g.kayles,
        !reaches(g, g.kayles),
    decreases g.kayles,
{
    let n = g.kayles;
    lemma_reaches(g, n);
    if reaches(g, n) {
        let i = choose|i: int| 0 <= i < g.moves().len() && nim_sum(#[trigger] g.moves()[i]) == n;
        let m = g.moves()[i];
        lemma_parts_are_shorter(g, i, 0);
        lemma_row_bound(m[0]);
        let x = nimber(m[0]);
        if m.len() == 1 {
            assert(m =~= seq![m[0]]);
            lemma_nim_sum_single(m[0]);
        } else {
            lemma_parts_are_shorter(g, i, 1);
            lemma_row_bound(m[1]);
            let y = nimber(m[1]);
            assert(m =~= seq![m[0], m[1]]);
            lemma_nim_sum_pair(m[0], m[1]);
            assert((x ^ y) <= x + y) by (bit_vector);
        }
        assert(false);
    }
    lemma_unreached_bounds(g, n);
}

/// The move at place `i` of a row leads to a sum with the nimber `v`, so `v`
/// is reached from the row.
proof fn lemma_move_reaches(g: Kayles, i: int, v: usize)
    requires
        0 <= i < g.moves().len(),
        nim_sum(g.moves()[i]) == v,
    ensures
        reaches(g, v),
{
    lemma_reaches(g, v);
}

/// The rows of up to three pins have their length as their nimber.
pub proof fn law_first_rows()
    ensures
        nimber(row(0)) == 0,
        nimber(row(1)) == 1,
        nimber(row(2)) == 2,
        nimber(row(3)) == 3,
{
    lemma_row_bound(row(0));
    lemma_row_bound(row(1));
    lemma_row_bound(row(2));
    lemma_row_bound(row(3));
    lemma_nimber_unique(row(0), 0);

    lemma_nim_sum_single(row(0));
    assert(row(1).moves()[0] =~= seq![row(0)]);
    lemma_move_reaches(row(1), 0, 0);
    lemma_nimber_unique(row(1), 1);

    lemma_nim_sum_single(row(1));
    assert(row(2).moves()[0] =~= seq![row(1)]);
    assert(row(2).moves()[1] =~= seq![row(0)]);
    lemma_move_reaches(row(2), 0, 1);
    lemma_move_reaches(row(2), 1, 0);
    lemma_nimber_unique(row(2), 2);

    lemma_nim_sum_single(row(2));
    lemma_nim_sum_pair(row(1), row(1));
    assert(1usize ^ 1usize == 0usize) by (bit_vector);
    assert(row(3).moves()[0] =~= seq![row(2)]);
    assert(row(3).moves()[1] =~= seq![row(1)]);
    assert(row(3).moves()[2] =~= seq![row(1), row(1)]);
    lemma_move_reaches(row(3), 0, 2);
    lemma_move_reaches(row(3), 1, 1);
    lemma_move_reaches(row(3), 2, 0);
    lemma_nimber_unique(row(3), 3);
}

/// Appends to `moves` the moves that take `i` pins from inside a row of `n`.
fn push_inner_moves(moves: &mut Vec<Vec<Kayles>>, n: usize, i: usize)
    requires
        1 <= i <= 2,
        n >= i + 2,
    ensures
        move_list(final(moves)@) == move_list(old(moves)@) + inner_moves(n as int, i as int),
{
    let rest: usize = n - i;
    let half: usize = rest / 2;
    let ghost before = move_list(moves@);
    let mut j: usize = 1;
    while j <= half
        invariant
            1 <= j <= half + 1,
            rest == n - i,
            half == rest / 2,
            rest >= 2,
            move_list(moves@) == before + inner_moves(n as int, i as int).take(j - 1),
        decreases half + 1 - j,
    {
        let ghost earlier = moves@;
        let mut parts: Vec<Kayles> = Vec::new();
        parts.push(Kayles { kayles: j });
        parts.push(Kayles { kayles: rest - j });
        moves.push(parts);
        proof {
            assert(parts@ =~= seq![row(j as int), row(rest - j)]);
            lemma_move_list_push(earlier, parts);
            assert(move_list(moves@) =~= before + inner_moves(n as int, i as int).take(j as int));
        }
        j = j + 1;
    }
    assert(inner_moves(n as int, i as int).take(half as int) =~= inner_moves(n as int, i as int));
}

impl Impartial for Kayles {
    fn get_split_moves(&self) -> (moves: Vec<Vec<Kayles>>) {
        let n = self.kayles;
        let mut moves: Vec<Vec<Kayles>> = Vec::new();
        let ends: usize = if n < MAX_REMOVE { n } else { MAX_REMOVE };
        let mut i: usize = 1;
        while i <= ends
            invariant
                1 <= i <= ends + 1,
                ends <= 2,
                ends <= n,
                ends == (if n < 2 { n } else { 2 }),
                move_list(moves@) == end_moves(n as int).take(i - 1),
            decreases ends + 1 - i,
        {
            let ghost earlier = moves@;
            let mut parts: Vec<Kayles> = Vec::new();
            parts.push(Kayles { kayles: n - i });
            moves.push(parts);
            proof {
                assert(parts@ =~= seq![row(n - i)]);
                lemma_move_list_push(earlier, parts);
                assert(move_list(moves@) =~= end_moves(n as int).take(i as int));
            }
            i = i + 1;
        }
        assert(end_moves(n as int).take(ends as int) =~= end_moves(n as int));
        if n >= 3 {
            push_inner_moves(&mut moves, n, 1);
        }
        if n >= 4 {
            push_inner_moves(&mut moves, n, 2);
        }
        assert(move_list(moves@) =~= self.moves());
        moves
    }

    fn get_max_nimber(&self) -> (bound: Option<usize>)
        ensures
            bound == Some(self.kayles),
    {
        proof {
            lemma_row_bound(*self);
        }
        Some(self.kayles)
    }

    fn get_code(&self) -> (code: u64) {
        self.kayles as u64
    }

    proof fn lemma_clone_exact(&self, copy: &Self) {
    }
}

} // verus!
