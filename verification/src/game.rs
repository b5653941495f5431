//! What a game has to provide: the shape of its game graph, as ghost
//! functions with their laws, and the executable interface that enumerates
//! it.

use vstd::prelude::*;
use crate::nim::bounds;

verus! {

/// The moves held by a vector of moves, each move seen as the sequence of its parts.
pub open spec fn move_list<G>(moves: Seq<Vec<G>>) -> Seq<Seq<G>> {
    Seq::new(moves.len(), |i: int| moves[i]@)
}

/// Pushing a move onto a vector of moves pushes its parts onto the list.
pub proof fn lemma_move_list_push<G>(moves: Seq<Vec<G>>, m: Vec<G>)
    ensures
        move_list(moves.push(m)) == move_list(moves).push(m@),
{
    assert(move_list(moves.push(m)) =~= move_list(moves).push(m@));
}

/// The game graph of a family of positions.
///
/// A move replaces the position by a sum of independent positions, its parts.
/// Every part of every move must have a smaller `rank` than the position moved
/// from, so that play always ends; `code` names each position by an integer of
/// its own.
pub trait Position: Sized {
    /// The legal moves from this position; a terminal position has none.
    spec fn moves(&self) -> Seq<Seq<Self>>;

    /// A measure that every move strictly lowers in each of its parts.
    spec fn rank(&self) -> nat;

    /// The integer that identifies this position.
    spec fn code(&self) -> u64;

    /// Each part of each move ranks below the position moved from.
    proof fn lemma_moves_descend(&self, i: int, j: int)
        requires
            0 <= i < self.moves().len(),
            0 <= j < self.moves()[i].len(),
        ensures
            self.moves()[i][j].rank() < self.rank(),
    ;

    /// Two positions with the same code are the same position.
    proof fn lemma_code_identifies(&self, other: &Self)
        requires
            self.code() == other.code(),
        ensures
            *self == *other,
    ;
}

/// `c` is a part of a move from `g`.
pub open spec fn part_of<G: Position>(g: G, c: G) -> bool {
    exists|i: int, j: int|
        0 <= i < g.moves().len() && 0 <= j < g.moves()[i].len() && #[trigger] g.moves()[i][j] == c
}

/// `h` is reached from `g`: it is `g`, or a part of a move from `g`, or a
/// part of a move from such a part, and so on.
pub open spec fn reached_from<G: Position>(g: G, h: G) -> bool
    decreases g.rank(),
{
    h == g || exists|c: G| #[trigger] part_of(g, c) && c.rank() < g.rank() && reached_from(c, h)
}

/// What is reached from a part of a move from `g` is reached from `g`.
pub proof fn lemma_reached_through<G: Position>(g: G, c: G, h: G)
    requires
        part_of(g, c),
        reached_from(c, h),
    ensures
        reached_from(g, h),
{
    let (i, j) = choose|i: int, j: int|
        0 <= i < g.moves().len() && 0 <= j < g.moves()[i].len() && #[trigger] g.moves()[i][j] == c;
    g.lemma_moves_descend(i, j);
}

/// An impartial game as the evaluator sees it: a position that can list its
/// moves, may publish an upper bound on its own nimber, and can name itself.
pub trait Impartial: Position + Clone {
    /// Returns the legal moves, each as the parts that the move leaves behind.
    fn get_split_moves(&self) -> (moves: Vec<Vec<Self>>)
        ensures
            move_list(moves@) == self.moves(),
    ;

    /// Returns an upper bound on this position's nimber, if one is known.
    fn get_max_nimber(&self) -> (bound: Option<usize>)
        ensures
            bounds(*self, bound),
    {
        None
    }

    /// Returns the integer that identifies this position.
    fn get_code(&self) -> (code: u64)
        ensures
            code == self.code(),
    ;

    /// A clone of a position is that position.
    proof fn lemma_clone_exact(&self, copy: &Self)
        requires
            cloned(*self, *copy),
        ensures
            *copy == *self,
    ;
}

} // verus!
