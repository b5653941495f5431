//! The mathematics of nimbers: the minimum excludant over the values that the
//! moves of a position reach, and the nim-sum of independent positions.

use vstd::prelude::*;
use crate::game::Position;

verus! {

/// The nim-sum of those parts that rank below `r`; the recursion that defines
/// `nimber` runs through it.
pub open spec fn sum_below<G: Position>(parts: Seq<G>, r: nat) -> usize
    decreases r, 0nat, parts.len(),
{
    if parts.len() == 0 {
        0usize
    } else if parts.last().rank() < r {
        sum_below(parts.drop_last(), r) ^ nimber(parts.last())
    } else {
        sum_below(parts.drop_last(), r)
    }
}

/// Some move from `g` leads to a sum whose nimber is `v`.
pub open spec fn reaches<G: Position>(g: G, v: usize) -> bool
    decreases g.rank(), 1nat, 0nat,
{
    exists|i: int| 0 <= i < g.moves().len() && sum_below(#[trigger] g.moves()[i], g.rank()) == v
}

/// The least value from `k` on that no move from `g` reaches; the greatest
/// value of all, should every value from `k` on be reached.
pub open spec fn mex_from<G: Position>(g: G, k: usize) -> usize
    decreases g.rank(), 2nat, usize::MAX - k,
{
    if k < usize::MAX && reaches(g, k) {
        mex_from(g, (k + 1) as usize)
    } else {
        k
    }
}

/// The nimber of a position: the minimum excludant of the values that its
/// moves reach, that is the least value that none of them reaches.
pub open spec fn nimber<G: Position>(g: G) -> usize
    decreases g.rank(), 3nat, 0nat,
{
    mex_from(g, 0)
}

/// The nimber of a sum of independent positions: the XOR of their nimbers.
pub open spec fn nim_sum<G: Position>(parts: Seq<G>) -> usize
    decreases parts.len(),
{
    if parts.len() == 0 {
        0usize
    } else {
        nim_sum(parts.drop_last()) ^ nimber(parts.last())
    }
}

/// `bound`, where it names a value, is an upper bound of the nimber of `g`.
pub open spec fn bounds<G: Position>(g: G, bound: Option<usize>) -> bool {
    bound matches Some(m) ==> nimber(g) <= m
}

/// `n` is the least value that `s` does not contain.
pub open spec fn is_mex(s: Set<usize>, n: usize) -> bool {
    !s.contains(n) && forall|k: usize| k < n ==> s.contains(k)
}

/// XOR cancels a value against itself, leaves a value alone against 0, and
/// takes its operands in any order and grouping.
pub proof fn lemma_xor_facts()
    ensures
        forall|a: usize| #[trigger] (a ^ a) == 0,
        forall|a: usize| #[trigger] (a ^ 0) == a,
        forall|a: usize| #[trigger] (0 ^ a) == a,
        forall|a: usize, b: usize| #[trigger] (a ^ b) == b ^ a,
        forall|a: usize, b: usize, c: usize| #[trigger] ((a ^ b) ^ c) == a ^ (b ^ c),
{
    assert forall|a: usize| #[trigger] (a ^ a) == 0 by {
        assert(a ^ a == 0) by (bit_vector);
    }
    assert forall|a: usize| #[trigger] (a ^ 0) == a by {
        assert(a ^ 0 == a) by (bit_vector);
    }
    assert forall|a: usize| #[trigger] (0 ^ a) == a by {
        assert(0 ^ a == a) by (bit_vector);
    }
    assert forall|a: usize, b: usize| #[trigger] (a ^ b) == b ^ a by {
        assert(a ^ b == b ^ a) by (bit_vector);
    }
    assert forall|a: usize, b: usize, c: usize| #[trigger] ((a ^ b) ^ c) == a ^ (b ^ c) by {
        assert((a ^ b) ^ c == a ^ (b ^ c)) by (bit_vector);
    }
}

/// Adding a part to a sum XORs its nimber onto the nim-sum.
pub proof fn lemma_nim_sum_push<G: Position>(parts: Seq<G>, x: G)
    ensures
        nim_sum(parts.push(x)) == nim_sum(parts) ^ nimber(x),
{
    assert(parts.push(x).drop_last() =~= parts);
}

/// The nim-sum of a single position is its nimber.
pub proof fn lemma_nim_sum_single<G: Position>(x: G)
    ensures
        nim_sum(seq![x]) == nimber(x),
{
    lemma_xor_facts();
    lemma_nim_sum_push(Seq::<G>::empty(), x);
    assert(Seq::<G>::empty().push(x) =~= seq![x]);
}

/// The nim-sum of two positions is the XOR of their nimbers.
pub proof fn lemma_nim_sum_pair<G: Position>(x: G, y: G)
    ensures
        nim_sum(seq![x, y]) == nimber(x) ^ nimber(y),
{
    lemma_nim_sum_single(x);
    lemma_nim_sum_push(seq![x], y);
    assert(seq![x].push(y) =~= seq![x, y]);
}

/// Where every part ranks below `r`, the guarded sum is the nim-sum.
pub proof fn lemma_sum_below<G: Position>(parts: Seq<G>, r: nat)
    requires
        forall|j: int| 0 <= j < parts.len() ==> (#[trigger] parts[j]).rank() < r,
    ensures
        sum_below(parts, r) == nim_sum(parts),
    decreases parts.len(),
{
    if parts.len() > 0 {
        lemma_sum_below(parts.drop_last(), r);
    }
}

/// A value is reached exactly when it is the nim-sum of some move.
pub proof fn lemma_reaches<G: Position>(g: G, v: usize)
    ensures
        reaches(g, v) <==> exists|i: int| 0 <= i < g.moves().len() && nim_sum(#[trigger] g.moves()[i]) == v,
{
    let moves = g.moves();
    assert forall|i: int| 0 <= i < moves.len() implies sum_below(#[trigger] moves[i], g.rank())
        == nim_sum(moves[i]) by {
        assert forall|j: int| 0 <= j < moves[i].len() implies (#[trigger] moves[i][j]).rank()
            < g.rank() by {
            g.lemma_moves_descend(i, j);
        }
        lemma_sum_below(moves[i], g.rank());
    }
    if reaches(g, v) {
        let i = choose|i: int|
            0 <= i < g.moves().len() && sum_below(#[trigger] g.moves()[i], g.rank()) == v;
        assert(nim_sum(g.moves()[i]) == v);
    }
    if exists|i: int| 0 <= i < g.moves().len() && nim_sum(#[trigger] g.moves()[i]) == v {
        let i = choose|i: int| 0 <= i < g.moves().len() && nim_sum(#[trigger] g.moves()[i]) == v;
        assert(sum_below(g.moves()[i], g.rank()) == v);
    }
}

/// Where every value from `j` up to `t` is reached, the search from `j` passes `t`.
pub proof fn lemma_mex_at_least<G: Position>(g: G, j: usize, t: usize)
    requires
        j <= t,
        forall|k: usize| j <= k < t ==> reaches(g, k),
    ensures
        mex_from(g, j) >= t,
        (t == usize::MAX || !reaches(g, t)) ==> mex_from(g, j) == t,
    decreases t - j,
{
    if j < t {
        assert(reaches(g, j));
        lemma_mex_at_least(g, (j + 1) as usize, t);
    } else {
        lemma_mex_from(g, j);
    }
}

/// The search from `j` stops at a value that is not reached, unless it runs
/// out of values, and reaches everything it passed.
pub proof fn lemma_mex_from<G: Position>(g: G, j: usize)
    ensures
        mex_from(g, j) >= j,
        mex_from(g, j) < usize::MAX ==> !reaches(g, mex_from(g, j)),
        forall|k: usize| j <= k < mex_from(g, j) ==> reaches(g, k),
    decreases usize::MAX - j,
{
    if j < usize::MAX && reaches(g, j) {
        lemma_mex_from(g, (j + 1) as usize);
    }
}

/// The nimber is the minimum excludant of the reached values: every smaller
/// value is reached, and the nimber itself is not.
pub proof fn lemma_nimber_is_mex<G: Position>(g: G)
    ensures
        forall|k: usize| k < nimber(g) ==> reaches(g, k),
        nimber(g) < usize::MAX ==> !reaches(g, nimber(g)),
{
    lemma_mex_from(g, 0);
}

/// A value below which everything is reached, and which itself is not
/// reached, is the nimber.
pub proof fn lemma_nimber_unique<G: Position>(g: G, n: usize)
    requires
        forall|k: usize| k < n ==> reaches(g, k),
        !reaches(g, n),
    ensures
        nimber(g) == n,
{
    lemma_mex_at_least(g, 0, n);
}

/// A value that is not reached bounds the nimber from above.
pub proof fn lemma_unreached_bounds<G: Position>(g: G, n: usize)
    requires
        !reaches(g, n),
    ensures
        nimber(g) <= n,
{
    lemma_mex_from(g, 0);
    if nimber(g) > n {
        assert(reaches(g, n));
    }
}

/// The nim-sum of a sum of two sums is the XOR of their nim-sums.
pub proof fn lemma_nim_sum_concat<G: Position>(a: Seq<G>, b: Seq<G>)
    ensures
        nim_sum(a + b) == nim_sum(a) ^ nim_sum(b),
    decreases b.len(),
{
    lemma_xor_facts();
    if b.len() == 0 {
        assert(a + b =~= a);
    } else {
        lemma_nim_sum_concat(a, b.drop_last());
        assert((a + b).drop_last() =~= a + b.drop_last());
    }
}

/// Taking one part out of a sum XORs its nimber off the nim-sum.
pub proof fn lemma_nim_sum_remove<G: Position>(parts: Seq<G>, i: int)
    requires
        0 <= i < parts.len(),
    ensures
        nim_sum(parts) == nim_sum(parts.remove(i)) ^ nimber(parts[i]),
{
    lemma_xor_facts();
    let a = parts.take(i);
    let b = parts.skip(i + 1);
    assert(parts =~= a.push(parts[i]) + b);
    assert(parts.remove(i) =~= a + b);
    lemma_nim_sum_push(a, parts[i]);
    lemma_nim_sum_concat(a.push(parts[i]), b);
    lemma_nim_sum_concat(a, b);
}

/// The nim-sum does not depend on the order of the parts.
pub proof fn lemma_nim_sum_permutation<G: Position>(a: Seq<G>, b: Seq<G>)
    requires
        a.to_multiset() == b.to_multiset(),
    ensures
        nim_sum(a) == nim_sum(b),
    decreases a.len(),
{
    broadcast use vstd::seq_lib::group_to_multiset_ensures;

    a.to_multiset_ensures();
    b.to_multiset_ensures();
    if a.len() == 0 {
        assert(b.len() == 0);
    } else {
        let x = a.last();
        assert(a.to_multiset().count(x) > 0);
        assert(b.contains(x));
        let j = choose|j: int| 0 <= j < b.len() && b[j] == x;
        assert(a.drop_last() =~= a.remove(a.len() - 1));
        assert(a.drop_last().to_multiset() =~= b.remove(j).to_multiset());
        lemma_nim_sum_permutation(a.drop_last(), b.remove(j));
        lemma_nim_sum_remove(b, j);
    }
}

/// Two equal parts cancel: a sum that starts with the same position twice has
/// the nim-sum of the rest.
pub proof fn lemma_nim_sum_pair_cancels<G: Position>(a: G, rest: Seq<G>)
    ensures
        nim_sum(seq![a, a] + rest) == nim_sum(rest),
{
    lemma_xor_facts();
    lemma_nim_sum_pair(a, a);
    lemma_nim_sum_concat(seq![a, a], rest);
}

/// A part whose nimber is above `bound | modifier` does not bring the
/// nim-sum with `modifier` to `bound`.
pub proof fn lemma_beyond_is_not_bound(n: usize, bound: usize, modifier: usize)
    requires
        n > (bound | modifier),
    ensures
        (modifier ^ n) != bound,
{
    assert(n > (bound | modifier) ==> (modifier ^ n) != bound) by (bit_vector);
}

} // verus!
