//! The canonical form of moves: the parts of a move in the order of their
//! codes with equal pairs cancelled, the moves of a position in the order of
//! their keys with repetitions dropped.

use vstd::prelude::*;
use crate::game::move_list;
use crate::game::Impartial;
use crate::game::Position;
use crate::nim::lemma_nim_sum_concat;
use crate::nim::lemma_nim_sum_pair;
use crate::nim::lemma_nim_sum_permutation;
use crate::nim::lemma_xor_facts;
use crate::nim::nim_sum;
use crate::slices::sort_moves;
use crate::slices::sort_parts;
use crate::slices::swap_elements;

verus! {

/// No position comes before one with a smaller code.
pub open spec fn ordered_by_code<G: Position>(s: Seq<G>) -> bool {
    forall|i: int, j: int| 0 <= i < j < s.len() ==> s[i].code() <= s[j].code()
}

/// Each position has a smaller code than every later one.
pub open spec fn rising_by_code<G: Position>(s: Seq<G>) -> bool {
    forall|i: int, j: int| 0 <= i < j < s.len() ==> s[i].code() < s[j].code()
}

/// What is left of `s` when, from the left, every two equal neighbours are
/// taken out together.
pub open spec fn cancel_pairs<G>(s: Seq<G>) -> Seq<G>
    decreases s.len(),
{
    if s.len() < 2 {
        s
    } else if s[0] == s[1] {
        cancel_pairs(s.skip(2))
    } else {
        seq![s[0]] + cancel_pairs(s.skip(1))
    }
}

/// Cancelling pairs leaves the nim-sum as it was.
pub proof fn lemma_cancel_keeps_nim_sum<G: Position>(s: Seq<G>)
    ensures
        nim_sum(cancel_pairs(s)) == nim_sum(s),
    decreases s.len(),
{
    lemma_xor_facts();
    if s.len() < 2 {
    } else if s[0] == s[1] {
        lemma_cancel_keeps_nim_sum(s.skip(2));
        assert(s =~= seq![s[0], s[1]] + s.skip(2));
        lemma_nim_sum_concat(seq![s[0], s[1]], s.skip(2));
        lemma_nim_sum_pair(s[0], s[1]);
    } else {
        lemma_cancel_keeps_nim_sum(s.skip(1));
        assert(s =~= seq![s[0]] + s.skip(1));
        lemma_nim_sum_concat(seq![s[0]], s.skip(1));
        lemma_nim_sum_concat(seq![s[0]], cancel_pairs(s.skip(1)));
    }
}

/// What is left after cancelling was there before, and what is left of a
/// sequence in the order of the codes starts no lower than the sequence did.
pub proof fn lemma_cancel_keeps_order<G: Position>(s: Seq<G>)
    requires
        ordered_by_code(s),
    ensures
        rising_by_code(cancel_pairs(s)),
        forall|k: int| 0 <= k < cancel_pairs(s).len() ==> s.contains(#[trigger] cancel_pairs(s)[k]),
        cancel_pairs(s).len() > 0 ==> s.len() > 0 && cancel_pairs(s)[0].code() >= s[0].code(),
    decreases s.len(),
{
    let c = cancel_pairs(s);
    if s.len() < 2 {
        assert forall|k: int| 0 <= k < c.len() implies s.contains(#[trigger] c[k]) by {
            assert(s[k] == c[k]);
        }
    } else if s[0] == s[1] {
        let t = s.skip(2);
        assert(ordered_by_code(t)) by {
            assert forall|i: int, j: int| 0 <= i < j < t.len() implies t[i].code() <= t[j].code() by {
                assert(t[i] == s[i + 2] && t[j] == s[j + 2]);
            }
        }
        lemma_cancel_keeps_order(t);
        assert forall|k: int| 0 <= k < c.len() implies s.contains(#[trigger] c[k]) by {
            let at = choose|at: int| 0 <= at < t.len() && t[at] == c[k];
            assert(s[at + 2] == c[k]);
        }
        if c.len() > 0 {
            assert(t[0] == s[2]);
        }
    } else {
        let t = s.skip(1);
        let d = cancel_pairs(t);
        assert(ordered_by_code(t)) by {
            assert forall|i: int, j: int| 0 <= i < j < t.len() implies t[i].code() <= t[j].code() by {
                assert(t[i] == s[i + 1] && t[j] == s[j + 1]);
            }
        }
        lemma_cancel_keeps_order(t);
        assert forall|k: int| 0 <= k < c.len() implies s.contains(#[trigger] c[k]) by {
            if k == 0 {
                assert(s[0] == c[0]);
            } else {
                assert(c[k] == d[k - 1]);
                let at = choose|at: int| 0 <= at < t.len() && t[at] == d[k - 1];
                assert(s[at + 1] == c[k]);
            }
        }
        assert(t[0] == s[1]);
        if s[0].code() == s[1].code() {
            s[0].lemma_code_identifies(&s[1]);
        }
        assert(s[0].code() < s[1].code());
        assert forall|i: int, j: int| 0 <= i < j < c.len() implies c[i].code() < c[j].code() by {
            assert(c[j] == d[j - 1]);
            if i == 0 {
                assert(d[0].code() >= t[0].code());
                if j > 1 {
                    assert(d[0].code() < d[j - 1].code());
                }
            } else {
                assert(c[i] == d[i - 1]);
            }
        }
    }
}

/// What is left after cancelling holds each position once where the sequence
/// held it an odd number of times, and not at all where it held it an even
/// number of times.
pub proof fn lemma_cancel_parity<G: Position>(s: Seq<G>, x: G)
    requires
        ordered_by_code(s),
    ensures
        cancel_pairs(s).to_multiset().count(x) == s.to_multiset().count(x) % 2,
    decreases s.len(),
{
    broadcast use vstd::seq_lib::group_to_multiset_ensures;

    let none = Seq::<G>::empty();
    if s.len() == 0 {
        assert(s =~= none);
    } else if s.len() == 1 {
        assert(s =~= none.push(s[0]));
    } else if s[0] == s[1] {
        let t = s.skip(2);
        let head = none.push(s[0]).push(s[1]);
        assert(s =~= head + t);
        vstd::seq_lib::lemma_multiset_commutative(head, t);
        assert(ordered_by_code(t)) by {
            assert forall|i: int, j: int| 0 <= i < j < t.len() implies t[i].code() <= t[j].code() by {
                assert(t[i] == s[i + 2] && t[j] == s[j + 2]);
            }
        }
        lemma_cancel_parity(t, x);
    } else {
        let t = s.skip(1);
        let head = none.push(s[0]);
        assert(s =~= head + t);
        vstd::seq_lib::lemma_multiset_commutative(head, t);
        vstd::seq_lib::lemma_multiset_commutative(head, cancel_pairs(t));
        assert(ordered_by_code(t)) by {
            assert forall|i: int, j: int| 0 <= i < j < t.len() implies t[i].code() <= t[j].code() by {
                assert(t[i] == s[i + 1] && t[j] == s[j + 1]);
            }
        }
        lemma_cancel_parity(t, x);
        if x == s[0] {
            if t.contains(x) {
                let at = choose|at: int| 0 <= at < t.len() && t[at] == x;
                assert(t[at] == s[at + 1]);
                assert(s[1].code() <= s[at + 1].code());
                assert(s[0].code() <= s[1].code());
                s[0].lemma_code_identifies(&s[1]);
            }
            t.to_multiset_ensures();
            assert(t.to_multiset().count(x) == 0);
        }
    }
}

/// Brings the parts of a move into canonical form: in the order of their
/// codes, with every two equal parts cancelled.
///
/// Two equal positions add nothing to a sum, so the nim-sum stays what it
/// was. A position that was there an odd number of times is left once, and
/// one that was there an even number of times is not left.
pub fn remove_pairs<G>(vec: &mut Vec<G>) where G: Impartial
    ensures
        nim_sum(final(vec)@) == nim_sum(old(vec)@),
        rising_by_code(final(vec)@),
        forall|x: G| #[trigger]
            final(vec)@.to_multiset().count(x) == old(vec)@.to_multiset().count(x) % 2,
        forall|k: int| 0 <= k < final(vec)@.len() ==> old(vec)@.contains(#[trigger] final(vec)@[k]),
{
    sort_parts(vec);
    let ghost sorted = vec@;
    proof {
        lemma_nim_sum_permutation(sorted, old(vec)@);
    }
    let len = vec.len();
    let mut read: usize = 0;
    let mut write: usize = 0;
    proof {
        assert(sorted.skip(0) =~= sorted);
        assert(vec@.take(0) + cancel_pairs(sorted) =~= cancel_pairs(sorted));
    }
    while len - read >= 2
        invariant
            write <= read <= len,
            len == sorted.len(),
            vec@.len() == len,
            vec@.skip(read as int) == sorted.skip(read as int),
            vec@.take(write as int) + cancel_pairs(sorted.skip(read as int)) == cancel_pairs(sorted),
        decreases len - read,
    {
        let ghost rest = sorted.skip(read as int);
        assert(vec@[read as int] == vec@.skip(read as int)[0]);
        assert(vec@[read + 1] == vec@.skip(read as int)[1]);
        let same = vec[read].get_code() == vec[read + 1].get_code();
        proof {
            if same {
                rest[0].lemma_code_identifies(&rest[1]);
            }
        }
        if same {
            read = read + 2;
            assert(rest.skip(2) =~= sorted.skip(read as int));
            assert(vec@.skip(read as int) =~= vec@.skip(read - 2).skip(2));
        } else {
            let ghost before = vec@;
            swap_elements(vec, read, write);
            read = read + 1;
            write = write + 1;
            proof {
                assert(rest.skip(1) =~= sorted.skip(read as int));
                assert(vec@.skip(read as int) =~= before.skip(read - 1).skip(1));
                assert(vec@.take(write as int) =~= before.take(write - 1).push(rest[0]));
                assert(before.take(write - 1).push(rest[0]) + cancel_pairs(rest.skip(1))
                    =~= before.take(write - 1) + (seq![rest[0]] + cancel_pairs(rest.skip(1))));
            }
        }
    }
    if read < len {
        let ghost before = vec@;
        let ghost rest = sorted.skip(read as int);
        assert(vec@[read as int] == vec@.skip(read as int)[0]);
        swap_elements(vec, read, write);
        write = write + 1;
        proof {
            assert(cancel_pairs(rest) =~= seq![rest[0]]);
            assert(vec@.take(write as int) =~= before.take(write - 1) + cancel_pairs(rest));
        }
    } else {
        assert(cancel_pairs(sorted.skip(read as int)) =~= Seq::<G>::empty());
        assert(vec@.take(write as int) + Seq::<G>::empty() =~= vec@.take(write as int));
    }
    vec.truncate(write);
    proof {
        assert(vec@ =~= cancel_pairs(sorted));
        lemma_cancel_keeps_nim_sum(sorted);
        lemma_cancel_keeps_order(sorted);
        assert forall|x: G| #[trigger]
            vec@.to_multiset().count(x) == old(vec)@.to_multiset().count(x) % 2 by {
            lemma_cancel_parity(sorted, x);
        }
        assert forall|k: int| 0 <= k < vec@.len() implies old(vec)@.contains(#[trigger] vec@[k]) by {
            broadcast use vstd::seq_lib::group_to_multiset_ensures;

            assert(sorted.contains(vec@[k]));
            sorted.to_multiset_ensures();
            old(vec)@.to_multiset_ensures();
            assert(sorted.to_multiset().count(vec@[k]) > 0);
        }
    }
}

/// The key by which the moves of a position are ordered: the codes of the
/// parts, in their order.
pub open spec fn key_of<G: Position>(parts: Seq<G>) -> Seq<u64> {
    Seq::new(parts.len(), |i: int| parts[i].code())
}

/// `a` comes no later than `b` where sequences are compared place by place:
/// the first place in which they differ decides, and a sequence comes before
/// every longer one that starts with it.
pub open spec fn lex_le(a: Seq<u64>, b: Seq<u64>) -> bool
    decreases a.len(),
{
    if a.len() == 0 {
        true
    } else if b.len() == 0 {
        false
    } else if a[0] != b[0] {
        a[0] < b[0]
    } else {
        lex_le(a.skip(1), b.skip(1))
    }
}

/// No move comes before one with a smaller key.
pub open spec fn ordered_by_key<G: Position>(moves: Seq<Vec<G>>) -> bool {
    forall|i: int, j: int| 0 <= i < j < moves.len() ==> lex_le(key_of(moves[i]@), key_of(moves[j]@))
}

/// No two of `moves` have the same parts.
pub open spec fn distinct<G>(moves: Seq<Vec<G>>) -> bool {
    forall|i: int, j: int| 0 <= i < j < moves.len() ==> moves[i]@ != moves[j]@
}

/// Two sequences that each come no later than the other are the same.
pub proof fn lemma_lex_le_both(a: Seq<u64>, b: Seq<u64>)
    requires
        lex_le(a, b),
        lex_le(b, a),
    ensures
        a == b,
    decreases a.len(),
{
    if a.len() == 0 || b.len() == 0 {
        assert(a =~= b);
    } else {
        lemma_lex_le_both(a.skip(1), b.skip(1));
        assert(a =~= seq![a[0]] + a.skip(1));
        assert(b =~= seq![b[0]] + b.skip(1));
    }
}

/// Two moves with the same key have the same parts.
pub proof fn lemma_key_identifies<G: Position>(p: Seq<G>, q: Seq<G>)
    requires
        key_of(p) == key_of(q),
    ensures
        p == q,
{
    assert(p.len() == key_of(p).len());
    assert(q.len() == key_of(q).len());
    assert forall|i: int| 0 <= i < p.len() implies p[i] == q[i] by {
        assert(key_of(p)[i] == p[i].code());
        assert(key_of(q)[i] == q[i].code());
        p[i].lemma_code_identifies(&q[i]);
    }
    assert(p =~= q);
}

/// `p` is the canonical form of the move `m`, and stands in for it: it holds
/// once, in the order of the codes, each position that `m` holds an odd
/// number of times, and no other; so each of its parts is a part of `m`, and
/// it has the nim-sum of `m`.
pub open spec fn stands_for<G: Position>(p: Seq<G>, m: Seq<G>) -> bool {
    &&& rising_by_code(p)
    &&& forall|x: G| #[trigger] p.to_multiset().count(x) == m.to_multiset().count(x) % 2
    &&& forall|k: int| 0 <= k < p.len() ==> m.contains(#[trigger] p[k])
    &&& nim_sum(p) == nim_sum(m)
}

/// One of `moves` has the parts `m`.
pub open spec fn has_move<G>(moves: Seq<Vec<G>>, m: Seq<G>) -> bool {
    exists|k: int| 0 <= k < moves.len() && (#[trigger] moves[k])@ == m
}

/// Returns the key of a move.
pub fn move_key<G: Impartial>(parts: &Vec<G>) -> (key: Vec<u64>)
    ensures
        key@ == key_of(parts@),
{
    let mut key: Vec<u64> = Vec::new();
    let mut i: usize = 0;
    while i < parts.len()
        invariant
            i <= parts.len(),
            key@ == key_of(parts@.take(i as int)),
        decreases parts.len() - i,
    {
        key.push(parts[i].get_code());
        i = i + 1;
        assert(key@ =~= key_of(parts@.take(i as int)));
    }
    assert(parts@.take(i as int) =~= parts@);
    key
}

/// Says whether two moves have the same parts in the same order.
pub fn same_parts<G: Impartial>(a: &Vec<G>, b: &Vec<G>) -> (same: bool)
    ensures
        same == (a@ == b@),
{
    if a.len() != b.len() {
        return false;
    }
    let mut i: usize = 0;
    while i < a.len()
        invariant
            i <= a.len(),
            a.len() == b.len(),
            a@.take(i as int) == b@.take(i as int),
        decreases a.len() - i,
    {
        if a[i].get_code() != b[i].get_code() {
            return false;
        }
        proof {
            a@[i as int].lemma_code_identifies(&b@[i as int]);
            assert(a@.take(i + 1) =~= a@.take(i as int).push(a@[i as int]));
            assert(b@.take(i + 1) =~= b@.take(i as int).push(b@[i as int]));
        }
        i = i + 1;
    }
    assert(a@.take(i as int) =~= a@);
    assert(b@.take(i as int) =~= b@);
    true
}

/// The moves of `moves` that do not repeat the move just before them, in
/// their order.
pub open spec fn without_repeats<G>(moves: Seq<Vec<G>>) -> Seq<Vec<G>>
    decreases moves.len(),
{
    if moves.len() == 0 {
        moves
    } else if moves.len() == 1 || moves[moves.len() - 1]@ != moves[moves.len() - 2]@ {
        without_repeats(moves.drop_last()).push(moves.last())
    } else {
        without_repeats(moves.drop_last())
    }
}

/// How the moves without repeats grow with the sequence: the first move is
/// kept, and each later one is kept where it differs from the one before it.
pub proof fn lemma_without_repeats_grows<G>(moves: Seq<Vec<G>>, n: int)
    requires
        0 <= n < moves.len(),
    ensures
        n == 0 ==> without_repeats(moves.take(1)) == Seq::<Vec<G>>::empty().push(moves[0]),
        n > 0 && moves[n]@ != moves[n - 1]@ ==> without_repeats(moves.take(n + 1)) == without_repeats(
            moves.take(n),
        ).push(moves[n]),
        n > 0 && moves[n]@ == moves[n - 1]@ ==> without_repeats(moves.take(n + 1)) == without_repeats(
            moves.take(n),
        ),
{
    let longer = moves.take(n + 1);
    assert(longer.drop_last() =~= moves.take(n));
    assert(longer.last() == moves[n]);
    if n == 0 {
        assert(without_repeats(moves.take(0)) =~= Seq::<Vec<G>>::empty());
    } else {
        assert(longer[longer.len() - 2] == moves[n - 1]);
    }
}

/// What is kept without repeats ends with the last move of the sequence.
pub proof fn lemma_without_repeats_last<G>(moves: Seq<Vec<G>>)
    ensures
        without_repeats(moves).len() <= moves.len(),
        moves.len() > 0 ==> without_repeats(moves).len() > 0 && without_repeats(moves).last()@
            == moves.last()@,
    decreases moves.len(),
{
    if moves.len() > 0 {
        let shorter = moves.drop_last();
        lemma_without_repeats_last(shorter);
        if moves.len() > 1 {
            assert(shorter.last() == moves[moves.len() - 2]);
        }
    }
}

/// What is kept without repeats are moves of the sequence.
pub proof fn lemma_without_repeats_kept<G>(moves: Seq<Vec<G>>, k: int)
    requires
        0 <= k < without_repeats(moves).len(),
    ensures
        moves.contains(without_repeats(moves)[k]),
    decreases moves.len(),
{
    let kept = without_repeats(moves);
    if moves.len() > 0 {
        let shorter = moves.drop_last();
        let before = without_repeats(shorter);
        if k < before.len() {
            lemma_without_repeats_kept(shorter, k);
            assert(kept[k] == before[k]);
            let at = choose|at: int| 0 <= at < shorter.len() && shorter[at] == before[k];
            assert(moves[at] == kept[k]);
        } else {
            assert(kept[k] == moves[moves.len() - 1]);
        }
    }
}

/// Every move of the sequence is among those kept without repeats.
pub proof fn lemma_without_repeats_covers<G>(moves: Seq<Vec<G>>, i: int)
    requires
        0 <= i < moves.len(),
    ensures
        has_move(without_repeats(moves), moves[i]@),
    decreases moves.len(),
{
    let kept = without_repeats(moves);
    let shorter = moves.drop_last();
    let before = without_repeats(shorter);
    lemma_without_repeats_last(moves);
    if i < shorter.len() {
        lemma_without_repeats_covers(shorter, i);
        assert(shorter[i] == moves[i]);
        let k = choose|k: int| 0 <= k < before.len() && (#[trigger] before[k])@ == shorter[i]@;
        assert(kept[k] == before[k]);
    } else {
        assert(kept[kept.len() - 1]@ == moves[i]@);
    }
}

/// No move kept without repeats repeats the one kept before it.
pub proof fn lemma_without_repeats_differ<G>(moves: Seq<Vec<G>>, k: int)
    requires
        0 <= k < without_repeats(moves).len() - 1,
    ensures
        without_repeats(moves)[k]@ != without_repeats(moves)[k + 1]@,
    decreases moves.len(),
{
    let kept = without_repeats(moves);
    if moves.len() > 0 {
        let shorter = moves.drop_last();
        let before = without_repeats(shorter);
        lemma_without_repeats_last(shorter);
        if k < before.len() - 1 {
            lemma_without_repeats_differ(shorter, k);
            assert(kept[k] == before[k]);
            assert(kept[k + 1] == before[k + 1]);
        } else {
            assert(shorter.last() == moves[moves.len() - 2]);
            assert(kept[k] == before.last());
            assert(kept[k + 1] == moves.last());
        }
    }
}

/// What is kept without repeats of moves in the order of their keys is in
/// the order of the keys.
pub proof fn lemma_without_repeats_ordered<G: Position>(moves: Seq<Vec<G>>)
    requires
        ordered_by_key(moves),
    ensures
        ordered_by_key(without_repeats(moves)),
    decreases moves.len(),
{
    let kept = without_repeats(moves);
    if moves.len() > 0 {
        let shorter = moves.drop_last();
        let before = without_repeats(shorter);
        lemma_shorter_is_ordered(moves);
        lemma_without_repeats_ordered(shorter);
        assert forall|i: int, j: int| 0 <= i < j < kept.len() implies lex_le(
            key_of(kept[i]@),
            key_of(kept[j]@),
        ) by {
            assert(kept[i] == before[i]);
            if j < before.len() {
                assert(kept[j] == before[j]);
            } else {
                lemma_without_repeats_kept(shorter, i);
                let at = choose|at: int| 0 <= at < shorter.len() && shorter[at] == before[i];
                assert(moves[at] == kept[i]);
                assert(kept[j] == moves[moves.len() - 1]);
            }
        }
    }
}

/// Moves in the order of their keys stay so without the last of them.
pub proof fn lemma_shorter_is_ordered<G: Position>(moves: Seq<Vec<G>>)
    requires
        moves.len() > 0,
        ordered_by_key(moves),
    ensures
        ordered_by_key(moves.drop_last()),
{
    let shorter = moves.drop_last();
    assert forall|i: int, j: int| 0 <= i < j < shorter.len() implies lex_le(
        key_of(shorter[i]@),
        key_of(shorter[j]@),
    ) by {
        assert(shorter[i] == moves[i] && shorter[j] == moves[j]);
    }
}

/// Among moves in the order of their keys, equal moves stand next to each
/// other; so what is kept without repeats holds no move twice.
pub proof fn lemma_without_repeats_distinct<G: Position>(moves: Seq<Vec<G>>)
    requires
        ordered_by_key(moves),
    ensures
        distinct(without_repeats(moves)),
    decreases moves.len(),
{
    let kept = without_repeats(moves);
    if moves.len() > 0 {
        let shorter = moves.drop_last();
        let before = without_repeats(shorter);
        let last = moves.len() - 1;
        lemma_shorter_is_ordered(moves);
        lemma_without_repeats_distinct(shorter);
        assert forall|i: int, j: int| 0 <= i < j < kept.len() implies kept[i]@ != kept[j]@ by {
            assert(kept[i] == before[i]);
            if j < before.len() {
                assert(kept[j] == before[j]);
            } else {
                lemma_without_repeats_kept(shorter, i);
                let at = choose|at: int| 0 <= at < shorter.len() && shorter[at] == before[i];
                assert(moves[at] == kept[i]);
                assert(kept[j] == moves[last]);
                assert(moves[last]@ != moves[last - 1]@);
                if moves[at]@ == moves[last]@ {
                    if at < last - 1 {
                        assert(lex_le(key_of(moves[at]@), key_of(moves[last - 1]@)));
                        assert(lex_le(key_of(moves[last - 1]@), key_of(moves[last]@)));
                        lemma_lex_le_both(key_of(moves[at]@), key_of(moves[last - 1]@));
                        lemma_key_identifies(moves[at]@, moves[last - 1]@);
                    }
                }
            }
        }
    }
}

/// What is kept without repeats are moves of the sequence; every move of
/// the sequence is among them; no kept move repeats the one before it; the
/// order of the keys is kept, and in that order no move is kept twice.
pub proof fn lemma_without_repeats<G: Position>(moves: Seq<Vec<G>>)
    ensures
        without_repeats(moves).len() <= moves.len(),
        forall|k: int|
            0 <= k < without_repeats(moves).len() ==> moves.contains(#[trigger] without_repeats(moves)[k]),
        forall|i: int| 0 <= i < moves.len() ==> has_move(without_repeats(moves), #[trigger] moves[i]@),
        forall|k: int|
            0 <= k < without_repeats(moves).len() - 1 ==> (#[trigger] without_repeats(moves)[k])@
                != without_repeats(moves)[k + 1]@,
        ordered_by_key(moves) ==> ordered_by_key(without_repeats(moves)) && distinct(
            without_repeats(moves),
        ),
{
    let kept = without_repeats(moves);
    lemma_without_repeats_last(moves);
    assert forall|k: int| 0 <= k < kept.len() implies moves.contains(#[trigger] kept[k]) by {
        lemma_without_repeats_kept(moves, k);
    }
    assert forall|i: int| 0 <= i < moves.len() implies has_move(kept, #[trigger] moves[i]@) by {
        lemma_without_repeats_covers(moves, i);
    }
    assert forall|k: int| 0 <= k < kept.len() - 1 implies (#[trigger] kept[k])@ != kept[k + 1]@ by {
        lemma_without_repeats_differ(moves, k);
    }
    if ordered_by_key(moves) {
        lemma_without_repeats_ordered(moves);
        lemma_without_repeats_distinct(moves);
    }
}

/// Drops every move that repeats the move just before it.
///
/// What is kept are moves of the vector, in their order; every move of the
/// vector is among them; and no kept move repeats the one before it. Of moves
/// in the order of their keys, where equal moves stand together, no move is
/// kept twice.
pub fn drop_repeats<G: Impartial>(moves: &mut Vec<Vec<G>>)
    ensures
        final(moves)@ == without_repeats(old(moves)@),
        final(moves)@.len() <= old(moves)@.len(),
        forall|k: int| 0 <= k < final(moves)@.len() ==> old(moves)@.contains(#[trigger] final(moves)@[k]),
        forall|i: int| 0 <= i < old(moves)@.len() ==> has_move(final(moves)@, #[trigger] old(moves)@[i]@),
        forall|k: int|
            0 <= k < final(moves)@.len() - 1 ==> (#[trigger] final(moves)@[k])@ != final(moves)@[k + 1]@,
        ordered_by_key(old(moves)@) ==> ordered_by_key(final(moves)@) && distinct(final(moves)@),
{
    let len = moves.len();
    let ghost input = moves@;
    if len == 0 {
        proof {
            lemma_without_repeats(input);
        }
        return ;
    }
    let mut read: usize = 1;
    let mut write: usize = 1;
    proof {
        lemma_without_repeats_grows(input, 0);
        assert(moves@.take(1) =~= Seq::<Vec<G>>::empty().push(input[0]));
    }
    while read < len
        invariant
            1 <= write <= read <= len,
            len == input.len(),
            moves@.len() == len,
            moves@.take(write as int) == without_repeats(input.take(read as int)),
            forall|i: int| read <= i < len ==> moves@[i] == input[i],
        decreases len - read,
    {
        let ghost before = moves@;
        let ghost kept = write as int;
        let ghost seen = read as int;
        proof {
            lemma_without_repeats_last(input.take(seen));
            assert(input.take(seen).last() == input[seen - 1]);
            assert(before.take(kept).last() == before[kept - 1]);
        }
        let repeat = same_parts(&moves[read], &moves[write - 1]);
        if !repeat {
            swap_elements(moves, read, write);
            write = write + 1;
        }
        read = read + 1;
        proof {
            lemma_without_repeats_grows(input, seen);
            if repeat {
                assert(moves@.take(write as int) =~= before.take(kept));
            } else {
                assert(moves@.take(write as int) =~= before.take(kept).push(input[seen]));
            }
        }
    }
    let ghost full = moves@;
    moves.truncate(write);
    proof {
        assert(input.take(read as int) =~= input);
        assert(moves@ =~= full.take(write as int));
        lemma_without_repeats(input);
    }
}

/// `p` can stand in for one of the moves `options`.
pub open spec fn stands_for_one<G: Position>(p: Seq<G>, options: Seq<Seq<G>>) -> bool {
    exists|i: int| 0 <= i < options.len() && stands_for(p, #[trigger] options[i])
}

/// One of `moves` can stand in for the move `m`.
pub open spec fn has_stand_in<G: Position>(moves: Seq<Seq<G>>, m: Seq<G>) -> bool {
    exists|k: int| 0 <= k < moves.len() && stands_for(#[trigger] moves[k], m)
}

/// `pending` is the canonical form of `moves`: every move of it is the
/// canonical form of one of `moves`, none is invented; each of `moves` has
/// its canonical form in it, none is lost; it holds no move twice; and it is
/// in the order of the keys.
pub open spec fn canonical_of<G: Position>(pending: Seq<Seq<G>>, moves: Seq<Seq<G>>) -> bool {
    &&& forall|k: int| 0 <= k < pending.len() ==> stands_for_one(#[trigger] pending[k], moves)
    &&& forall|i: int| 0 <= i < moves.len() ==> has_stand_in(pending, #[trigger] moves[i])
    &&& forall|i: int, j: int| 0 <= i < j < pending.len() ==> pending[i] != pending[j]
    &&& forall|i: int, j: int|
        0 <= i < j < pending.len() ==> lex_le(key_of(pending[i]), key_of(pending[j]))
}

/// Brings the moves of a position into canonical form: each move with its
/// parts in canonical form, the moves in the order of their keys, and no
/// move twice.
///
/// Every move that comes out is the canonical form of a move that went in,
/// and every move that went in has its canonical form among those that come
/// out.
pub fn canonical_moves<G: Impartial>(moves: Vec<Vec<G>>) -> (out: Vec<Vec<G>>)
    ensures
        out@.len() <= moves@.len(),
        canonical_of(move_list(out@), move_list(moves@)),
{
    let ghost input = move_list(moves@);
    let mut out = moves;
    let len = out.len();
    let mut i: usize = 0;
    while i < len
        invariant
            i <= len,
            out@.len() == len,
            input.len() == len,
            forall|k: int| i <= k < len ==> (#[trigger] out@[k])@ == input[k],
            forall|k: int| 0 <= k < i ==> stands_for((#[trigger] out@[k])@, input[k]),
        decreases len - i,
    {
        remove_pairs(&mut out[i]);
        i = i + 1;
    }
    let ghost cancelled = out@;
    sort_moves(&mut out);
    let ghost sorted = out@;
    drop_repeats(&mut out);
    proof {
        broadcast use vstd::seq_lib::group_to_multiset_ensures;

        cancelled.to_multiset_ensures();
        sorted.to_multiset_ensures();
        let pending = move_list(out@);
        assert forall|k: int| 0 <= k < pending.len() implies stands_for_one(
            #[trigger] pending[k],
            input,
        ) by {
            assert(sorted.contains(out@[k]));
            assert(sorted.to_multiset().count(out@[k]) > 0);
            assert(cancelled.contains(out@[k]));
            let j = choose|j: int| 0 <= j < cancelled.len() && cancelled[j] == out@[k];
            assert(stands_for(cancelled[j]@, input[j]));
        }
        assert forall|i: int| 0 <= i < input.len() implies has_stand_in(pending, #[trigger] input[i]) by {
            assert(stands_for(cancelled[i]@, input[i]));
            assert(cancelled.to_multiset().count(cancelled[i]) > 0);
            assert(sorted.contains(cancelled[i]));
            let j = choose|j: int| 0 <= j < sorted.len() && sorted[j] == cancelled[i];
            assert(has_move(out@, sorted[j]@));
            let k = choose|k: int| 0 <= k < out@.len() && (#[trigger] out@[k])@ == sorted[j]@;
            assert(stands_for(pending[k], input[i]));
        }
        assert forall|i: int, j: int| 0 <= i < j < pending.len() implies pending[i] != pending[j]
            && lex_le(key_of(pending[i]), key_of(pending[j])) by {
            assert(out@[i]@ != out@[j]@);
            assert(lex_le(key_of(out@[i]@), key_of(out@[j]@)));
        }
    }
    out
}

} // verus!
