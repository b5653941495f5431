use evaluator::canon::canonical_moves;
use evaluator::canon::drop_repeats;
use evaluator::canon::move_key;
use evaluator::canon::same_parts;
use evaluator::kayles::Kayles;
use evaluator::remove_pairs;

fn row(n: usize) -> Kayles {
    Kayles { kayles: n }
}

fn rows(lengths: &[usize]) -> Vec<Kayles> {
    lengths.iter().map(|n| row(*n)).collect()
}

#[test]
fn remove_pairs_sorts_what_is_left() {
    let mut parts = rows(&[5, 1, 3]);
    remove_pairs(&mut parts);
    assert_eq!(parts, rows(&[1, 3, 5]));
}

#[test]
fn remove_pairs_cancels_equal_parts_that_stand_apart() {
    let mut parts = rows(&[3, 1, 3]);
    remove_pairs(&mut parts);
    assert_eq!(parts, rows(&[1]));
}

#[test]
fn remove_pairs_keeps_one_of_an_odd_run() {
    let mut parts = rows(&[2, 2, 2]);
    remove_pairs(&mut parts);
    assert_eq!(parts, rows(&[2]));
    let mut parts = rows(&[7, 2, 7, 2, 7, 2, 2, 9, 7]);
    remove_pairs(&mut parts);
    assert_eq!(parts, rows(&[9]));
    let mut parts = rows(&[4, 4, 4, 4, 4]);
    remove_pairs(&mut parts);
    assert_eq!(parts, rows(&[4]));
}

#[test]
fn remove_pairs_of_pairs_leaves_nothing() {
    let mut parts = rows(&[6, 1, 1, 6]);
    remove_pairs(&mut parts);
    assert_eq!(parts, rows(&[]));
}

#[test]
fn remove_pairs_of_little() {
    let mut parts = rows(&[]);
    remove_pairs(&mut parts);
    assert_eq!(parts, rows(&[]));
    let mut parts = rows(&[8]);
    remove_pairs(&mut parts);
    assert_eq!(parts, rows(&[8]));
    let mut parts = rows(&[8, 8]);
    remove_pairs(&mut parts);
    assert_eq!(parts, rows(&[]));
    let mut parts = rows(&[9, 8]);
    remove_pairs(&mut parts);
    assert_eq!(parts, rows(&[8, 9]));
}

#[test]
fn same_parts_compares_in_order() {
    assert!(same_parts(&rows(&[]), &rows(&[])));
    assert!(same_parts(&rows(&[1, 2]), &rows(&[1, 2])));
    assert!(!same_parts(&rows(&[1, 2]), &rows(&[2, 1])));
    assert!(!same_parts(&rows(&[1, 2]), &rows(&[1])));
    assert!(!same_parts(&rows(&[1]), &rows(&[1, 1])));
    assert!(!same_parts(&rows(&[1, 2, 3]), &rows(&[1, 2, 4])));
}

#[test]
fn move_key_lists_the_codes() {
    assert_eq!(move_key(&rows(&[])), Vec::<u64>::new());
    assert_eq!(move_key(&rows(&[5])), vec![5u64]);
    assert_eq!(move_key(&rows(&[5, 9])), vec![5u64, 9]);
    assert_ne!(move_key(&rows(&[1, 2])), move_key(&rows(&[2, 1])));
}

#[test]
fn drop_repeats_keeps_the_first_of_each_run() {
    let mut moves = vec![rows(&[1]), rows(&[1]), rows(&[2]), rows(&[1]), rows(&[1])];
    drop_repeats(&mut moves);
    assert_eq!(moves, vec![rows(&[1]), rows(&[2]), rows(&[1])]);
    let mut moves: Vec<Vec<Kayles>> = vec![];
    drop_repeats(&mut moves);
    assert_eq!(moves, Vec::<Vec<Kayles>>::new());
    let mut moves = vec![rows(&[3, 4])];
    drop_repeats(&mut moves);
    assert_eq!(moves, vec![rows(&[3, 4])]);
    let mut moves = vec![rows(&[]), rows(&[]), rows(&[])];
    drop_repeats(&mut moves);
    assert_eq!(moves, vec![rows(&[])]);
}

#[test]
fn canonical_moves_cancel_sort_and_drop() {
    let moves = vec![
        rows(&[2, 1]),
        rows(&[3, 3]),
        rows(&[1, 2]),
        rows(&[4]),
        rows(&[5, 5, 4]),
        rows(&[]),
    ];
    let out = canonical_moves(moves);
    // what is left: [1, 2] twice, [] twice, [4] twice; each is kept once,
    // in the order of the codes
    assert_eq!(out, vec![rows(&[]), rows(&[1, 2]), rows(&[4])]);
}

#[test]
fn canonical_moves_of_pairs_leave_one_empty_move() {
    let out = canonical_moves(vec![rows(&[7, 7]), rows(&[8, 8])]);
    assert_eq!(out, vec![rows(&[])]);
}

#[test]
fn canonical_moves_of_the_row_of_three() {
    let out = canonical_moves(vec![rows(&[2]), rows(&[1]), rows(&[1, 1])]);
    assert_eq!(out, vec![rows(&[]), rows(&[1]), rows(&[2])]);
}

#[test]
fn canonical_moves_put_a_move_before_those_it_starts() {
    let out = canonical_moves(vec![rows(&[1, 3]), rows(&[2]), rows(&[1]), rows(&[1, 2]), rows(&[1])]);
    assert_eq!(out, vec![rows(&[1]), rows(&[1, 2]), rows(&[1, 3]), rows(&[2])]);
}

#[test]
fn canonical_moves_of_none() {
    let out: Vec<Vec<Kayles>> = canonical_moves(vec![]);
    assert_eq!(out, Vec::<Vec<Kayles>>::new());
}
