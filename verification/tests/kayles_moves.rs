use evaluator::kayles::Kayles;
use evaluator::kayles::MAX_REMOVE;
use evaluator::Impartial;

fn row(n: usize) -> Kayles {
    Kayles { kayles: n }
}

#[test]
fn empty_row_has_no_move() {
    assert_eq!(row(0).get_split_moves(), Vec::<Vec<Kayles>>::new());
}

#[test]
fn row_of_one_can_only_be_cleared() {
    assert_eq!(row(1).get_split_moves(), vec![vec![row(0)]]);
}

#[test]
fn row_of_two_loses_one_or_two() {
    assert_eq!(row(2).get_split_moves(), vec![vec![row(1)], vec![row(0)]]);
}

#[test]
fn row_of_three_can_be_split_once() {
    assert_eq!(
        row(3).get_split_moves(),
        vec![vec![row(2)], vec![row(1)], vec![row(1), row(1)]]
    );
}

#[test]
fn row_of_four_can_be_split_by_either_take() {
    assert_eq!(
        row(4).get_split_moves(),
        vec![
            vec![row(3)],
            vec![row(2)],
            vec![row(1), row(2)],
            vec![row(1), row(1)]
        ]
    );
}

#[test]
fn row_of_five() {
    assert_eq!(
        row(5).get_split_moves(),
        vec![
            vec![row(4)],
            vec![row(3)],
            vec![row(1), row(3)],
            vec![row(2), row(2)],
            vec![row(1), row(2)]
        ]
    );
}

#[test]
fn number_of_moves_of_a_long_row() {
    // 2 takes from the end, 49 splits after taking one pin, 49 after taking two
    let moves = row(100).get_split_moves();
    assert_eq!(moves.len(), 2 + 49 + 49);
    assert_eq!(moves[2], vec![row(1), row(98)]);
    assert_eq!(moves[50], vec![row(49), row(50)]);
    assert_eq!(moves[51], vec![row(1), row(97)]);
    assert_eq!(moves[99], vec![row(49), row(49)]);
    for parts in moves {
        let pins: usize = parts.iter().map(|part| part.kayles).sum();
        assert!(pins == 99 || pins == 98);
    }
}

#[test]
fn a_row_bounds_its_nimber_by_its_length() {
    assert_eq!(row(0).get_max_nimber(), Some(0));
    assert_eq!(row(17).get_max_nimber(), Some(17));
}

#[test]
fn a_row_is_named_by_its_length() {
    assert_eq!(row(0).get_code(), 0);
    assert_eq!(row(300).get_code(), 300);
    assert_eq!(MAX_REMOVE, 2);
}

#[test]
fn clone_of_a_row_is_the_row() {
    assert_eq!(row(9).clone(), row(9));
}
