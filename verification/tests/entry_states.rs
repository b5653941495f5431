use evaluator::entry::Entry;
use evaluator::entry::EntryData;
use evaluator::entry::ProcessingData;
use evaluator::kayles::Kayles;

fn row(n: usize) -> Kayles {
    Kayles { kayles: n }
}

fn processing(moves: Vec<Vec<Kayles>>, max_nimber: Option<usize>) -> Entry<Kayles> {
    Entry {
        data: EntryData::Processing {
            data: ProcessingData::new(moves),
        },
        max_nimber,
    }
}

#[test]
fn new_entry_is_a_stub() {
    let mut entry: Entry<Kayles> = Entry::new(Some(3));
    assert!(entry.is_stub());
    assert_eq!(entry.max_nimber, Some(3));
    assert_eq!(entry.get_nimber(), None);
    assert_eq!(entry.get_smallest_possible_nimber(), None);
    assert_eq!(entry.pop_unprocessed_move(), None);
    entry.mark_impossible(0);
    entry.append_unprocessed_moves(vec![vec![row(1)]]);
    assert!(entry.is_stub());
    assert_eq!(entry.get_smallest_possible_nimber(), None);
    assert_eq!(entry.pop_unprocessed_move(), None);
}

#[test]
fn done_entry_keeps_its_nimber() {
    let mut entry: Entry<Kayles> = Entry {
        data: EntryData::Done { nimber: 6 },
        max_nimber: None,
    };
    assert!(!entry.is_stub());
    assert_eq!(entry.get_nimber(), Some(6));
    assert_eq!(entry.get_smallest_possible_nimber(), None);
    entry.mark_impossible(6);
    entry.append_unprocessed_moves(vec![vec![row(1)]]);
    assert_eq!(entry.pop_unprocessed_move(), None);
    assert_eq!(entry.get_nimber(), Some(6));
}

#[test]
fn smallest_possible_nimber_is_the_least_not_ruled_out() {
    let mut data: ProcessingData<Kayles> = ProcessingData::new(vec![]);
    assert_eq!(data.get_smallest_possible_nimber(), 0);
    data.mark_impossible(1);
    assert_eq!(data.get_smallest_possible_nimber(), 0);
    data.mark_impossible(0);
    assert_eq!(data.get_smallest_possible_nimber(), 2);
    data.mark_impossible(3);
    assert_eq!(data.get_smallest_possible_nimber(), 2);
    data.mark_impossible(7);
    data.mark_impossible(2);
    assert_eq!(data.get_smallest_possible_nimber(), 4);
    data.mark_impossible(4);
    data.mark_impossible(5);
    data.mark_impossible(6);
    assert_eq!(data.get_smallest_possible_nimber(), 8);
}

#[test]
fn ruling_out_twice_changes_nothing() {
    let mut data: ProcessingData<Kayles> = ProcessingData::new(vec![]);
    data.mark_impossible(0);
    data.mark_impossible(0);
    data.mark_impossible(1);
    data.mark_impossible(0);
    assert_eq!(data.get_smallest_possible_nimber(), 2);
}

#[test]
fn ruling_out_in_falling_order() {
    let mut data: ProcessingData<Kayles> = ProcessingData::new(vec![]);
    for n in (0..50usize).rev() {
        assert_eq!(data.get_smallest_possible_nimber(), 0);
        data.mark_impossible(n);
    }
    assert_eq!(data.get_smallest_possible_nimber(), 50);
}

#[test]
fn pending_moves_are_a_stack() {
    let mut data: ProcessingData<Kayles> =
        ProcessingData::new(vec![vec![row(1)], vec![row(2)], vec![row(3), row(4)]]);
    assert_eq!(data.pop_unprocessed_move(), Some(vec![row(3), row(4)]));
    assert_eq!(data.pop_unprocessed_move(), Some(vec![row(2)]));
    data.append_unprocessed_moves(vec![vec![row(5)], vec![row(6)]]);
    assert_eq!(data.pop_unprocessed_move(), Some(vec![row(6)]));
    assert_eq!(data.pop_unprocessed_move(), Some(vec![row(5)]));
    assert_eq!(data.pop_unprocessed_move(), Some(vec![row(1)]));
    assert_eq!(data.pop_unprocessed_move(), None);
    data.append_unprocessed_moves(vec![]);
    assert_eq!(data.pop_unprocessed_move(), None);
}

#[test]
fn processing_entry_hands_its_state_through() {
    let mut entry = processing(vec![vec![row(1)], vec![]], Some(2));
    assert!(!entry.is_stub());
    assert_eq!(entry.get_nimber(), None);
    assert_eq!(entry.max_nimber, Some(2));
    assert_eq!(entry.get_smallest_possible_nimber(), Some(0));
    entry.mark_impossible(0);
    assert_eq!(entry.get_smallest_possible_nimber(), Some(1));
    assert_eq!(entry.pop_unprocessed_move(), Some(Some(vec![])));
    assert_eq!(entry.pop_unprocessed_move(), Some(Some(vec![row(1)])));
    assert_eq!(entry.pop_unprocessed_move(), Some(None));
    entry.append_unprocessed_moves(vec![vec![row(2)]]);
    assert_eq!(entry.pop_unprocessed_move(), Some(Some(vec![row(2)])));
    assert_eq!(entry.get_smallest_possible_nimber(), Some(1));
}
