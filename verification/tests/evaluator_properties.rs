use evaluator::kayles::Kayles;
use evaluator::Evaluator;
use evaluator::Outcome;
use std::sync::atomic::Ordering;

fn row(n: usize) -> Kayles {
    Kayles { kayles: n }
}

#[test]
fn fresh_evaluators_agree() {
    let mut first: Evaluator<Kayles> = Evaluator::new();
    let mut second: Evaluator<Kayles> = Evaluator::new();
    for n in [0usize, 1, 5, 11, 28, 40] {
        assert_eq!(first.get_nimber(&row(n)), second.get_nimber(&row(n)));
    }
    assert_eq!(first.get_nimber(&row(28)), Some(5));
}

#[test]
fn warmed_cache_gives_the_fresh_answer() {
    let mut warmed: Evaluator<Kayles> = Evaluator::new();
    assert_eq!(warmed.get_nimber(&row(33)), Some(8));
    assert_eq!(warmed.get_nimber(&row(17)), Some(4));
    let mut fresh: Evaluator<Kayles> = Evaluator::new();
    assert_eq!(fresh.get_nimber(&row(22)), Some(6));
    assert_eq!(warmed.get_nimber(&row(22)), Some(6));
    // asked again, the settled answer comes back
    assert_eq!(warmed.get_nimber(&row(22)), Some(6));
}

#[test]
fn bounded_answer_is_within_the_bound_or_none() {
    let mut eval: Evaluator<Kayles> = Evaluator::new();
    // the row of 5 has the nimber 4
    assert_eq!(eval.get_bounded_nimber(&row(5), 2), None);
    assert!(!eval.was_interrupted());
    assert_eq!(eval.get_bounded_nimber(&row(5), 3), None);
    assert!(!eval.was_interrupted());
    assert_eq!(eval.get_bounded_nimber(&row(5), 4), Some(4));
    assert_eq!(eval.get_nimber(&row(5)), Some(4));
    let mut other: Evaluator<Kayles> = Evaluator::new();
    assert_eq!(other.get_bounded_nimber(&row(5), 100), Some(4));
}

#[test]
fn settled_nimber_is_answered_whatever_the_bound() {
    let mut eval: Evaluator<Kayles> = Evaluator::new();
    assert_eq!(eval.get_nimber(&row(5)), Some(4));
    assert_eq!(eval.get_bounded_nimber(&row(5), 2), Some(4));
    assert_eq!(eval.get_bounded_nimber(&row(5), 0), Some(4));
}

#[test]
fn bounded_search_keeps_its_progress() {
    let mut eval: Evaluator<Kayles> = Evaluator::new();
    assert_eq!(eval.get_bounded_nimber(&row(27), 3), None);
    assert!(!eval.was_interrupted());
    assert_eq!(eval.get_bounded_nimber(&row(27), 7), None);
    assert_eq!(eval.get_bounded_nimber(&row(27), 8), Some(8));
}

#[test]
fn sum_of_three_rows_is_the_xor() {
    let mut eval: Evaluator<Kayles> = Evaluator::new();
    let parts = [row(3), row(5), row(7)];
    let total = eval.get_nimber_by_parts(&parts).unwrap();
    let three = eval.get_nimber(&row(3)).unwrap();
    let five = eval.get_nimber(&row(5)).unwrap();
    let seven = eval.get_nimber(&row(7)).unwrap();
    assert_eq!(three, 3);
    assert_eq!(five, 4);
    assert_eq!(seven, 2);
    assert_eq!(total, three ^ five ^ seven);
    assert_eq!(total, 5);
}

#[test]
fn sum_on_a_fresh_cache_is_the_xor() {
    let mut eval: Evaluator<Kayles> = Evaluator::new();
    assert_eq!(eval.get_nimber_by_parts(&[row(11), row(15)]), Some(6 ^ 7));
    assert_eq!(eval.get_nimber_by_parts(&[row(9)]), Some(4));
}

#[test]
fn equal_pair_cancels_in_a_sum() {
    let mut eval: Evaluator<Kayles> = Evaluator::new();
    let with_pair = eval.get_nimber_by_parts(&[row(4), row(4), row(6)]);
    let without = eval.get_nimber_by_parts(&[row(6)]);
    assert_eq!(with_pair, without);
    assert_eq!(with_pair, Some(3));
    assert_eq!(eval.get_nimber_by_parts(&[row(9), row(9)]), Some(0));
}

#[test]
fn empty_sum_is_zero() {
    let mut eval: Evaluator<Kayles> = Evaluator::new();
    assert_eq!(eval.get_nimber_by_parts(&[]), Some(0));
    assert_eq!(eval.get_bounded_nimber_by_parts(&[], 0), Some(0));
    assert_eq!(eval.get_cache_size(), 0);
}

#[test]
fn empty_sum_is_zero_even_when_stopped() {
    let mut eval: Evaluator<Kayles> = Evaluator::new();
    eval.stop();
    assert_eq!(eval.get_nimber_by_parts(&[]), Some(0));
    assert!(!eval.was_interrupted());
}

#[test]
fn terminal_row_is_zero() {
    let mut eval: Evaluator<Kayles> = Evaluator::new();
    assert_eq!(eval.get_nimber(&row(0)), Some(0));
    assert_eq!(eval.get_bounded_nimber(&row(0), 0), Some(0));
}

#[test]
fn small_rows() {
    let mut eval: Evaluator<Kayles> = Evaluator::new();
    assert_eq!(eval.get_nimber(&row(1)), Some(1));
    let mut eval: Evaluator<Kayles> = Evaluator::new();
    assert_eq!(eval.get_nimber(&row(2)), Some(2));
    let mut eval: Evaluator<Kayles> = Evaluator::new();
    assert_eq!(eval.get_nimber(&row(3)), Some(3));
    let mut eval: Evaluator<Kayles> = Evaluator::new();
    assert_eq!(eval.get_nimber(&row(4)), Some(1));
}

#[test]
fn first_half_of_the_table() {
    let nimbers: Vec<usize> = vec![
        0, 1, 2, 3, 1, 4, 3, 2, 1, 4, 2, 6, 4, 1, 2, 7, 1, 4, 3, 2, 1, 4, 6, 7, 4, 1, 2, 8, 5, 4,
        7, 2, 1, 8, 6, 7, 4, 1, 2, 3, 1, 4, 7, 2, 1, 8, 2, 7, 4, 1, 2, 8, 1,
    ];
    let mut eval: Evaluator<Kayles> = Evaluator::new();
    for (n, expected) in nimbers.iter().enumerate() {
        assert_eq!(eval.get_nimber(&row(n)), Some(*expected));
    }
}

#[test]
fn bounded_sum_adjusts_the_bound_of_the_last_part() {
    // the rows of 5 and 28 have the nimbers 4 and 5
    let mut eval: Evaluator<Kayles> = Evaluator::new();
    let parts = [row(5), row(28)];
    // 5 is beyond 4 | 4, so the search gives up, although the sum comes to 1
    assert_eq!(eval.get_bounded_nimber_by_parts(&parts, 4), None);
    assert!(!eval.was_interrupted());
    // 5 is within 1 | 4
    assert_eq!(eval.get_bounded_nimber_by_parts(&parts, 1), Some(1));
    // and once the last part is settled, the sum is answered under any bound
    assert_eq!(eval.get_bounded_nimber_by_parts(&parts, 4), Some(1));
    assert_eq!(eval.get_bounded_nimber_by_parts(&parts, 0), Some(1));
}

#[test]
fn bounded_sum_of_one_part_is_the_bounded_part() {
    let mut by_parts: Evaluator<Kayles> = Evaluator::new();
    let mut single: Evaluator<Kayles> = Evaluator::new();
    for bound in [0usize, 3, 5, 6, 9] {
        assert_eq!(
            by_parts.get_bounded_nimber_by_parts(&[row(11)], bound),
            single.get_bounded_nimber(&row(11), bound)
        );
    }
    assert_eq!(single.get_nimber(&row(11)), Some(6));
}

#[test]
fn stop_interrupts_and_resume_continues() {
    let mut eval: Evaluator<Kayles> = Evaluator::new();
    eval.stop();
    assert_eq!(eval.get_nimber(&row(60)), None);
    assert!(eval.was_interrupted());
    assert_eq!(eval.get_nimber_by_parts(&[row(3), row(60)]), None);
    assert!(eval.was_interrupted());
    eval.resume();
    assert_eq!(eval.get_nimber(&row(60)), Some(4));
    assert!(!eval.was_interrupted());
    let mut fresh: Evaluator<Kayles> = Evaluator::new();
    assert_eq!(fresh.get_nimber(&row(60)), Some(4));
}

#[test]
fn settled_nimber_is_answered_even_when_stopped() {
    let mut eval: Evaluator<Kayles> = Evaluator::new();
    assert_eq!(eval.get_nimber(&row(12)), Some(4));
    eval.stop();
    assert_eq!(eval.get_nimber(&row(12)), Some(4));
    assert!(!eval.was_interrupted());
    assert_eq!(eval.get_nimber(&row(13)), None);
    assert!(eval.was_interrupted());
}

#[test]
fn cancel_flag_handle_stops_the_search() {
    let mut eval: Evaluator<Kayles> = Evaluator::new();
    let handle = eval.cancel_flag.clone();
    handle.store(true, Ordering::Relaxed);
    assert_eq!(eval.get_nimber(&row(30)), None);
    handle.store(false, Ordering::Relaxed);
    assert_eq!(eval.get_nimber(&row(30)), Some(7));
}

#[test]
fn cache_counts_follow_the_stages() {
    let mut eval: Evaluator<Kayles> = Evaluator::new();
    assert_eq!(eval.get_cache_size(), 0);
    assert_eq!(eval.get_cache_stats(), (0, 0, 0));
    assert_eq!(eval.get_nimbers(), vec![]);

    assert_eq!(eval.get_nimber(&row(0)), Some(0));
    assert_eq!(eval.get_cache_size(), 1);
    assert_eq!(eval.get_cache_stats(), (0, 0, 1));
    assert_eq!(eval.get_nimbers(), vec![(row(0), 0)]);

    eval.stop();
    assert_eq!(eval.get_nimber(&row(3)), None);
    assert_eq!(eval.get_cache_size(), 2);
    assert_eq!(eval.get_cache_stats(), (0, 1, 1));
    assert_eq!(eval.get_nimbers(), vec![(row(0), 0)]);

    eval.resume();
    assert_eq!(eval.get_nimber(&row(3)), Some(3));
    let (stubs, processing, done) = eval.get_cache_stats();
    assert_eq!(stubs + processing + done, eval.get_cache_size());
    assert_eq!(eval.get_cache_size(), 4);
    let nimbers = eval.get_nimbers();
    assert_eq!(nimbers.len(), done);
    assert!(nimbers.contains(&(row(3), 3)));
    assert!(nimbers.contains(&(row(0), 0)));
    for (game, nimber) in nimbers {
        let mut fresh: Evaluator<Kayles> = Evaluator::new();
        assert_eq!(fresh.get_nimber(&game), Some(nimber));
    }
}

#[test]
fn each_position_has_one_record() {
    let mut eval: Evaluator<Kayles> = Evaluator::new();
    assert_eq!(eval.get_nimber(&row(20)), Some(1));
    let size = eval.get_cache_size();
    assert!(size <= 21);
    assert_eq!(eval.get_nimber(&row(20)), Some(1));
    assert_eq!(eval.get_nimber(&row(7)), Some(2));
    assert_eq!(eval.get_cache_size(), size);
}

#[test]
fn default_is_an_empty_evaluator() {
    let mut eval: Evaluator<Kayles> = Evaluator::default();
    assert_eq!(eval.get_cache_size(), 0);
    assert_eq!(eval.get_nimber(&row(6)), Some(3));
}

#[test]
fn search_without_a_stop_always_answers() {
    let mut eval: Evaluator<Kayles> = Evaluator::new();
    // the cancel flag is not looked at
    eval.stop();
    assert_eq!(eval.search(&row(9), usize::MAX, Some(false)), Outcome::Found(4));
    assert_eq!(eval.search(&row(11), 5, Some(false)), Outcome::Beyond);
    assert_eq!(eval.search(&row(11), 6, Some(false)), Outcome::Found(6));
    assert_eq!(eval.search(&row(11), 0, Some(false)), Outcome::Found(6));
    assert!(!eval.was_interrupted());
}

#[test]
fn search_with_a_stop_finds_only_what_is_settled() {
    let mut eval: Evaluator<Kayles> = Evaluator::new();
    assert_eq!(eval.search(&row(9), usize::MAX, Some(true)), Outcome::Stopped);
    assert_eq!(eval.get_nimbers(), vec![]);
    assert_eq!(eval.get_cache_stats(), (0, 1, 0));
    assert_eq!(eval.search(&row(9), usize::MAX, Some(false)), Outcome::Found(4));
    assert_eq!(eval.search(&row(9), 0, Some(true)), Outcome::Found(4));
    let settled = eval.get_nimbers();
    assert_eq!(eval.search(&row(40), 100, Some(true)), Outcome::Stopped);
    assert_eq!(eval.get_nimbers(), settled);
}

#[test]
fn search_reads_the_flag_when_nothing_is_given() {
    let mut eval: Evaluator<Kayles> = Evaluator::new();
    eval.stop();
    assert_eq!(eval.search(&row(9), usize::MAX, None), Outcome::Stopped);
    assert_eq!(eval.search_by_parts(&[row(2), row(9)], usize::MAX, None), Outcome::Stopped);
    eval.resume();
    assert_eq!(eval.search(&row(9), usize::MAX, None), Outcome::Found(4));
    assert_eq!(eval.search_by_parts(&[row(2), row(9)], usize::MAX, None), Outcome::Found(6));
}

#[test]
fn search_by_parts_under_each_request() {
    let mut eval: Evaluator<Kayles> = Evaluator::new();
    let parts = [row(5), row(28)];
    assert_eq!(eval.search_by_parts(&[], 0, Some(true)), Outcome::Found(0));
    assert_eq!(eval.search_by_parts(&parts, 4, Some(true)), Outcome::Stopped);
    assert_eq!(eval.search_by_parts(&parts, 4, Some(false)), Outcome::Beyond);
    assert_eq!(eval.search_by_parts(&parts, 1, Some(false)), Outcome::Found(1));
    assert_eq!(eval.search_by_parts(&parts, 4, Some(true)), Outcome::Found(1));
    assert_eq!(eval.search_by_parts(&[row(5), row(29)], 4, Some(true)), Outcome::Stopped);
}

#[test]
fn interrupted_search_loses_no_move() {
    // interrupt the search at every record it makes, and take it up again
    let mut eval: Evaluator<Kayles> = Evaluator::new();
    let handle = eval.cancel_flag.clone();
    let mut rounds = 0;
    let answer = loop {
        handle.store(rounds % 2 == 0, Ordering::Relaxed);
        match eval.get_nimber(&row(45)) {
            Some(nimber) => break nimber,
            None => {
                assert!(eval.was_interrupted());
                rounds += 1;
            }
        }
    };
    assert_eq!(answer, 8);
    assert!(rounds >= 1);
}

#[test]
fn answered_sum_leaves_every_part_settled() {
    let mut eval: Evaluator<Kayles> = Evaluator::new();
    assert_eq!(eval.get_nimber_by_parts(&[row(3), row(5), row(7)]), Some(5));
    let settled = eval.get_nimbers();
    assert!(settled.contains(&(row(3), 3)));
    assert!(settled.contains(&(row(5), 4)));
    assert!(settled.contains(&(row(7), 2)));
}

#[test]
fn settled_position_is_answered_without_touching_the_cache() {
    let mut eval: Evaluator<Kayles> = Evaluator::new();
    assert_eq!(eval.get_bounded_nimber(&row(9), 2), None);
    assert_eq!(eval.get_nimber(&row(6)), Some(3));
    let size = eval.get_cache_size();
    let stats = eval.get_cache_stats();
    let settled = eval.get_nimbers();
    assert_eq!(eval.get_nimber(&row(6)), Some(3));
    assert_eq!(eval.get_bounded_nimber(&row(6), 0), Some(3));
    assert_eq!(eval.search(&row(6), 0, Some(true)), Outcome::Found(3));
    assert_eq!(eval.get_nimber_by_parts(&[]), Some(0));
    assert_eq!(eval.get_cache_size(), size);
    assert_eq!(eval.get_cache_stats(), stats);
    assert_eq!(eval.get_nimbers(), settled);
}

#[test]
fn no_stub_is_left_behind() {
    let mut eval: Evaluator<Kayles> = Evaluator::new();
    assert_eq!(eval.get_bounded_nimber(&row(30), 3), None);
    assert_eq!(eval.get_cache_stats().0, 0);
    eval.stop();
    assert_eq!(eval.get_nimber(&row(40)), None);
    assert_eq!(eval.get_cache_stats().0, 0);
    eval.resume();
    assert_eq!(eval.get_nimber_by_parts(&[row(12), row(40)]), Some(4 ^ 1));
    assert_eq!(eval.get_cache_stats().0, 0);
    // every record is of a row no longer than the longest asked for
    for (game, _) in eval.get_nimbers() {
        assert!(game.kayles <= 40);
    }
    assert!(eval.get_cache_size() <= 41);
}

#[test]
fn row_of_two_leaves_three_settled_records() {
    let mut eval: Evaluator<Kayles> = Evaluator::new();
    assert_eq!(eval.get_nimber(&row(2)), Some(2));
    assert_eq!(eval.get_cache_stats(), (0, 0, 3));
    assert_eq!(eval.get_cache_size(), 3);
}

#[test]
fn search_given_up_leaves_the_position_in_process() {
    let mut eval: Evaluator<Kayles> = Evaluator::new();
    assert_eq!(eval.search(&row(3), 1, Some(false)), Outcome::Beyond);
    let (stubs, processing, _) = eval.get_cache_stats();
    assert_eq!(stubs, 0);
    assert!(processing >= 1);
    assert!(!eval.get_nimbers().contains(&(row(3), 3)));
    assert_eq!(eval.search(&row(3), 3, Some(false)), Outcome::Found(3));
}
