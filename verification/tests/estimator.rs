use cvm::estimator::Cvm;

fn heads(count: usize) -> Vec<bool> {
    vec![true; count]
}

fn tails(count: usize) -> Vec<bool> {
    vec![false; count]
}

#[test]
fn new_estimator_is_empty_and_estimates_zero() {
    let cvm = Cvm::<u64>::new(10);
    assert_eq!(cvm.capacity(), 10);
    assert_eq!(cvm.rounds(), 0);
    assert_eq!(cvm.len(), 0);
    assert_eq!(cvm.estimate(), 0);
}

#[test]
fn estimate_read_twice_is_the_same() {
    let mut cvm = Cvm::<u64>::new(8);
    for value in 0..100u64 {
        cvm.add(value);
    }
    let first = cvm.estimate();
    let second = cvm.estimate();
    let third = cvm.estimate();
    assert_eq!(first, second);
    assert_eq!(second, third);
}

#[test]
fn distinct_elements_below_capacity_are_counted_exactly() {
    let mut cvm = Cvm::<u64>::new(100);
    for value in 0..99u64 {
        cvm.add(value);
    }
    assert_eq!(cvm.rounds(), 0);
    assert_eq!(cvm.len(), 99);
    assert_eq!(cvm.estimate(), 99);
    for value in 0..99u64 {
        assert!(cvm.contains(&value));
    }
    assert!(!cvm.contains(&99));
}

#[test]
fn the_same_value_many_times_is_held_once() {
    let mut cvm = Cvm::<u64>::new(2);
    for _ in 0..50 {
        cvm.add(7);
    }
    assert_eq!(cvm.len(), 1);
    assert_eq!(cvm.rounds(), 0);
    assert_eq!(cvm.estimate(), 1);
    assert!(cvm.contains(&7));
}

#[test]
fn the_same_value_is_held_once_when_every_coin_retains() {
    for capacity in 0..4usize {
        let mut cvm = Cvm::<u64>::new(capacity);
        for _ in 0..5 {
            cvm.add_with(7, true, &heads(2));
        }
        assert_eq!(cvm.len(), 1);
        assert!(cvm.contains(&7));
    }
}

#[test]
fn record_keeps_or_drops_the_value() {
    let mut cvm = Cvm::<char>::new(10);
    assert!(!cvm.record('a', true));
    assert!(!cvm.record('b', true));
    assert_eq!(cvm.len(), 2);
    assert!(!cvm.record('a', true));
    assert_eq!(cvm.len(), 2);
    assert!(!cvm.record('a', false));
    assert_eq!(cvm.len(), 1);
    assert!(!cvm.contains(&'a'));
    assert!(cvm.contains(&'b'));
    assert!(!cvm.record('z', false));
    assert_eq!(cvm.len(), 1);
    assert_eq!(cvm.rounds(), 0);
}

#[test]
fn record_tells_when_the_sample_is_full() {
    let mut cvm = Cvm::<u64>::new(2);
    assert!(!cvm.record(1, true));
    assert!(cvm.record(2, true));
    assert!(cvm.record(3, true));
    assert_eq!(cvm.len(), 3);
    assert!(cvm.record(3, false));
    assert!(!cvm.record(2, false));
    assert_eq!(cvm.rounds(), 0);
}

#[test]
fn sweep_with_all_heads_keeps_everything() {
    let mut cvm = Cvm::<u64>::new(100);
    for value in 0..10u64 {
        cvm.record(value, true);
    }
    cvm.sweep_with(&heads(10));
    assert_eq!(cvm.len(), 10);
    assert_eq!(cvm.rounds(), 1);
    assert_eq!(cvm.capacity(), 100);
    for value in 0..10u64 {
        assert!(cvm.contains(&value));
    }
}

#[test]
fn sweep_with_all_tails_empties_the_sample() {
    let mut cvm = Cvm::<u64>::new(100);
    for value in 0..10u64 {
        cvm.record(value, true);
    }
    cvm.sweep_with(&tails(10));
    assert_eq!(cvm.len(), 0);
    assert_eq!(cvm.rounds(), 1);
    assert_eq!(cvm.estimate(), 0);
}

#[test]
fn sweep_with_keeps_as_many_as_coins_show_heads() {
    let mut cvm = Cvm::<u64>::new(100);
    for value in 0..6u64 {
        cvm.record(value, true);
    }
    // Only the first six coins meet an element: four of them show heads.
    let coins = vec![true, false, true, true, false, true, true, true];
    cvm.sweep_with(&coins);
    assert_eq!(cvm.len(), 4);
    assert_eq!(cvm.rounds(), 1);
    assert_eq!(cvm.estimate(), 8);
    let mut found = 0;
    for value in 0..6u64 {
        if cvm.contains(&value) {
            found += 1;
        }
    }
    assert_eq!(found, 4);
}

#[test]
fn sweep_removes_but_never_adds() {
    let mut cvm = Cvm::<u64>::new(1000);
    for value in 0..200u64 {
        cvm.record(value, true);
    }
    cvm.sweep();
    assert_eq!(cvm.rounds(), 1);
    assert!(cvm.len() <= 200);
    for value in 200..400u64 {
        assert!(!cvm.contains(&value));
    }
    // Two hundred fair coins that all agree would be a broken source.
    assert!(cvm.len() > 0);
    assert!(cvm.len() < 200);
}

#[test]
fn add_with_sweeps_when_the_sample_fills() {
    let mut cvm = Cvm::<u64>::new(3);
    cvm.add_with(1, true, &heads(1));
    cvm.add_with(2, true, &heads(2));
    assert_eq!(cvm.rounds(), 0);
    assert_eq!(cvm.len(), 2);
    cvm.add_with(3, true, &tails(3));
    assert_eq!(cvm.rounds(), 1);
    assert_eq!(cvm.len(), 0);
    assert!(cvm.len() < cvm.capacity());
}

#[test]
fn add_with_drops_a_value_that_is_not_kept() {
    let mut cvm = Cvm::<u64>::new(3);
    cvm.add_with(1, true, &heads(1));
    cvm.add_with(2, true, &heads(2));
    cvm.add_with(1, false, &heads(3));
    assert_eq!(cvm.len(), 1);
    assert!(cvm.contains(&2));
    assert!(!cvm.contains(&1));
    assert_eq!(cvm.rounds(), 0);
}

#[test]
fn a_sweep_that_removes_nothing_leaves_the_sample_full() {
    let mut cvm = Cvm::<u64>::new(2);
    cvm.add_with(1, true, &heads(1));
    assert!(cvm.len() < cvm.capacity());
    cvm.add_with(2, true, &heads(2));
    assert_eq!(cvm.rounds(), 1);
    assert_eq!(cvm.len(), 2);
    cvm.add_with(3, true, &heads(3));
    assert_eq!(cvm.rounds(), 2);
    assert_eq!(cvm.len(), 3);
}

#[test]
fn estimate_doubles_with_each_round() {
    let mut cvm = Cvm::<u64>::new(3);
    cvm.add_with(1, true, &heads(1));
    cvm.add_with(2, true, &heads(2));
    assert_eq!(cvm.estimate(), 2);
    cvm.add_with(3, true, &heads(3));
    assert_eq!(cvm.rounds(), 1);
    assert_eq!(cvm.estimate(), 6);
    cvm.add_with(3, true, &heads(4));
    assert_eq!(cvm.rounds(), 2);
    assert_eq!(cvm.estimate(), 12);
}

#[test]
fn estimate_stops_doubling_after_thirty_two_rounds() {
    let mut cvm = Cvm::<u64>::new(0);
    for round in 1..=40u32 {
        cvm.add_with(9, true, &heads(2));
        assert_eq!(cvm.rounds(), round);
        assert_eq!(cvm.len(), 1);
        if round == 31 {
            assert_eq!(cvm.estimate(), 2147483648);
        }
        if round >= 32 {
            assert_eq!(cvm.estimate(), 4294967296);
        }
    }
}

#[test]
fn capacity_zero_sweeps_on_every_observation() {
    let mut cvm = Cvm::<u64>::new(0);
    for round in 1..=10u32 {
        cvm.add(u64::from(round));
        assert_eq!(cvm.rounds(), round);
    }
}

#[test]
fn rounds_never_decrease() {
    let mut cvm = Cvm::<u64>::new(16);
    let mut last = cvm.rounds();
    for value in 0..5000u64 {
        cvm.add(value % 700);
        assert!(cvm.rounds() >= last);
        assert!(cvm.rounds() <= last + 1);
        last = cvm.rounds();
    }
    assert!(last > 0);
}

#[test]
fn extend_observes_each_element() {
    let mut cvm = Cvm::<u64>::new(50);
    cvm.extend(&[3, 1, 4, 1, 5, 9, 2, 6, 5, 3, 5]);
    assert_eq!(cvm.len(), 7);
    assert_eq!(cvm.estimate(), 7);
    assert_eq!(cvm.rounds(), 0);
    cvm.extend(&[]);
    assert_eq!(cvm.len(), 7);
}

#[test]
fn extend_past_capacity_keeps_only_observed_elements() {
    let mut cvm = Cvm::<u64>::new(10);
    let items: Vec<u64> = (0..1000).collect();
    cvm.extend(&items);
    assert!(cvm.rounds() > 0);
    assert!(cvm.rounds() <= 1000);
    for value in 1000..1100u64 {
        assert!(!cvm.contains(&value));
    }
}

#[test]
fn no_coin_is_flipped_for_zero_flips() {
    for _ in 0..100 {
        assert!(Cvm::<u64>::should_keep(0));
    }
}

#[test]
fn coins_show_both_sides() {
    let mut kept = 0;
    for _ in 0..2000 {
        if Cvm::<u64>::should_keep(1) {
            kept += 1;
        }
    }
    assert!(kept > 0);
    assert!(kept < 2000);
}

#[test]
fn keeps_only_if_every_coin_asked_for_shows_heads() {
    assert!(Cvm::<u64>::keeps(0, &vec![]));
    assert!(Cvm::<u64>::keeps(0, &vec![false]));
    assert!(Cvm::<u64>::keeps(1, &vec![true]));
    assert!(!Cvm::<u64>::keeps(1, &vec![false]));
    assert!(Cvm::<u64>::keeps(3, &vec![true, true, true]));
    assert!(!Cvm::<u64>::keeps(3, &vec![false, true, true]));
    assert!(!Cvm::<u64>::keeps(3, &vec![true, false, true]));
    assert!(!Cvm::<u64>::keeps(3, &vec![true, true, false]));
}

#[test]
fn keeps_counts_only_the_coins_asked_for() {
    assert!(Cvm::<u64>::keeps(2, &vec![true, true, false]));
    assert!(Cvm::<u64>::keeps(1, &vec![true, false, false]));
    assert!(!Cvm::<u64>::keeps(2, &vec![true, false, true]));
}

#[test]
fn keeps_nothing_when_coins_are_missing() {
    assert!(!Cvm::<u64>::keeps(1, &vec![]));
    assert!(!Cvm::<u64>::keeps(3, &vec![true, true]));
    assert!(!Cvm::<u64>::keeps(u32::MAX, &vec![true; 10]));
}

#[test]
fn add_with_flips_keeps_every_value_before_the_first_sweep() {
    let mut cvm = Cvm::<u64>::new(10);
    cvm.add_with_flips(1, &vec![], &heads(1));
    cvm.add_with_flips(2, &vec![false], &heads(2));
    cvm.add_with_flips(3, &vec![false, false], &heads(3));
    assert_eq!(cvm.rounds(), 0);
    assert_eq!(cvm.len(), 3);
}

#[test]
fn add_with_flips_asks_one_coin_for_each_round() {
    let mut cvm = Cvm::<u64>::new(2);
    cvm.add_with_flips(1, &vec![], &heads(1));
    cvm.add_with_flips(2, &vec![], &heads(2));
    cvm.add_with_flips(3, &vec![true], &heads(3));
    assert_eq!(cvm.rounds(), 2);
    assert_eq!(cvm.len(), 3);

    // Two rounds: the first two coins decide, the third does not count.
    cvm.add_with_flips(4, &vec![true, false, true], &heads(4));
    assert!(!cvm.contains(&4));
    assert_eq!(cvm.rounds(), 3);
    cvm.add_with_flips(5, &vec![true, true, true, false], &heads(4));
    assert!(cvm.contains(&5));
    assert_eq!(cvm.rounds(), 4);

    // A value that is not kept leaves the sample.
    cvm.add_with_flips(5, &vec![true, true, true, false], &heads(4));
    assert!(!cvm.contains(&5));
    assert_eq!(cvm.len(), 3);

    // Too few coins keep nothing.
    cvm.add_with_flips(1, &vec![true, true, true], &heads(4));
    assert!(!cvm.contains(&1));
    assert_eq!(cvm.len(), 2);
    assert_eq!(cvm.rounds(), 6);
}

#[test]
fn add_with_flips_sweeps_with_the_coins_given() {
    let mut cvm = Cvm::<u64>::new(2);
    cvm.add_with_flips(1, &vec![], &tails(1));
    assert_eq!(cvm.len(), 1);
    cvm.add_with_flips(2, &vec![], &tails(2));
    assert_eq!(cvm.len(), 0);
    assert_eq!(cvm.rounds(), 1);
    assert_eq!(cvm.estimate(), 0);
}

#[test]
fn should_keep_keeps_about_one_in_eight_for_three_flips() {
    let mut kept = 0;
    for _ in 0..16000 {
        if Cvm::<u64>::should_keep(3) {
            kept += 1;
        }
    }
    // Two thousand are expected; the bounds lie more than seven deviations off.
    assert!(kept > 1650);
    assert!(kept < 2350);
}

#[test]
fn should_keep_keeps_next_to_nothing_for_many_flips() {
    let mut kept = 0;
    for _ in 0..1000 {
        if Cvm::<u64>::should_keep(64) {
            kept += 1;
        }
    }
    assert_eq!(kept, 0);
}
