use cvm::ensemble::{CombinedCvm, EnsembleError};
use cvm::estimator::Cvm;
use cvm::trimmed::trimmed_mean;

fn holding(count: u64) -> Cvm<u64> {
    let mut cvm = Cvm::<u64>::new(2000);
    for value in 0..count {
        cvm.add(value);
    }
    cvm
}

#[test]
fn an_ensemble_without_members_is_refused() {
    assert_eq!(CombinedCvm::<u64>::new(10, 0).err(), Some(EnsembleError::NoMembers));
    assert_eq!(CombinedCvm::<u64>::new(0, 0).err(), Some(EnsembleError::NoMembers));
    assert_eq!(CombinedCvm::<u64>::from_members(Vec::new()).err(), Some(EnsembleError::NoMembers));
}

#[test]
fn an_ensemble_has_as_many_members_as_asked_for() {
    for len in 1..=9usize {
        let ensemble = CombinedCvm::<u64>::new(10, len).ok().unwrap();
        assert_eq!(ensemble.len(), len);
        assert_eq!(ensemble.estimates(), vec![0u128; len]);
    }
}

#[test]
fn trimmed_mean_sets_aside_the_smallest_and_the_largest() {
    assert_eq!(trimmed_mean(&[10, 20, 30, 40, 1000]), Some(30));
}

#[test]
fn an_ensemble_combines_its_members_by_the_trimmed_mean() {
    let members = vec![holding(10), holding(20), holding(30), holding(40), holding(1000)];
    let ensemble = CombinedCvm::from_members(members).ok().unwrap();
    assert_eq!(ensemble.estimates(), vec![10, 20, 30, 40, 1000]);
    assert_eq!(ensemble.estimate(), Ok(30));
    assert_eq!(ensemble.estimate(), Ok(30));
}

#[test]
fn trimmed_mean_does_not_depend_on_the_order() {
    assert_eq!(trimmed_mean(&[1000, 10, 40, 20, 30]), Some(30));
    assert_eq!(trimmed_mean(&[30, 1000, 20, 10, 40]), Some(30));
    assert_eq!(trimmed_mean(&[40, 30, 20, 10, 1000]), Some(30));
}

#[test]
fn trimmed_mean_rounds_down() {
    assert_eq!(trimmed_mean(&[1, 2, 3, 9]), Some(2));
    assert_eq!(trimmed_mean(&[1, 2, 4, 9]), Some(3));
    assert_eq!(trimmed_mean(&[0, 1, 1, 2, 100]), Some(1));
    assert_eq!(trimmed_mean(&[5, 0, 7]), Some(5));
}

#[test]
fn trimmed_mean_sets_aside_one_of_several_equal_extremes() {
    assert_eq!(trimmed_mean(&[1, 1, 1, 9, 9]), Some(3));
    assert_eq!(trimmed_mean(&[4, 4, 4]), Some(4));
    assert_eq!(trimmed_mean(&[6, 6, 6, 6, 6, 6, 6]), Some(6));
}

#[test]
fn trimmed_mean_needs_three_values() {
    assert_eq!(trimmed_mean(&[]), None);
    assert_eq!(trimmed_mean(&[5]), None);
    assert_eq!(trimmed_mean(&[5, 6]), None);
    assert_eq!(trimmed_mean(&[5, 6, 7]), Some(6));
}

#[test]
fn trimmed_mean_of_the_largest_values_does_not_overflow() {
    let top = u128::MAX;
    assert_eq!(trimmed_mean(&[top, top, top, top, top]), Some(top));
    assert_eq!(trimmed_mean(&[0, top, top - 1, top - 1, top]), Some(top - 1));
    assert_eq!(trimmed_mean(&[0, top, top - 1, top - 2, top]), Some(top - 1));
    assert_eq!(trimmed_mean(&[top - 3, top, top - 1, top - 2, 1]), Some(top - 2));
}

#[test]
fn an_ensemble_with_too_few_members_has_no_estimate() {
    for len in 1..=2usize {
        let mut ensemble = CombinedCvm::<u64>::new(10, len).ok().unwrap();
        ensemble.add(&1);
        assert_eq!(ensemble.estimate(), Err(EnsembleError::TooFewMembers));
    }
    let ensemble = CombinedCvm::<u64>::new(10, 3).ok().unwrap();
    assert_eq!(ensemble.estimate(), Ok(0));
}

#[test]
fn every_member_observes_every_element() {
    let mut ensemble = CombinedCvm::<u64>::new(100, 5).ok().unwrap();
    for value in 0..40u64 {
        ensemble.add(&value);
        ensemble.add(&value);
    }
    assert_eq!(ensemble.len(), 5);
    assert_eq!(ensemble.estimates(), vec![40u128; 5]);
    assert_eq!(ensemble.estimate(), Ok(40));
}

#[test]
fn an_ensemble_extends_every_member() {
    let mut ensemble = CombinedCvm::<char>::new(100, 4).ok().unwrap();
    ensemble.extend(&['a', 'b', 'a', 'c', 'b']);
    assert_eq!(ensemble.estimates(), vec![3u128; 4]);
    assert_eq!(ensemble.estimate(), Ok(3));
}

#[test]
fn members_past_capacity_decide_for_themselves() {
    let mut ensemble = CombinedCvm::<u64>::new(64, 9).ok().unwrap();
    let items: Vec<u64> = (0..2000).collect();
    ensemble.extend(&items);
    let estimates = ensemble.estimates();
    assert_eq!(estimates.len(), 9);
    // Nine members that agree on every coin would share one source of coins.
    assert!(estimates.iter().any(|estimate| *estimate != estimates[0]) || estimates[0] == 0);
    let mut sorted = estimates.clone();
    sorted.sort();
    let middle: u128 = sorted[1..8].iter().sum();
    assert_eq!(ensemble.estimate(), Ok(middle / 7));
}
