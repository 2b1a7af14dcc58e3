use cvm::driver::{run_test, Test};
use cvm::ensemble::EnsembleError;
use rand::distributions::Uniform;
use rand::rngs::StdRng;
use rand::{Rng, SeedableRng};

fn stream(seed: u64, len: usize) -> Vec<u32> {
    StdRng::seed_from_u64(seed).sample_iter(Uniform::new(0u32, 10000)).take(len).collect()
}

fn distinct(data: &[u32]) -> u128 {
    let mut seen = data.to_vec();
    seen.sort();
    seen.dedup();
    seen.len() as u128
}

fn spread(estimates: &[u128]) -> f64 {
    let count = estimates.len() as f64;
    let mean = estimates.iter().map(|estimate| *estimate as f64).sum::<f64>() / count;
    let variance = estimates
        .iter()
        .map(|estimate| (*estimate as f64 - mean) * (*estimate as f64 - mean))
        .sum::<f64>()
        / count;
    variance.sqrt() / mean
}

#[test]
fn a_single_estimator_below_capacity_counts_exactly() {
    let test = Test {
        memory_capacity: 100,
        data: vec![5u64, 3, 5, 8, 3, 1],
        sample_size: 6,
        instances: None,
    };
    assert_eq!(run_test(test), Ok(4));
}

#[test]
fn only_the_sample_is_observed() {
    let test = Test {
        memory_capacity: 100,
        data: vec![5u64, 3, 5, 8, 3, 1],
        sample_size: 3,
        instances: None,
    };
    assert_eq!(run_test(test), Ok(2));
    let nothing = Test {
        memory_capacity: 100,
        data: vec![5u64, 3, 5, 8, 3, 1],
        sample_size: 0,
        instances: None,
    };
    assert_eq!(run_test(nothing), Ok(0));
}

#[test]
fn a_sample_size_beyond_the_data_takes_all_of_it() {
    let test = Test {
        memory_capacity: 100,
        data: vec![5u64, 3, 5, 8, 3, 1],
        sample_size: 1000,
        instances: Some(3),
    };
    assert_eq!(run_test(test), Ok(4));
}

#[test]
fn an_ensemble_below_capacity_counts_exactly() {
    let test = Test {
        memory_capacity: 50,
        data: (0..200u64).map(|value| value % 20).collect(),
        sample_size: 150,
        instances: Some(7),
    };
    assert_eq!(run_test(test), Ok(20));
}

#[test]
fn a_run_without_members_fails() {
    let test = Test {
        memory_capacity: 50,
        data: vec![1u64, 2, 3],
        sample_size: 3,
        instances: Some(0),
    };
    assert_eq!(run_test(test), Err(EnsembleError::NoMembers));
}

#[test]
fn a_run_with_too_few_members_fails() {
    let one = Test {
        memory_capacity: 50,
        data: vec![1u64, 2, 3],
        sample_size: 3,
        instances: Some(1),
    };
    assert_eq!(run_test(one), Err(EnsembleError::TooFewMembers));
    let two = Test {
        memory_capacity: 50,
        data: vec![1u64, 2, 3],
        sample_size: 3,
        instances: Some(2),
    };
    assert_eq!(run_test(two), Err(EnsembleError::TooFewMembers));
}

#[test]
fn a_single_estimator_is_close_on_a_long_stream() {
    let mut close = 0;
    for seed in 0..10u64 {
        let data = stream(seed, 30000);
        let truth = distinct(&data);
        let test = Test { memory_capacity: 1000, data, sample_size: 30000, instances: None };
        let estimate = run_test(test).ok().unwrap();
        assert!(truth > 9000 && truth <= 10000);
        if estimate >= 7000 && estimate <= 13000 {
            close += 1;
        }
    }
    assert!(close >= 9);
}

#[test]
fn an_ensemble_spreads_less_than_a_single_estimator() {
    let data = stream(42, 30000);
    let mut alone = Vec::new();
    let mut combined = Vec::new();
    for _ in 0..50 {
        let single = Test {
            memory_capacity: 1000,
            data: data.clone(),
            sample_size: 30000,
            instances: None,
        };
        alone.push(run_test(single).ok().unwrap());
        let ensemble = Test {
            memory_capacity: 1000,
            data: data.clone(),
            sample_size: 30000,
            instances: Some(7),
        };
        combined.push(run_test(ensemble).ok().unwrap());
    }
    assert!(spread(&combined) < spread(&alone));
}
