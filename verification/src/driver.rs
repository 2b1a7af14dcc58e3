//! One run of an estimator, or of an ensemble, over a sample of a stream.

use std::hash::Hash;
use vstd::prelude::*;
use vstd::slice::slice_subrange;
use vstd::std_specs::hash::obeys_key_model;

use crate::ensemble::{estimates_of, CombinedCvm, EnsembleError, MIN_MEMBERS_FOR_ESTIMATE};
use crate::estimator::Cvm;
use crate::sketch::Sketch;
use crate::laws::lemma_exact_below_capacity;
use crate::trimmed::{lemma_trimmed_mean_of_equal_values, trimmed_mean_of};

verus! {

/// What to run: the capacity of each estimator, the stream, how much of it
/// to observe, and how many estimators to combine (one alone if `None`).
pub struct Test<T> {
    pub memory_capacity: usize,
    pub data: Vec<T>,
    pub sample_size: usize,
    pub instances: Option<usize>,
}

/// The first `sample_size` elements of `data`, or all of it if it is shorter.
pub open spec fn sample_of<T>(data: Seq<T>, sample_size: nat) -> Seq<T> {
    if sample_size < data.len() {
        data.take(sample_size as int)
    } else {
        data
    }
}

/// Each of `ends` is a state that an estimator starting in `start` can end
/// in when it observes `sample`.
pub open spec fn all_reach<T>(start: Sketch<T>, sample: Seq<T>, ends: Seq<Sketch<T>>) -> bool {
    forall|i: int| 0 <= i < ends.len() ==> start.reaches(sample, #[trigger] ends[i])
}

/// `outcome` is a result that the run described by `test` can have.
///
/// A single estimator yields the estimate of a state that it can end in. An
/// ensemble yields the trimmed mean of the estimates of states that its
/// members can end in; it yields an error if it has no member, or too few for
/// a trimmed mean.
pub open spec fn may_yield<T>(test: Test<T>, outcome: Result<u128, EnsembleError>) -> bool {
    let start = Sketch::<T>::fresh(test.memory_capacity as nat);
    let sample = sample_of(test.data@, test.sample_size as nat);
    match test.instances {
        None => match outcome {
            Ok(estimate) => exists|end: Sketch<T>| #[trigger]
                start.reaches(sample, end) && estimate == end.estimate(),
            Err(_) => false,
        },
        Some(instances) => match outcome {
            Ok(estimate) => exists|ends: Seq<Sketch<T>>| #[trigger]
                all_reach(start, sample, ends) && ends.len() == instances && instances
                    >= MIN_MEMBERS_FOR_ESTIMATE && estimate == trimmed_mean_of(estimates_of(ends)),
            Err(EnsembleError::NoMembers) => instances == 0,
            Err(EnsembleError::TooFewMembers) => 0 < instances < MIN_MEMBERS_FOR_ESTIMATE,
        },
    }
}

/// Runs `test`: makes the estimator or the ensemble, lets it observe the
/// sample, and returns its estimate.
pub fn run_test<T: Copy + Hash + Eq>(test: Test<T>) -> (outcome: Result<u128, EnsembleError>)
    requires
        obeys_key_model::<T>(),
    ensures
        may_yield(test, outcome),
{
    let taken = if test.sample_size < test.data.len() {
        test.sample_size
    } else {
        test.data.len()
    };
    let sample = slice_subrange(test.data.as_slice(), 0, taken);
    assert(sample@ == sample_of(test.data@, test.sample_size as nat));
    match test.instances {
        None => {
            let mut cvm = Cvm::new(test.memory_capacity);
            let ghost start = cvm@;
            cvm.extend(sample);
            let estimate = cvm.estimate();
            assert(start.reaches(sample@, cvm@) && estimate == cvm@.estimate());
            Ok(estimate)
        },
        Some(instances) => {
            let mut ensemble = match CombinedCvm::new(test.memory_capacity, instances) {
                Ok(ensemble) => ensemble,
                Err(error) => {
                    return Err(error);
                },
            };
            let ghost start = ensemble@;
            ensemble.extend(sample);
            proof {
                assert forall|i: int| 0 <= i < ensemble@.len() implies Sketch::<T>::fresh(
                    test.memory_capacity as nat,
                ).reaches(sample@, #[trigger] ensemble@[i]) by {
                    assert(start[i].reaches(sample@, ensemble@[i]));
                }
            }
            let outcome = ensemble.estimate();
            assert(all_reach(Sketch::<T>::fresh(test.memory_capacity as nat), sample@, ensemble@));
            outcome
        },
    }
}

/// Below capacity a run counts exactly. If the sample holds fewer distinct
/// elements than the capacity, then a single estimator, and an ensemble with
/// members enough for a trimmed mean, yield the number of distinct elements
/// in the sample, whatever the coins show.
pub proof fn lemma_run_is_exact_below_capacity<T>(
    test: Test<T>,
    outcome: Result<u128, EnsembleError>,
)
    requires
        may_yield(test, outcome),
        sample_of(test.data@, test.sample_size as nat).to_set().len() < test.memory_capacity,
        test.instances matches Some(instances) ==> instances >= MIN_MEMBERS_FOR_ESTIMATE,
    ensures
        outcome matches Ok(estimate) && estimate == sample_of(
            test.data@,
            test.sample_size as nat,
        ).to_set().len(),
{
    let start = Sketch::<T>::fresh(test.memory_capacity as nat);
    let sample = sample_of(test.data@, test.sample_size as nat);
    let distinct = sample.to_set().len();
    assert(start.memory + sample.to_set() =~= sample.to_set());
    match test.instances {
        None => {
            let end = choose|end: Sketch<T>| #[trigger]
                start.reaches(sample, end) && outcome->Ok_0 == end.estimate();
            lemma_exact_below_capacity(start, sample, end);
        },
        Some(instances) => {
            let ends = choose|ends: Seq<Sketch<T>>| #[trigger]
                all_reach(start, sample, ends) && ends.len() == instances && instances
                    >= MIN_MEMBERS_FOR_ESTIMATE && outcome->Ok_0 == trimmed_mean_of(
                    estimates_of(ends),
                );
            assert forall|i: int| 0 <= i < ends.len() implies estimates_of(ends)[i]
                == distinct by {
                assert(start.reaches(sample, ends[i]));
                lemma_exact_below_capacity(start, sample, ends[i]);
            }
            lemma_trimmed_mean_of_equal_values(estimates_of(ends), distinct);
        },
    }
}

} // verus!
