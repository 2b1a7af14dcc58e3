//! The ensemble: several estimators that observe the same stream, each with
//! coins of its own, and whose estimates are combined by a trimmed mean.

use std::hash::Hash;
use vstd::prelude::*;
use vstd::std_specs::hash::obeys_key_model;

use crate::estimator::Cvm;
use crate::sketch::{lemma_reaches_itself, lemma_reaches_one_more, Sketch};
use crate::trimmed::{as_nats, trimmed_mean, trimmed_mean_of};

verus! {

/// Why an ensemble could not be made, or could not give an estimate.
#[derive(Debug, Clone, Copy, PartialEq, Eq, Structural)]
pub enum EnsembleError {
    /// An ensemble needs at least one member.
    NoMembers,
    /// A trimmed mean needs at least three estimates.
    TooFewMembers,
}

/// The fewest members whose estimates have a trimmed mean.
pub const MIN_MEMBERS_FOR_ESTIMATE: usize = 3;

/// The estimates of the members, in order.
pub open spec fn estimates_of<T>(members: Seq<Sketch<T>>) -> Seq<nat> {
    members.map_values(|member: Sketch<T>| member.estimate())
}

/// Several estimators over one stream.
pub struct CombinedCvm<T> {
    cvms: Vec<Cvm<T>>,
}

impl<T> View for CombinedCvm<T> {
    type V = Seq<Sketch<T>>;

    closed spec fn view(&self) -> Seq<Sketch<T>> {
        self.cvms@.map_values(|cvm: Cvm<T>| cvm@)
    }
}

impl<T: Copy + Hash + Eq> CombinedCvm<T> {
    /// The ensemble has a member, and each member is in a state that its
    /// operations can work on.
    pub open spec fn wf(&self) -> bool {
        &&& obeys_key_model::<T>()
        &&& self@.len() > 0
        &&& forall|i: int| 0 <= i < self@.len() ==> (#[trigger] self@[i]).memory.finite()
    }

    /// An ensemble of `len` new estimators, each with the given capacity.
    /// There is no ensemble without members.
    pub fn new(capacity: usize, len: usize) -> (made: Result<Self, EnsembleError>)
        requires
            obeys_key_model::<T>(),
        ensures
            made is Err <==> len == 0,
            made matches Err(error) ==> error == EnsembleError::NoMembers,
            made matches Ok(ensemble) ==> {
                &&& ensemble.wf()
                &&& ensemble@.len() == len
                &&& forall|i: int|
                    0 <= i < len ==> #[trigger] ensemble@[i] == Sketch::<T>::fresh(capacity as nat)
            },
    {
        if len == 0 {
            return Err(EnsembleError::NoMembers);
        }
        let mut cvms: Vec<Cvm<T>> = Vec::new();
        while cvms.len() < len
            invariant
                obeys_key_model::<T>(),
                cvms@.len() <= len,
                forall|i: int| 0 <= i < cvms@.len() ==> (#[trigger] cvms@[i]).wf(),
                forall|i: int|
                    0 <= i < cvms@.len() ==> (#[trigger] cvms@[i])@ == Sketch::<T>::fresh(
                        capacity as nat,
                    ),
            decreases len - cvms@.len(),
        {
            cvms.push(Cvm::new(capacity));
        }
        Ok(CombinedCvm { cvms })
    }

    /// An ensemble of the given estimators, in the states they are in.
    /// There is no ensemble without members.
    pub fn from_members(members: Vec<Cvm<T>>) -> (made: Result<Self, EnsembleError>)
        requires
            forall|i: int| 0 <= i < members@.len() ==> (#[trigger] members@[i]).wf(),
        ensures
            made is Err <==> members@.len() == 0,
            made matches Err(error) ==> error == EnsembleError::NoMembers,
            made matches Ok(ensemble) ==> {
                &&& ensemble.wf()
                &&& ensemble@ == members@.map_values(|cvm: Cvm<T>| cvm@)
            },
    {
        if members.len() == 0 {
            return Err(EnsembleError::NoMembers);
        }
        let ensemble = CombinedCvm { cvms: members };
        proof {
            assert(ensemble.cvms@[0].wf());
            assert forall|i: int| 0 <= i < ensemble@.len() implies (
            #[trigger] ensemble@[i]).memory.finite() by {
                assert(ensemble.cvms@[i].wf());
            }
        }
        Ok(ensemble)
    }

    /// The number of members.
    pub fn len(&self) -> (len: usize)
        ensures
            len == self@.len(),
    {
        self.cvms.len()
    }

    /// Lets every member observe `value`, the first member first. Each member
    /// decides with coins of its own.
    pub fn add(&mut self, value: &T)
        requires
            old(self).wf(),
        ensures
            final(self).wf(),
            final(self)@.len() == old(self)@.len(),
            forall|i: int|
                0 <= i < old(self)@.len() ==> (#[trigger] old(self)@[i]).may_add(
                    *value,
                    final(self)@[i],
                ),
    {
        let ghost start = self@;
        let mut index: usize = 0;
        while index < self.cvms.len()
            invariant
                index <= self.cvms@.len(),
                self.wf(),
                self@.len() == start.len(),
                forall|i: int| 0 <= i < index ==> (#[trigger] start[i]).may_add(*value, self@[i]),
                forall|i: int| index <= i < start.len() ==> #[trigger] self@[i] == start[i],
            decreases self.cvms@.len() - index,
        {
            let ghost prior = self@;
            let ghost before = self.cvms@;
            assert(before[index as int].wf()) by {
                assert(prior[index as int].memory.finite());
            }
            self.cvms[index].add(*value);
            proof {
                let after = self.cvms@;
                assert(before[index as int]@.may_add(*value, after[index as int]@));
                assert forall|i: int| 0 <= i < after.len() implies (#[trigger] after[i]).wf() by {
                    if i != index {
                        assert(after[i] == before[i]);
                        assert(prior[i].memory.finite());
                    }
                }
                assert forall|i: int| 0 <= i < self@.len() implies (
                #[trigger] self@[i]).memory.finite() by {
                    assert(after[i].wf());
                }
                assert forall|i: int| 0 <= i < index + 1 implies (#[trigger] start[i]).may_add(
                    *value,
                    self@[i],
                ) by {
                    assert(prior[i] == before[i]@);
                    assert(self@[i] == after[i]@);
                    if i != index {
                        assert(after[i] == before[i]);
                    }
                }
                assert forall|i: int| index + 1 <= i < start.len() implies #[trigger] self@[i]
                    == start[i] by {
                    assert(prior[i] == before[i]@);
                    assert(after[i] == before[i]);
                }
            }
            index = index + 1;
        }
    }

    /// Lets every member observe the elements of `items`, in order.
    pub fn extend(&mut self, items: &[T])
        requires
            old(self).wf(),
        ensures
            final(self).wf(),
            final(self)@.len() == old(self)@.len(),
            forall|i: int|
                0 <= i < old(self)@.len() ==> (#[trigger] old(self)@[i]).reaches(
                    items@,
                    final(self)@[i],
                ),
    {
        let ghost start = self@;
        let mut index: usize = 0;
        proof {
            assert(items@.take(0) == Seq::<T>::empty());
            assert forall|i: int| 0 <= i < start.len() implies (#[trigger] start[i]).reaches(
                items@.take(0),
                self@[i],
            ) by {
                lemma_reaches_itself(start[i]);
            }
        }
        while index < items.len()
            invariant
                index <= items@.len(),
                self.wf(),
                self@.len() == start.len(),
                forall|i: int|
                    0 <= i < start.len() ==> (#[trigger] start[i]).reaches(
                        items@.take(index as int),
                        self@[i],
                    ),
            decreases items@.len() - index,
        {
            let ghost before = self@;
            self.add(&items[index]);
            proof {
                assert(items@.take(index as int).push(items@[index as int]) == items@.take(
                    index + 1,
                ));
                assert forall|i: int| 0 <= i < start.len() implies (#[trigger] start[i]).reaches(
                    items@.take(index + 1),
                    self@[i],
                ) by {
                    assert(before[i].may_add(items@[index as int], self@[i]));
                    lemma_reaches_one_more(
                        start[i],
                        items@.take(index as int),
                        before[i],
                        items@[index as int],
                        self@[i],
                    );
                }
            }
            index = index + 1;
        }
        assert(items@.take(index as int) == items@);
    }

    /// The estimates of the members, in order.
    pub fn estimates(&self) -> (estimates: Vec<u128>)
        requires
            self.wf(),
        ensures
            as_nats(estimates@) == estimates_of(self@),
    {
        let mut estimates: Vec<u128> = Vec::new();
        let mut index: usize = 0;
        while index < self.cvms.len()
            invariant
                index <= self.cvms@.len(),
                self.wf(),
                estimates@.len() == index,
                forall|i: int| 0 <= i < index ==> #[trigger] estimates@[i] == self@[i].estimate(),
            decreases self.cvms@.len() - index,
        {
            assert(self.cvms@[index as int].wf()) by {
                assert(self@[index as int].memory.finite());
            }
            estimates.push(self.cvms[index].estimate());
            index = index + 1;
        }
        assert(as_nats(estimates@) =~= estimates_of(self@));
        estimates
    }

    /// The combined estimate: the trimmed mean of the members' estimates.
    /// An ensemble of fewer than three members has none.
    pub fn estimate(&self) -> (estimate: Result<u128, EnsembleError>)
        requires
            self.wf(),
        ensures
            estimate is Err <==> self@.len() < MIN_MEMBERS_FOR_ESTIMATE,
            estimate matches Err(error) ==> error == EnsembleError::TooFewMembers,
            estimate matches Ok(mean) ==> mean == trimmed_mean_of(estimates_of(self@)),
    {
        let estimates = self.estimates();
        assert(estimates@.len() == as_nats(estimates@).len());
        match trimmed_mean(estimates.as_slice()) {
            Some(mean) => Ok(mean),
            None => Err(EnsembleError::TooFewMembers),
        }
    }
}

} // verus!
