//! The abstract state of an estimator and the steps it can take.
//!
//! Everything here is specification: the executable estimator states its
//! contracts over these definitions.

use vstd::arithmetic::power2::pow2;
use vstd::prelude::*;

use crate::coin::count_true;

verus! {

/// The number of rounds beyond which the estimate is no longer doubled.
pub const MAX_SCALED_ROUNDS: u32 = 32;

/// The factor by which the size of the sample is scaled after `rounds` rounds.
pub open spec fn scale(rounds: nat) -> nat {
    if rounds > MAX_SCALED_ROUNDS {
        pow2(MAX_SCALED_ROUNDS as nat)
    } else {
        pow2(rounds)
    }
}

/// The number of rounds after one more sweep. The counter stops at the
/// largest value it can hold; it never goes back.
pub open spec fn next_round(rounds: nat) -> nat {
    if rounds < u32::MAX {
        rounds + 1
    } else {
        rounds
    }
}

/// What an estimator is, as a mathematical value.
#[verifier::reject_recursive_types(T)]
pub struct Sketch<T> {
    /// The size of the sample at which a sweep is triggered.
    pub capacity: nat,
    /// The sample: the elements currently retained.
    pub memory: Set<T>,
    /// The number of sweeps so far.
    pub rounds: nat,
}

impl<T> Sketch<T> {
    /// The state of a new estimator.
    pub open spec fn fresh(capacity: nat) -> Self {
        Sketch { capacity, memory: Set::empty(), rounds: 0 }
    }

    /// The estimate of the number of distinct elements observed.
    pub open spec fn estimate(self) -> nat {
        self.memory.len() * scale(self.rounds)
    }

    /// Whether the sample has reached the size at which a sweep is due.
    pub open spec fn is_full(self) -> bool {
        self.memory.len() >= self.capacity
    }

    /// The state after the retention decision `keep` on `value` has been
    /// applied: the value joins the sample if it is kept and leaves it if not.
    pub open spec fn record(self, value: T, keep: bool) -> Self {
        Sketch {
            memory: if keep {
                self.memory.insert(value)
            } else {
                self.memory.remove(value)
            },
            ..self
        }
    }

    /// `post` is a state that a sweep of `self` can end in: some of the
    /// sample is gone, nothing has joined it, and one more round is counted.
    pub open spec fn thins_to(self, post: Self) -> bool {
        &&& post.capacity == self.capacity
        &&& post.memory.subset_of(self.memory)
        &&& post.rounds == next_round(self.rounds)
    }

    /// `post` is a state that a sweep of `self` can end in when the elements
    /// of the sample are given the outcomes `coins`, one each, in some order:
    /// as many elements stay as coins show `true`.
    pub open spec fn sweeps_to(self, coins: Seq<bool>, post: Self) -> bool {
        &&& self.thins_to(post)
        &&& post.memory.len() == count_true(coins.take(self.memory.len() as int))
    }

    /// `post` is a state that observing `value` can end in when the retention
    /// decision is `keep`: the decision is applied, and a sweep follows if the
    /// sample is then full.
    pub open spec fn adds_to(self, value: T, keep: bool, post: Self) -> bool {
        let recorded = self.record(value, keep);
        if recorded.is_full() {
            recorded.thins_to(post)
        } else {
            post == recorded
        }
    }

    /// As `adds_to`, with the outcomes `coins` for the sweep, if one follows.
    pub open spec fn adds_with(self, value: T, keep: bool, coins: Seq<bool>, post: Self) -> bool {
        let recorded = self.record(value, keep);
        if recorded.is_full() {
            recorded.sweeps_to(coins, post)
        } else {
            post == recorded
        }
    }

    /// The state after `value` has been observed when every coin shows
    /// `true`: the value joins the sample, and a sweep, if one is due, counts
    /// a round and removes nothing.
    pub open spec fn retains(self, value: T) -> Self {
        let recorded = self.record(value, true);
        if recorded.is_full() {
            Sketch { rounds: next_round(recorded.rounds), ..recorded }
        } else {
            recorded
        }
    }

    /// The state after the elements of `items` have been observed, in order,
    /// when every coin shows `true`.
    pub open spec fn retains_each(self, items: Seq<T>) -> Self
        decreases items.len(),
    {
        if items.len() == 0 {
            self
        } else {
            self.retains_each(items.drop_last()).retains(items.last())
        }
    }

    /// `post` is a state that observing `value` can end in. Before the first
    /// sweep every value is kept; after it the coins decide.
    pub open spec fn may_add(self, value: T, post: Self) -> bool {
        ||| self.adds_to(value, true, post)
        ||| self.rounds > 0 && self.adds_to(value, false, post)
    }

    /// `trace` lists the states that an estimator starting in `self` goes
    /// through while it observes the elements of `items`, in order: the state
    /// before the first element, and the state after each.
    pub open spec fn follows(self, items: Seq<T>, trace: Seq<Self>) -> bool {
        &&& trace.len() == items.len() + 1
        &&& trace[0] == self
        &&& forall|i: int|
            0 <= i < items.len() ==> trace[i].may_add(#[trigger] items[i], trace[i + 1])
    }

    /// `post` is a state that observing the elements of `items`, in order, can
    /// end in.
    pub open spec fn reaches(self, items: Seq<T>, post: Self) -> bool {
        exists|trace: Seq<Self>| #[trigger] self.follows(items, trace) && trace.last() == post
    }
}

/// Observing nothing leaves an estimator as it is.
pub proof fn lemma_reaches_itself<T>(pre: Sketch<T>)
    ensures
        pre.reaches(Seq::empty(), pre),
{
    let trace = seq![pre];
    assert(pre.follows(Seq::empty(), trace) && trace.last() == pre);
}

/// A state reached by observing `items`, and then `value`, is a state reached
/// by observing `items` with `value` at its end.
pub proof fn lemma_reaches_one_more<T>(
    pre: Sketch<T>,
    items: Seq<T>,
    mid: Sketch<T>,
    value: T,
    post: Sketch<T>,
)
    requires
        pre.reaches(items, mid),
        mid.may_add(value, post),
    ensures
        pre.reaches(items.push(value), post),
{
    let before = choose|trace: Seq<Sketch<T>>| #[trigger]
        pre.follows(items, trace) && trace.last() == mid;
    let trace = before.push(post);
    let longer = items.push(value);
    assert forall|i: int| 0 <= i < longer.len() implies trace[i].may_add(
        #[trigger] longer[i],
        trace[i + 1],
    ) by {
        if i < items.len() {
            assert(before[i].may_add(items[i], before[i + 1]));
        }
    }
    assert(pre.follows(longer, trace) && trace.last() == post);
}

} // verus!
