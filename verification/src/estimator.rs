//! The estimator: a bounded sample of the elements observed, thinned by fair
//! coins whenever it fills up.

use std::collections::HashSet;
use std::hash::Hash;
use vstd::arithmetic::power2::{lemma2_to64, lemma_pow2_unfold, pow2};
use vstd::prelude::*;
use vstd::std_specs::hash::obeys_key_model;
use vstd::std_specs::iter::IteratorSpec;

use crate::coin::{all_show_true, count_true, draw, draw_until_false};
use crate::sketch::{lemma_reaches_itself, lemma_reaches_one_more, Sketch, MAX_SCALED_ROUNDS};

verus! {

/// Two to the power `exponent`, for an exponent up to `MAX_SCALED_ROUNDS`.
fn power_of_two(exponent: u32) -> (power: u128)
    requires
        exponent <= MAX_SCALED_ROUNDS,
    ensures
        power == pow2(exponent as nat),
        power <= 0x1_0000_0000,
{
    let mut power: u128 = 1;
    let mut done: u32 = 0;
    proof {
        lemma2_to64();
    }
    while done < exponent
        invariant
            done <= exponent <= MAX_SCALED_ROUNDS,
            power == pow2(done as nat),
            power <= pow2(32),
            pow2(32) == 0x1_0000_0000,
        decreases exponent - done,
    {
        proof {
            lemma_pow2_unfold((done + 1) as nat);
            if done + 1 < 32 {
                vstd::arithmetic::power2::lemma_pow2_strictly_increases((done + 1) as nat, 32);
            }
        }
        power = power * 2;
        done = done + 1;
    }
    power
}

/// An estimator of the number of distinct elements in a stream.
#[derive(Debug)]
pub struct Cvm<T> {
    capacity: usize,
    memory: HashSet<T>,
    rounds: u32,
}

impl<T> View for Cvm<T> {
    type V = Sketch<T>;

    closed spec fn view(&self) -> Sketch<T> {
        Sketch {
            capacity: self.capacity as nat,
            memory: self.memory@,
            rounds: self.rounds as nat,
        }
    }
}

impl<T: Copy + Hash + Eq> Cvm<T> {
    /// The estimator is in a state that its operations can work on: hashing
    /// and equality on `T` agree with equality of values, and the sample is
    /// finite.
    pub open spec fn wf(&self) -> bool {
        &&& obeys_key_model::<T>()
        &&& self@.memory.finite()
    }

    /// An estimator with an empty sample that sweeps whenever the sample
    /// holds `capacity` elements or more. A capacity of zero is accepted:
    /// such an estimator sweeps on every observation.
    pub fn new(capacity: usize) -> (cvm: Self)
        requires
            obeys_key_model::<T>(),
        ensures
            cvm.wf(),
            cvm@ == Sketch::<T>::fresh(capacity as nat),
    {
        Cvm { capacity, memory: HashSet::new(), rounds: 0 }
    }

    /// The size of the sample at which a sweep is triggered.
    pub fn capacity(&self) -> (capacity: usize)
        ensures
            capacity == self@.capacity,
    {
        self.capacity
    }

    /// The number of sweeps so far.
    pub fn rounds(&self) -> (rounds: u32)
        ensures
            rounds == self@.rounds,
    {
        self.rounds
    }

    /// The number of elements in the sample.
    pub fn len(&self) -> (len: usize)
        requires
            self.wf(),
        ensures
            len == self@.memory.len(),
    {
        self.memory.len()
    }

    /// Whether `value` is in the sample.
    pub fn contains(&self, value: &T) -> (found: bool)
        requires
            self.wf(),
        ensures
            found == self@.memory.contains(*value),
    {
        self.memory.contains(value)
    }

    /// The estimate of the number of distinct elements observed: the size of
    /// the sample, doubled once for each round up to `MAX_SCALED_ROUNDS`.
    pub fn estimate(&self) -> (estimate: u128)
        requires
            self.wf(),
        ensures
            estimate == self@.estimate(),
    {
        let rounds = if self.rounds > MAX_SCALED_ROUNDS {
            MAX_SCALED_ROUNDS
        } else {
            self.rounds
        };
        let factor = power_of_two(rounds);
        let len = self.memory.len() as u128;
        assert(len * factor <= u128::MAX) by (nonlinear_arith)
            requires
                len <= 0xffff_ffff_ffff_ffff,
                factor <= 0x1_0000_0000,
        ;
        len * factor
    }

    /// The retention decision that the outcomes `coins` amount to when
    /// `coin_flips` coins are to be flipped for a value: the value is kept
    /// only if that many coins were flipped and each of them shows `true`.
    /// Coins beyond the first `coin_flips` do not count.
    pub fn keeps(coin_flips: u32, coins: &Vec<bool>) -> (keep: bool)
        ensures
            keep <==> all_show_true(coin_flips as nat, coins@),
    {
        if coins.len() < coin_flips as usize {
            return false;
        }
        let mut index: usize = 0;
        while index < coin_flips as usize
            invariant
                index <= coin_flips <= coins@.len(),
                forall|i: int| 0 <= i < index ==> coins@[i],
            decreases coin_flips - index,
        {
            if !coins[index] {
                return false;
            }
            index = index + 1;
        }
        true
    }

    /// Flips up to `coin_flips` fair coins, stopping at the first that does
    /// not show `true`, and decides by `keeps` on what they show: the value
    /// is kept only if all `coin_flips` coins show `true`.
    ///
    /// With no coin to flip the answer is `true`; otherwise either answer may
    /// come back.
    pub fn should_keep(coin_flips: u32) -> (keep: bool)
        ensures
            coin_flips == 0 ==> keep,
    {
        let coins = draw_until_false(coin_flips);
        Self::keeps(coin_flips, &coins)
    }

    /// Applies the retention decision `keep` to `value`: the value joins the
    /// sample if it is kept and leaves it if not. No sweep follows; the
    /// result tells whether one is due.
    pub fn record(&mut self, value: T, keep: bool) -> (full: bool)
        requires
            old(self).wf(),
        ensures
            final(self).wf(),
            final(self)@ == old(self)@.record(value, keep),
            full == final(self)@.is_full(),
    {
        if keep {
            self.memory.insert(value);
        } else {
            self.memory.remove(&value);
        }
        self.memory.len() >= self.capacity
    }

    /// Thins the sample with the given outcomes: each element is paired with
    /// one of the first coins, in the order in which the sample hands its
    /// elements out, and stays only if its coin shows `true`. Then one more
    /// round is counted.
    ///
    /// Which element meets which coin is not fixed, so the contract states
    /// what holds of every pairing: nothing joins the sample, and as many
    /// elements stay as coins show `true`.
    pub fn sweep_with(&mut self, coins: &Vec<bool>)
        requires
            old(self).wf(),
            coins@.len() >= old(self)@.memory.len(),
        ensures
            final(self).wf(),
            old(self)@.sweeps_to(coins@, final(self)@),
    {
        let mut kept: HashSet<T> = HashSet::new();
        let mut index: usize = 0;
        let ghost order = self.memory.iter().remaining();
        assert(self.memory@.len() == self.memory.len());
        for element in iter: self.memory.iter()
            invariant
                obeys_key_model::<T>(),
                iter.seq() == order,
                order.no_duplicates(),
                order.unref().to_set() == self.memory@,
                order.len() == self.memory@.len(),
                order.len() <= usize::MAX,
                coins@.len() >= order.len(),
                index == iter.index(),
                kept@.finite(),
                kept@.subset_of(self.memory@),
                kept@.len() == count_true(coins@.take(index as int)),
                forall|later: int| index <= later < order.len() ==> !kept@.contains(*order[later]),
        {
            assert(coins@.take(index + 1).drop_last() == coins@.take(index as int));
            assert(order.unref()[index as int] == *element);
            if coins[index] {
                kept.insert(*element);
            }
            index = index + 1;
        }
        assert(coins@.take(index as int) == coins@.take(self.memory@.len() as int));
        assert(kept@.len() == kept.len());
        self.memory = kept;
        self.rounds = if self.rounds < u32::MAX {
            self.rounds + 1
        } else {
            self.rounds
        };
    }

    /// Thins the sample: each element stays with probability one half,
    /// decided by a fair coin of its own. Then one more round is counted.
    pub fn sweep(&mut self)
        requires
            old(self).wf(),
        ensures
            final(self).wf(),
            old(self)@.thins_to(final(self)@),
    {
        let coins = draw(self.memory.len());
        self.sweep_with(&coins);
    }

    /// Observes `value` with the retention decision `keep` and, if the sample
    /// is then full, sweeps it with the outcomes `coins`.
    pub fn add_with(&mut self, value: T, keep: bool, coins: &Vec<bool>)
        requires
            old(self).wf(),
            coins@.len() > old(self)@.memory.len(),
        ensures
            final(self).wf(),
            old(self)@.adds_with(value, keep, coins@, final(self)@),
    {
        if self.record(value, keep) {
            self.sweep_with(coins);
        }
    }

    /// Observes `value` with the outcomes `flips` for the retention decision
    /// and `coins` for the sweep: the value is kept only if as many of `flips`
    /// as there were sweeps so far are there and show `true`, and the sample,
    /// if it is then full, is swept with `coins`.
    pub fn add_with_flips(&mut self, value: T, flips: &Vec<bool>, coins: &Vec<bool>)
        requires
            old(self).wf(),
            coins@.len() > old(self)@.memory.len(),
        ensures
            final(self).wf(),
            old(self)@.adds_with(
                value,
                all_show_true(old(self)@.rounds, flips@),
                coins@,
                final(self)@,
            ),
    {
        let keep = Self::keeps(self.rounds, flips);
        self.add_with(value, keep, coins);
    }

    /// Observes `value`. Before the first sweep the value joins the sample.
    /// After `r` sweeps it joins with probability two to the minus `r`, and
    /// leaves the sample otherwise. If the sample is then full, it is swept.
    pub fn add(&mut self, value: T)
        requires
            old(self).wf(),
        ensures
            final(self).wf(),
            old(self)@.may_add(value, final(self)@),
    {
        let keep = Self::should_keep(self.rounds);
        if self.record(value, keep) {
            self.sweep();
        }
    }

    /// Observes the elements of `items`, in order.
    pub fn extend(&mut self, items: &[T])
        requires
            old(self).wf(),
        ensures
            final(self).wf(),
            old(self)@.reaches(items@, final(self)@),
    {
        let ghost start = self@;
        let mut index: usize = 0;
        proof {
            lemma_reaches_itself(start);
            assert(items@.take(0) == Seq::<T>::empty());
        }
        while index < items.len()
            invariant
                index <= items@.len(),
                self.wf(),
                start.reaches(items@.take(index as int), self@),
            decreases items@.len() - index,
        {
            let ghost before = self@;
            self.add(items[index]);
            proof {
                lemma_reaches_one_more(
                    start,
                    items@.take(index as int),
                    before,
                    items@[index as int],
                    self@,
                );
                assert(items@.take(index as int).push(items@[index as int]) == items@.take(
                    index + 1,
                ));
            }
            index = index + 1;
        }
        assert(items@.take(index as int) == items@);
    }
}

} // verus!
