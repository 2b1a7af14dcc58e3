//! What holds of every run of an estimator, whatever the coins show.

use vstd::prelude::*;
use vstd::set_lib::{lemma_len_subset, lemma_subset_equality};

use crate::coin::{all_show_true, count_true};
use crate::sketch::Sketch;

verus! {

/// The set of a prefix grows by the element that the prefix grows by.
proof fn lemma_prefix_set_step<T>(items: Seq<T>, end: int)
    requires
        0 <= end < items.len(),
    ensures
        items.take(end + 1).to_set() == items.take(end).to_set().insert(items[end]),
{
    let longer = items.take(end + 1);
    let shorter = items.take(end);
    assert forall|x: T| longer.to_set().contains(x) <==> shorter.to_set().insert(
        items[end],
    ).contains(x) by {
        if longer.to_set().contains(x) {
            let at = choose|i: int| 0 <= i < longer.len() && longer[i] == x;
            if at < end {
                assert(shorter[at] == x);
            }
        }
        if shorter.to_set().contains(x) {
            let at = choose|i: int| 0 <= i < shorter.len() && shorter[i] == x;
            assert(longer[at] == x);
        }
        if x == items[end] {
            assert(longer[end] == x);
        }
    }
    assert(longer.to_set() =~= shorter.to_set().insert(items[end]));
}

/// One observation leaves the capacity as it was, counts at most one more
/// round and never fewer, and lets nothing but the observed value join the
/// sample.
pub proof fn lemma_one_observation<T>(pre: Sketch<T>, value: T, post: Sketch<T>)
    requires
        pre.may_add(value, post),
    ensures
        post.capacity == pre.capacity,
        pre.rounds <= post.rounds <= pre.rounds + 1,
        post.memory.subset_of(pre.memory.insert(value)),
{
}

/// What `lemma_one_observation` says, carried along a trace up to the state
/// after `upto` observations.
proof fn lemma_along_trace<T>(pre: Sketch<T>, items: Seq<T>, trace: Seq<Sketch<T>>, upto: int)
    requires
        pre.follows(items, trace),
        0 <= upto <= items.len(),
    ensures
        trace[upto].capacity == pre.capacity,
        pre.rounds <= trace[upto].rounds <= pre.rounds + upto,
        trace[upto].memory.subset_of(pre.memory + items.take(upto).to_set()),
    decreases upto,
{
    if upto > 0 {
        lemma_along_trace(pre, items, trace, upto - 1);
        assert(trace[upto - 1].may_add(items[upto - 1], trace[upto]));
        lemma_one_observation(trace[upto - 1], items[upto - 1], trace[upto]);
        lemma_prefix_set_step(items, upto - 1);
    }
}

/// The number of rounds never decreases, over any sequence of observations.
pub proof fn lemma_rounds_never_decrease<T>(pre: Sketch<T>, items: Seq<T>, post: Sketch<T>)
    requires
        pre.reaches(items, post),
    ensures
        pre.rounds <= post.rounds,
{
    let trace = choose|trace: Seq<Sketch<T>>| #[trigger]
        pre.follows(items, trace) && trace.last() == post;
    lemma_along_trace(pre, items, trace, items.len() as int);
}

/// Over any sequence of observations the capacity stays as it was, at most
/// one round is counted for each observation, and the sample holds only
/// elements that it held before or that were observed.
pub proof fn lemma_sample_holds_only_observed<T>(pre: Sketch<T>, items: Seq<T>, post: Sketch<T>)
    requires
        pre.reaches(items, post),
    ensures
        post.capacity == pre.capacity,
        post.rounds <= pre.rounds + items.len(),
        post.memory.subset_of(pre.memory + items.to_set()),
{
    let trace = choose|trace: Seq<Sketch<T>>| #[trigger]
        pre.follows(items, trace) && trace.last() == post;
    lemma_along_trace(pre, items, trace, items.len() as int);
    assert(items.take(items.len() as int) == items);
}

/// While everything observed fits below the capacity, a trace that starts
/// before the first sweep holds exactly what was observed, and no sweep
/// happens.
proof fn lemma_exact_along_trace<T>(
    pre: Sketch<T>,
    items: Seq<T>,
    trace: Seq<Sketch<T>>,
    upto: int,
)
    requires
        pre.follows(items, trace),
        0 <= upto <= items.len(),
        pre.rounds == 0,
        pre.memory.finite(),
        (pre.memory + items.to_set()).len() < pre.capacity,
    ensures
        trace[upto] == (Sketch {
            memory: pre.memory + items.take(upto).to_set(),
            ..pre
        }),
    decreases upto,
{
    if upto == 0 {
        assert(items.take(0).to_set() =~= Set::<T>::empty());
        assert(pre.memory + items.take(0).to_set() =~= pre.memory);
    } else {
        lemma_exact_along_trace(pre, items, trace, upto - 1);
        let before = trace[upto - 1];
        let value = items[upto - 1];
        assert(before.may_add(value, trace[upto]));
        lemma_prefix_set_step(items, upto - 1);
        let recorded = before.record(value, true);
        let everything = pre.memory + items.to_set();
        assert(recorded.memory =~= pre.memory + items.take(upto).to_set());
        assert(recorded.memory.subset_of(everything)) by {
            assert forall|x: T| recorded.memory.contains(x) implies everything.contains(x) by {
                if items.take(upto).to_set().contains(x) {
                    let at = choose|i: int| 0 <= i < upto && items.take(upto)[i] == x;
                    assert(items[at] == x);
                }
            }
        }
        lemma_len_subset(recorded.memory, everything);
    }
}

/// Below capacity the estimator counts exactly. If an estimator that has
/// not swept yet observes elements which, together with its sample, number
/// fewer than its capacity, then it does not sweep, its sample holds exactly
/// these elements, and its estimate is their number.
pub proof fn lemma_exact_below_capacity<T>(pre: Sketch<T>, items: Seq<T>, post: Sketch<T>)
    requires
        pre.reaches(items, post),
        pre.rounds == 0,
        pre.memory.finite(),
        (pre.memory + items.to_set()).len() < pre.capacity,
    ensures
        post.capacity == pre.capacity,
        post.rounds == 0,
        post.memory == pre.memory + items.to_set(),
        post.estimate() == (pre.memory + items.to_set()).len(),
{
    let trace = choose|trace: Seq<Sketch<T>>| #[trigger]
        pre.follows(items, trace) && trace.last() == post;
    lemma_exact_along_trace(pre, items, trace, items.len() as int);
    assert(items.take(items.len() as int) == items);
    vstd::arithmetic::power2::lemma2_to64();
    assert(post.estimate() == post.memory.len() * 1);
}

/// A new estimator that observes fewer distinct elements than its capacity
/// holds each of them, and its estimate is their number.
pub proof fn lemma_distinct_elements_are_counted<T>(
    capacity: nat,
    items: Seq<T>,
    post: Sketch<T>,
)
    requires
        Sketch::<T>::fresh(capacity).reaches(items, post),
        items.no_duplicates(),
        items.len() < capacity,
    ensures
        post.rounds == 0,
        post.memory == items.to_set(),
        post.memory.len() == items.len(),
        post.estimate() == items.len(),
{
    let pre = Sketch::<T>::fresh(capacity);
    items.unique_seq_to_set();
    assert(pre.memory + items.to_set() =~= items.to_set());
    lemma_exact_below_capacity(pre, items, post);
}

/// A new estimator with room for more than one element that observes one
/// value, any number of times, holds that value and nothing else.
pub proof fn lemma_duplicates_collapse<T>(
    capacity: nat,
    value: T,
    copies: nat,
    post: Sketch<T>,
)
    requires
        Sketch::<T>::fresh(capacity).reaches(Seq::new(copies, |i: int| value), post),
        copies > 0,
        capacity > 1,
    ensures
        post.memory == set![value],
        post.memory.len() == 1,
        post.estimate() == 1,
{
    let pre = Sketch::<T>::fresh(capacity);
    let items = Seq::new(copies, |i: int| value);
    assert(items.to_set() =~= set![value]) by {
        assert(items[0] == value);
    }
    assert(pre.memory + items.to_set() =~= set![value]);
    lemma_exact_below_capacity(pre, items, post);
}

/// A new estimator estimates zero.
pub proof fn lemma_fresh_estimate_is_zero<T>(capacity: nat)
    ensures
        Sketch::<T>::fresh(capacity).estimate() == 0,
{
}

/// No more coins show `true` than there are coins; all do if each does, and
/// none does if none does.
pub proof fn lemma_count_true(coins: Seq<bool>)
    ensures
        count_true(coins) <= coins.len(),
        (forall|i: int| 0 <= i < coins.len() ==> coins[i]) ==> count_true(coins) == coins.len(),
        (forall|i: int| 0 <= i < coins.len() ==> !coins[i]) ==> count_true(coins) == 0,
    decreases coins.len(),
{
    if coins.len() > 0 {
        let front = coins.drop_last();
        lemma_count_true(front);
        if forall|i: int| 0 <= i < coins.len() ==> coins[i] {
            assert forall|i: int| 0 <= i < front.len() implies front[i] by {
                assert(coins[i]);
            }
        }
        if forall|i: int| 0 <= i < coins.len() ==> !coins[i] {
            assert forall|i: int| 0 <= i < front.len() implies !front[i] by {
                assert(!coins[i]);
            }
        }
    }
}

/// A sweep never enlarges the sample. It leaves the sample as it was if
/// every coin shows `true`, and empty if none does.
pub proof fn lemma_sweep_outcomes<T>(pre: Sketch<T>, coins: Seq<bool>, post: Sketch<T>)
    requires
        pre.sweeps_to(coins, post),
        pre.memory.finite(),
        coins.len() >= pre.memory.len(),
    ensures
        post.memory.finite(),
        post.memory.len() <= pre.memory.len(),
        (forall|i: int| 0 <= i < pre.memory.len() ==> coins[i]) ==> post.memory == pre.memory,
        (forall|i: int| 0 <= i < pre.memory.len() ==> !coins[i]) ==> post.memory == Set::<
            T,
        >::empty(),
{
    let paired = coins.take(pre.memory.len() as int);
    lemma_count_true(paired);
    lemma_len_subset(post.memory, pre.memory);
    if forall|i: int| 0 <= i < pre.memory.len() ==> coins[i] {
        assert forall|i: int| 0 <= i < paired.len() implies paired[i] by {
            assert(coins[i]);
        }
        lemma_subset_equality(post.memory, pre.memory);
    }
    if forall|i: int| 0 <= i < pre.memory.len() ==> !coins[i] {
        assert forall|i: int| 0 <= i < paired.len() implies !paired[i] by {
            assert(!coins[i]);
        }
        post.memory.lemma_len0_is_empty();
    }
}

/// After an observation the sample is smaller than the capacity, unless the
/// observation filled it and the sweep that followed met too many coins that
/// showed `true`.
pub proof fn lemma_memory_below_capacity<T>(
    pre: Sketch<T>,
    value: T,
    keep: bool,
    coins: Seq<bool>,
    post: Sketch<T>,
)
    requires
        pre.adds_with(value, keep, coins, post),
        pre.record(value, keep).is_full() ==> count_true(
            coins.take(pre.record(value, keep).memory.len() as int),
        ) < pre.capacity,
    ensures
        post.memory.len() < post.capacity,
{
}

/// When every coin shows `true`, an observation ends in the state that
/// `retains` gives.
pub proof fn lemma_all_heads_retain<T>(pre: Sketch<T>, value: T, coins: Seq<bool>, post: Sketch<T>)
    requires
        pre.adds_with(value, true, coins, post),
        pre.memory.finite(),
        coins.len() > pre.memory.len(),
        forall|i: int| 0 <= i < coins.len() ==> coins[i],
    ensures
        post == pre.retains(value),
{
    let recorded = pre.record(value, true);
    if recorded.is_full() {
        lemma_sweep_outcomes(recorded, coins, post);
        assert(post.memory =~= recorded.memory);
    }
}

/// The state that `retains` gives is one that the observation can end in.
pub proof fn lemma_retaining_is_possible<T>(pre: Sketch<T>, value: T)
    ensures
        pre.may_add(value, pre.retains(value)),
{
}

/// When every coin shows `true`, an estimator that starts empty and
/// observes one value, any number of times, holds that value and nothing
/// else, whatever its capacity.
pub proof fn lemma_duplicates_collapse_when_retained<T>(capacity: nat, value: T, copies: nat)
    requires
        copies > 0,
    ensures
        Sketch::<T>::fresh(capacity).retains_each(Seq::new(copies, |i: int| value)).memory
            == set![value],
        Sketch::<T>::fresh(capacity).retains_each(Seq::new(copies, |i: int| value)).memory.len()
            == 1,
    decreases copies,
{
    let pre = Sketch::<T>::fresh(capacity);
    let items = Seq::new(copies, |i: int| value);
    let fewer = Seq::new((copies - 1) as nat, |i: int| value);
    assert(items.drop_last() == fewer);
    if copies == 1 {
        assert(pre.retains_each(fewer) == pre);
        assert(pre.retains(value).memory =~= set![value]);
    } else {
        lemma_duplicates_collapse_when_retained::<T>(capacity, value, (copies - 1) as nat);
        assert(pre.retains_each(fewer).retains(value).memory =~= set![value]);
    }
}

/// Of `len` coins of which the first `heads` show `true` and the others
/// `false`, `heads` show `true`.
proof fn lemma_heads_then_tails(len: nat, heads: nat)
    requires
        heads <= len,
    ensures
        count_true(Seq::new(len, |i: int| i < heads)) == heads,
    decreases len,
{
    let coins = Seq::new(len, |i: int| i < heads);
    if len > 0 {
        let front = Seq::new((len - 1) as nat, |i: int| i < heads);
        assert(coins.drop_last() == front);
        if heads == len {
            lemma_count_true(front);
        } else {
            lemma_heads_then_tails((len - 1) as nat, heads);
        }
    }
}

/// Whatever state an observation ends in, some retention decision and some
/// outcomes of the sweep's coins lead to it: the steps that take the coins as
/// arguments leave out nothing that the coins can bring about.
pub proof fn lemma_some_coins_lead_there<T>(pre: Sketch<T>, value: T, post: Sketch<T>)
    requires
        pre.may_add(value, post),
        pre.memory.finite(),
    ensures
        exists|keep: bool, coins: Seq<bool>|
            (pre.rounds == 0 ==> keep) && coins.len() == pre.record(value, keep).memory.len()
                && #[trigger] pre.adds_with(value, keep, coins, post),
{
    let keep = pre.adds_to(value, true, post);
    let recorded = pre.record(value, keep);
    let len = recorded.memory.len();
    if recorded.is_full() {
        lemma_len_subset(post.memory, recorded.memory);
        let coins = Seq::new(len, |i: int| i < post.memory.len());
        lemma_heads_then_tails(len, post.memory.len());
        assert(coins.take(len as int) == coins);
        assert(pre.adds_with(value, keep, coins, post));
    } else {
        let coins = Seq::new(len, |i: int| true);
        assert(pre.adds_with(value, keep, coins, post));
    }
}

/// Two reads of the estimate with no observation between them agree: the
/// estimate depends on the state alone.
pub proof fn lemma_estimate_reads_agree<T>(first: Sketch<T>, second: Sketch<T>)
    requires
        first == second,
    ensures
        first.estimate() == second.estimate(),
{
}

/// Whatever the coins given to an observation show, it ends in a state that
/// an observation with coins of its own can end in: before the first sweep no
/// coin is asked, and the value is kept.
pub proof fn lemma_given_coins_are_possible<T>(
    pre: Sketch<T>,
    value: T,
    flips: Seq<bool>,
    coins: Seq<bool>,
    post: Sketch<T>,
)
    requires
        pre.adds_with(value, all_show_true(pre.rounds, flips), coins, post),
    ensures
        pre.may_add(value, post),
{
}

/// The retention decision counts the coins that show `true`: a value is
/// kept exactly if the coins asked for are there and all of them are counted.
pub proof fn lemma_all_show_true_counts(count: nat, coins: Seq<bool>)
    requires
        count <= coins.len(),
    ensures
        all_show_true(count, coins) <==> count_true(coins.take(count as int)) == count,
    decreases count,
{
    let asked = coins.take(count as int);
    lemma_count_true(asked);
    if count > 0 {
        let fewer = (count - 1) as nat;
        lemma_all_show_true_counts(fewer, coins);
        lemma_count_true(coins.take(fewer as int));
        assert(asked.drop_last() == coins.take(fewer as int));
        assert(asked.last() == coins[count - 1]);
        if all_show_true(count, coins) {
            assert forall|i: int| 0 <= i < asked.len() implies asked[i] by {
                assert(coins[i]);
            }
        }
    }
}

} // verus!
