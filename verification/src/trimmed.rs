//! The trimmed mean: the mean of a sample without its smallest and its
//! largest value.

use vstd::arithmetic::div_mod::{
    lemma_div_is_ordered, lemma_div_multiples_vanish, lemma_fundamental_div_mod,
    lemma_hoist_over_denominator,
};
use vstd::prelude::*;

verus! {

/// The sum of `values`.
pub open spec fn total(values: Seq<nat>) -> nat
    decreases values.len(),
{
    if values.len() == 0 {
        0
    } else {
        total(values.drop_last()) + values.last()
    }
}

/// The smallest of `values`; zero if there is none.
pub open spec fn smallest(values: Seq<nat>) -> nat
    decreases values.len(),
{
    if values.len() == 0 {
        0
    } else if values.len() == 1 {
        values[0]
    } else {
        let rest = smallest(values.drop_last());
        if values.last() < rest {
            values.last()
        } else {
            rest
        }
    }
}

/// The largest of `values`; zero if there is none.
pub open spec fn largest(values: Seq<nat>) -> nat
    decreases values.len(),
{
    if values.len() == 0 {
        0
    } else {
        let rest = largest(values.drop_last());
        if values.last() > rest {
            values.last()
        } else {
            rest
        }
    }
}

/// The mean, rounded down, of what is left of `values` when one occurrence
/// of the smallest value and one of the largest are taken away.
pub open spec fn trimmed_mean_of(values: Seq<nat>) -> nat
    recommends
        values.len() >= 3,
{
    ((total(values) - smallest(values) - largest(values)) / (values.len() - 2)) as nat
}

/// The machine values of `values` as natural numbers.
pub open spec fn as_nats(values: Seq<u128>) -> Seq<nat> {
    values.map_values(|v: u128| v as nat)
}

/// The smallest value is one of the values and none is below it.
pub proof fn lemma_smallest(values: Seq<nat>)
    requires
        values.len() > 0,
    ensures
        exists|i: int| 0 <= i < values.len() && values[i] == smallest(values),
        forall|i: int| 0 <= i < values.len() ==> smallest(values) <= values[i],
    decreases values.len(),
{
    if values.len() == 1 {
        assert(values[0] == smallest(values));
    } else {
        let front = values.drop_last();
        lemma_smallest(front);
        let at = choose|i: int| 0 <= i < front.len() && front[i] == smallest(front);
        if values.last() < smallest(front) {
            assert(values[values.len() - 1] == smallest(values));
        } else {
            assert(values[at] == smallest(values));
        }
        assert forall|i: int| 0 <= i < values.len() implies smallest(values) <= values[i] by {
            if i < front.len() {
                assert(front[i] == values[i]);
            }
        }
    }
}

/// The largest value is one of the values and none is above it.
pub proof fn lemma_largest(values: Seq<nat>)
    requires
        values.len() > 0,
    ensures
        exists|i: int| 0 <= i < values.len() && values[i] == largest(values),
        forall|i: int| 0 <= i < values.len() ==> largest(values) >= values[i],
    decreases values.len(),
{
    let front = values.drop_last();
    if values.len() == 1 {
        assert(largest(front) == 0);
        assert(values[0] == largest(values));
    } else {
        lemma_largest(front);
        let at = choose|i: int| 0 <= i < front.len() && front[i] == largest(front);
        if values.last() > largest(front) {
            assert(values[values.len() - 1] == largest(values));
        } else {
            assert(values[at] == largest(values));
        }
        assert forall|i: int| 0 <= i < values.len() implies largest(values) >= values[i] by {
            if i < front.len() {
                assert(front[i] == values[i]);
            }
        }
    }
}

/// The largest quotient that one machine value can leave when divided by
/// `divisor`.
spec fn most_per_value(divisor: nat) -> nat {
    u128::MAX as nat / divisor
}

/// The sum of a prefix grows by the element that the prefix grows by.
proof fn lemma_total_step(values: Seq<nat>, end: int)
    requires
        0 <= end < values.len(),
    ensures
        total(values.take(end + 1)) == total(values.take(end)) + values[end],
{
    assert(values.take(end + 1).drop_last() == values.take(end));
}

/// What one more value does to the running quotient and remainder, and why
/// neither can overflow while at most `divisor` values have gone in.
proof fn lemma_accumulate(
    divisor: nat,
    count: nat,
    quotients: nat,
    remainders: nat,
    value: nat,
)
    requires
        0 < divisor <= usize::MAX,
        count < divisor,
        value <= u128::MAX,
        quotients <= count * most_per_value(divisor as nat),
        remainders <= count * (divisor - 1),
    ensures
        quotients + value / divisor <= (count + 1) * most_per_value(divisor as nat),
        quotients + value / divisor <= u128::MAX,
        remainders + value % divisor <= (count + 1) * (divisor - 1),
        remainders + value % divisor <= u128::MAX,
        divisor * (quotients + value / divisor) + (remainders + value % divisor) == divisor
            * quotients + remainders + value,
{
    let d = divisor as int;
    let bound = most_per_value(divisor) as int;
    lemma_div_is_ordered(value as int, u128::MAX as int, d);
    lemma_fundamental_div_mod(value as int, d);
    lemma_fundamental_div_mod(u128::MAX as int, d);
    assert(0 <= value % divisor < divisor);
    assert(0 <= (u128::MAX as int) % d);
    assert((count + 1) * bound == count * bound + bound) by (nonlinear_arith);
    assert((count + 1) * bound <= d * bound) by (nonlinear_arith)
        requires
            count + 1 <= d,
            bound >= 0,
    ;
    assert((count + 1) * (d - 1) == count * (d - 1) + (d - 1)) by (nonlinear_arith);
    assert((count + 1) * (d - 1) <= 0xffff_ffff_ffff_ffff * 0xffff_ffff_ffff_ffff)
        by (nonlinear_arith)
        requires
            0 <= count + 1 <= d,
            0 < d <= 0xffff_ffff_ffff_ffff,
    ;
    assert(d * (quotients + value as int / d) == d * quotients + d * (value as int / d))
        by (nonlinear_arith);
}

/// The position of a smallest value.
fn position_of_smallest(values: &[u128]) -> (at: usize)
    requires
        values@.len() > 0,
    ensures
        at < values@.len(),
        forall|i: int| 0 <= i < values@.len() ==> values@[at as int] <= values@[i],
{
    let mut at: usize = 0;
    let mut index: usize = 1;
    while index < values.len()
        invariant
            at < index <= values@.len(),
            forall|i: int| 0 <= i < index ==> values@[at as int] <= values@[i],
        decreases values@.len() - index,
    {
        if values[index] < values[at] {
            at = index;
        }
        index = index + 1;
    }
    at
}

/// The position of a largest value among those not at `skip`.
fn position_of_largest_beside(values: &[u128], skip: usize) -> (at: usize)
    requires
        values@.len() > 1,
        skip < values@.len(),
    ensures
        at < values@.len(),
        at != skip,
        forall|i: int| 0 <= i < values@.len() && i != skip ==> values@[at as int] >= values@[i],
{
    let mut at: usize = if skip == 0 {
        1
    } else {
        0
    };
    let mut index: usize = 0;
    while index < values.len()
        invariant
            at < values@.len(),
            at != skip,
            skip < values@.len(),
            index <= values@.len(),
            forall|i: int| 0 <= i < index && i != skip ==> values@[at as int] >= values@[i],
        decreases values@.len() - index,
    {
        if index != skip && values[index] > values[at] {
            at = index;
        }
        index = index + 1;
    }
    at
}

/// The trimmed mean of `values`: one occurrence of the smallest value and one
/// of the largest are set aside, and the mean of the rest is rounded down.
/// There is no such mean of fewer than three values.
pub fn trimmed_mean(values: &[u128]) -> (mean: Option<u128>)
    ensures
        mean is None <==> values@.len() < 3,
        mean matches Some(m) ==> m == trimmed_mean_of(as_nats(values@)),
{
    if values.len() < 3 {
        return None;
    }
    let low = position_of_smallest(values);
    let high = position_of_largest_beside(values, low);
    let divisor: u128 = (values.len() - 2) as u128;
    let ghost nats = as_nats(values@);
    let ghost mut count: nat = 0;
    let mut quotients: u128 = 0;
    let mut remainders: u128 = 0;
    let mut index: usize = 0;
    while index < values.len()
        invariant
            index <= values@.len(),
            nats == as_nats(values@),
            low < values@.len(),
            high < values@.len(),
            low != high,
            divisor == values@.len() - 2,
            0 < divisor <= usize::MAX,
            count == index - (if low < index {
                1int
            } else {
                0int
            }) - (if high < index {
                1int
            } else {
                0int
            }),
            quotients <= count * most_per_value(divisor as nat),
            remainders <= count * (divisor - 1),
            divisor * quotients + remainders == total(nats.take(index as int)) - (if low < index {
                nats[low as int]
            } else {
                0nat
            }) - (if high < index {
                nats[high as int]
            } else {
                0nat
            }),
            divisor * quotients + remainders <= count * u128::MAX,
        decreases values@.len() - index,
    {
        proof {
            lemma_total_step(nats, index as int);
        }
        if index != low && index != high {
            let value = values[index];
            proof {
                lemma_accumulate(
                    divisor as nat,
                    count,
                    quotients as nat,
                    remainders as nat,
                    value as nat,
                );
                assert((count + 1) * u128::MAX == count * u128::MAX + u128::MAX)
                    by (nonlinear_arith);
                count = count + 1;
            }
            quotients = quotients + value / divisor;
            remainders = remainders + value % divisor;
        }
        index = index + 1;
    }
    proof {
        let d = divisor as int;
        let rest = total(nats) - nats[low as int] - nats[high as int];
        assert(nats.take(index as int) == nats);
        assert(count == divisor);
        lemma_smallest(nats);
        lemma_largest(nats);
        assert(nats[low as int] == smallest(nats));
        assert(nats[high as int] == largest(nats)) by {
            assert forall|i: int| 0 <= i < nats.len() implies nats[high as int] >= nats[i] by {
                if i == low {
                    assert(nats[low as int] <= nats[high as int]);
                }
            }
        }
        lemma_hoist_over_denominator(remainders as int, quotients as int, divisor as nat);
        assert(quotients * d == d * quotients) by (nonlinear_arith);
        assert(quotients + remainders as int / d == rest / d);
        lemma_div_is_ordered(rest, d * u128::MAX, d);
        lemma_div_multiples_vanish(u128::MAX as int, d);
    }
    Some(quotients + remainders / divisor)
}

/// The values are in ascending order.
pub open spec fn ascending(values: Seq<nat>) -> bool {
    forall|i: int, j: int| 0 <= i <= j < values.len() ==> values[i] <= values[j]
}

/// The sum is the first value plus the sum of the rest.
proof fn lemma_total_from_front(values: Seq<nat>)
    requires
        values.len() > 0,
    ensures
        total(values) == values[0] + total(values.drop_first()),
    decreases values.len(),
{
    if values.len() == 1 {
        assert(values.drop_first() == values.drop_last());
        assert(total(values.drop_last()) == 0);
    } else {
        lemma_total_from_front(values.drop_last());
        assert(values.drop_last().drop_first() == values.drop_first().drop_last());
    }
}

/// The sum is the value at `at` plus the sum of the others.
proof fn lemma_total_without(values: Seq<nat>, at: int)
    requires
        0 <= at < values.len(),
    ensures
        total(values) == values[at] + total(values.remove(at)),
    decreases values.len(),
{
    if at == values.len() - 1 {
        assert(values.remove(at) == values.drop_last());
    } else {
        lemma_total_without(values.drop_last(), at);
        assert(values.drop_last().remove(at) == values.remove(at).drop_last());
    }
}

/// The sum does not depend on the order of the values.
pub proof fn lemma_total_of_rearranged(values: Seq<nat>, rearranged: Seq<nat>)
    requires
        values.to_multiset() == rearranged.to_multiset(),
    ensures
        total(values) == total(rearranged),
    decreases values.len(),
{
    broadcast use vstd::seq_lib::to_multiset_len;

    assert(values.len() == rearranged.len()) by {
        assert(values.to_multiset().len() == values.len());
        assert(rearranged.to_multiset().len() == rearranged.len());
    }
    if values.len() > 0 {
        let front = values.drop_last();
        let value = values.last();
        assert(front.push(value) == values);
        vstd::seq_lib::to_multiset_build(front, value);
        vstd::seq_lib::to_multiset_contains(rearranged, value);
        let at = choose|i: int| 0 <= i < rearranged.len() && rearranged[i] == value;
        vstd::seq_lib::to_multiset_remove(rearranged, at);
        assert(front.to_multiset() =~= rearranged.remove(at).to_multiset());
        lemma_total_of_rearranged(front, rearranged.remove(at));
        lemma_total_without(rearranged, at);
    }
}

/// The smallest and the largest value do not depend on the order of the
/// values.
pub proof fn lemma_extremes_of_rearranged(values: Seq<nat>, rearranged: Seq<nat>)
    requires
        values.to_multiset() == rearranged.to_multiset(),
    ensures
        smallest(values) == smallest(rearranged),
        largest(values) == largest(rearranged),
{
    broadcast use vstd::seq_lib::to_multiset_len;

    assert(values.len() == rearranged.len()) by {
        assert(values.to_multiset().len() == values.len());
        assert(rearranged.to_multiset().len() == rearranged.len());
    }
    if values.len() > 0 {
        lemma_smallest(values);
        lemma_smallest(rearranged);
        lemma_largest(values);
        lemma_largest(rearranged);
        assert forall|i: int| 0 <= i < values.len() implies exists|j: int|
            0 <= j < rearranged.len() && rearranged[j] == #[trigger] values[i] by {
            vstd::seq_lib::to_multiset_contains(values, values[i]);
            vstd::seq_lib::to_multiset_contains(rearranged, values[i]);
        }
        assert forall|j: int| 0 <= j < rearranged.len() implies exists|i: int|
            0 <= i < values.len() && values[i] == #[trigger] rearranged[j] by {
            vstd::seq_lib::to_multiset_contains(values, rearranged[j]);
            vstd::seq_lib::to_multiset_contains(rearranged, rearranged[j]);
        }
    }
}

/// The trimmed mean is what its name says of the values in ascending order:
/// the mean, rounded down, of all but the first and the last.
pub proof fn lemma_trimmed_mean_of_sorted(values: Seq<nat>, sorted: Seq<nat>)
    requires
        values.len() >= 3,
        values.to_multiset() == sorted.to_multiset(),
        ascending(sorted),
    ensures
        sorted.len() == values.len(),
        trimmed_mean_of(values) == total(sorted.subrange(1, sorted.len() - 1)) / (sorted.len()
            - 2) as nat,
{
    broadcast use vstd::seq_lib::to_multiset_len;

    assert(values.len() == sorted.len()) by {
        assert(values.to_multiset().len() == values.len());
        assert(sorted.to_multiset().len() == sorted.len());
    }
    lemma_total_of_rearranged(values, sorted);
    lemma_extremes_of_rearranged(values, sorted);
    lemma_smallest(sorted);
    lemma_largest(sorted);
    let last = sorted.len() - 1;
    assert(smallest(sorted) == sorted[0]);
    assert(largest(sorted) == sorted[last]);
    lemma_total_from_front(sorted.drop_last());
    assert(sorted.drop_last().drop_first() == sorted.subrange(1, last));
}

/// The trimmed mean of values that are all the same is that value.
pub proof fn lemma_trimmed_mean_of_equal_values(values: Seq<nat>, value: nat)
    requires
        values.len() >= 3,
        forall|i: int| 0 <= i < values.len() ==> values[i] == value,
    ensures
        trimmed_mean_of(values) == value,
{
    lemma_smallest(values);
    lemma_largest(values);
    lemma_total_of_equal_values(values, value);
    let divisor = values.len() - 2;
    assert(values.len() * value - value - value == divisor * value) by (nonlinear_arith)
        requires
            divisor == values.len() - 2,
    ;
    lemma_div_multiples_vanish(value as int, divisor);
}

/// The sum of values that are all the same is that value times their number.
proof fn lemma_total_of_equal_values(values: Seq<nat>, value: nat)
    requires
        forall|i: int| 0 <= i < values.len() ==> values[i] == value,
    ensures
        total(values) == values.len() * value,
    decreases values.len(),
{
    if values.len() > 0 {
        let front = values.drop_last();
        assert forall|i: int| 0 <= i < front.len() implies front[i] == value by {
            assert(front[i] == values[i]);
        }
        lemma_total_of_equal_values(front, value);
        assert(values.len() * value == front.len() * value + value) by (nonlinear_arith)
            requires
                values.len() == front.len() + 1,
        ;
    }
}

/// The sum of values that all lie between `low` and `high` lies between
/// their number times `low` and their number times `high`.
proof fn lemma_total_between(values: Seq<nat>, low: nat, high: nat)
    requires
        forall|i: int| #![trigger values[i]] 0 <= i < values.len() ==> low <= values[i] <= high,
    ensures
        values.len() * low <= total(values) <= values.len() * high,
    decreases values.len(),
{
    if values.len() > 0 {
        let front = values.drop_last();
        assert forall|i: int| #![trigger front[i]] 0 <= i < front.len() implies low
            <= front[i] <= high by {
            assert(front[i] == values[i]);
        }
        lemma_total_between(front, low, high);
        assert(values.len() * low == front.len() * low + low) by (nonlinear_arith)
            requires
                values.len() == front.len() + 1,
        ;
        assert(values.len() * high == front.len() * high + high) by (nonlinear_arith)
            requires
                values.len() == front.len() + 1,
        ;
    }
}

/// The trimmed mean lies between the smallest and the largest value.
pub proof fn lemma_trimmed_mean_within_extremes(values: Seq<nat>)
    requires
        values.len() >= 3,
    ensures
        smallest(values) <= trimmed_mean_of(values) <= largest(values),
{
    let low = smallest(values);
    let high = largest(values);
    let divisor = values.len() - 2;
    lemma_smallest(values);
    lemma_largest(values);
    let at_low = choose|i: int| 0 <= i < values.len() && values[i] == low;
    let at_high = choose|i: int| 0 <= i < values.len() && values[i] == high;
    let beside_low = values.remove(at_low);
    let beside_high = values.remove(at_high);
    lemma_total_without(values, at_low);
    lemma_total_without(values, at_high);
    assert forall|i: int| #![trigger beside_low[i]] 0 <= i < beside_low.len() implies low
        <= beside_low[i] <= high by {
        if i < at_low {
            assert(beside_low[i] == values[i]);
        } else {
            assert(beside_low[i] == values[i + 1]);
        }
    }
    assert forall|i: int| #![trigger beside_high[i]] 0 <= i < beside_high.len() implies low
        <= beside_high[i] <= high by {
        if i < at_high {
            assert(beside_high[i] == values[i]);
        } else {
            assert(beside_high[i] == values[i + 1]);
        }
    }
    lemma_total_between(beside_low, low, high);
    lemma_total_between(beside_high, low, high);
    let rest = total(values) - low - high;
    assert(divisor * low <= rest <= divisor * high) by (nonlinear_arith)
        requires
            divisor == values.len() - 2,
            beside_low.len() == values.len() - 1,
            beside_high.len() == values.len() - 1,
            total(values) == low + total(beside_low),
            total(values) == high + total(beside_high),
            beside_high.len() * low <= total(beside_high),
            total(beside_low) <= beside_low.len() * high,
            rest == total(values) - low - high,
    ;
    lemma_div_is_ordered(divisor * low, rest, divisor);
    lemma_div_is_ordered(rest, divisor * high, divisor);
    lemma_div_multiples_vanish(low as int, divisor);
    lemma_div_multiples_vanish(high as int, divisor);
}

} // verus!
