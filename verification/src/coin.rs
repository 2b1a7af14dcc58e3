//! The source of fair coins.

use vstd::prelude::*;

verus! {

/// One coin from `rand::random::<bool>()`, which draws from the generator of
/// the calling thread and returns each of `false` and `true` with probability
/// one half.
///
/// Nothing is claimed of the outcome: either value may come back, and two
/// flips may differ. That the coin is fair is what the estimate's accuracy
/// rests on; no contract here states it. The generator takes a seed from the
/// operating system on a thread's first flip, and a new one whenever it has
/// given out its share of output or the process has forked; a flip that needs
/// a seed does not return if the system has none to give.
#[verifier::external_body]
pub(crate) fn flip() -> (coin: bool) {
    rand::random()
}

/// How many of `coins` show `true`.
pub open spec fn count_true(coins: Seq<bool>) -> nat
    decreases coins.len(),
{
    if coins.len() == 0 {
        0
    } else {
        count_true(coins.drop_last()) + if coins.last() {
            1nat
        } else {
            0nat
        }
    }
}

/// At least `count` coins are there, and each of the first `count` shows
/// `true`.
pub open spec fn all_show_true(count: nat, coins: Seq<bool>) -> bool {
    &&& count <= coins.len()
    &&& forall|i: int| 0 <= i < count ==> coins[i]
}

/// Flips fair coins until one shows `false` or `limit` coins have been
/// flipped, and returns their outcomes in the order flipped.
///
/// Whatever the coins show, no coin but the last shows `false`, and fewer
/// than `limit` coins are flipped only if the last shows `false`.
pub(crate) fn draw_until_false(limit: u32) -> (coins: Vec<bool>)
    ensures
        coins@.len() <= limit,
        forall|i: int| 0 <= i < coins@.len() - 1 ==> coins@[i],
        coins@.len() < limit ==> coins@.len() > 0 && !coins@.last(),
{
    let mut coins: Vec<bool> = Vec::new();
    let mut flipped: u32 = 0;
    while flipped < limit
        invariant
            flipped <= limit,
            coins@.len() == flipped,
            forall|i: int| 0 <= i < coins@.len() ==> coins@[i],
        decreases limit - flipped,
    {
        let coin = flip();
        coins.push(coin);
        if !coin {
            return coins;
        }
        flipped = flipped + 1;
    }
    coins
}

/// Flips `count` fair coins and returns their outcomes in the order flipped.
pub(crate) fn draw(count: usize) -> (coins: Vec<bool>)
    ensures
        coins@.len() == count,
{
    let mut coins: Vec<bool> = Vec::new();
    while coins.len() < count
        invariant
            coins@.len() <= count,
        decreases count - coins@.len(),
    {
        coins.push(flip());
    }
    coins
}

} // verus!
