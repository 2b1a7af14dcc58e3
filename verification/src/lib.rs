//! Streaming estimation of the number of distinct elements in a sequence.
//!
//! An estimator keeps a bounded sample of the elements it has observed and a
//! count of the rounds of thinning that the sample has gone through. Each
//! round halves the probability with which an element stays in the sample, so
//! the size of the sample times two to the number of rounds estimates the
//! number of distinct elements observed.
//!
//! Every random decision is a fair coin. The functions that draw coins state
//! what holds whatever the coins show. What the coins decide is settled by
//! functions that take their outcomes as arguments and state exactly what
//! they do: `keeps` for the retention decision, `sweep_with` for a sweep, and
//! `add_with` and `add_with_flips` for an observation.

pub mod coin;
pub mod estimator;
pub mod sketch;
pub mod trimmed;
pub mod ensemble;
pub mod driver;
pub mod laws;
