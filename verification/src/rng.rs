//! Trusted access to the process's random number generator.
//!
//! Nothing useful can be promised of a random outcome, so each wrapper
//! states only the bound the caller needs; the logic that consumes the
//! results is verified for every outcome.

use rand::RngExt;
use vstd::prelude::*;

verus! {

/// Relies on rand::rng and rand::RngExt::random_range over `0..n`: a
/// uniformly random index below `n`. The range is non-empty, so the
/// sampling itself cannot panic.
#[verifier::external_body]
pub(crate) fn random_below(n: usize) -> (r: usize)
    requires
        n > 0,
    ensures
        r < n,
{
    rand::rng().random_range(0..n)
}

/// Relies on rand::rng and rand::RngExt::random_ratio with ratio 1/10: true
/// with probability one in ten. Nothing is promised of the outcome.
#[verifier::external_body]
pub(crate) fn one_in_ten() -> bool {
    rand::rng().random_ratio(1, 10)
}

} // verus!
