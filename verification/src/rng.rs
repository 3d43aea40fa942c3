//! Trusted access to the thread-local random number generator.
//!
//! Nothing can be promised of a random value beyond its range, so callers
//! are verified for every outcome these functions may produce.

use vstd::prelude::*;

verus! {

/// Relies on `rand::random::<bool>`: a freshly drawn boolean.  Nothing holds
/// of the value; both outcomes are possible.
#[verifier::external_body]
pub fn coin() -> bool {
    rand::random::<bool>()
}

/// Relies on `rand::random_range`: a value drawn uniformly from `[0, n)`.
/// The call panics on an empty range, so the bound must be positive; every
/// result lies below the bound.
#[verifier::external_body]
pub fn rand_below(n: usize) -> (r: usize)
    requires
        n > 0,
    ensures
        r < n,
{
    rand::random_range(0..n)
}

} // verus!
