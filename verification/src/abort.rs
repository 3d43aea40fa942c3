//! Cooperative cancellation of a running solve.
//!
//! The solver consults its controller at the head of every search node; a
//! controller that can abort makes the solver return nothing rather than a
//! wrong answer.

use vstd::prelude::*;
use std::time::{Duration, Instant};

verus! {

/// A cancellation port.  `may_abort` says, at the specification level,
/// whether this controller can ever ask for an abort; a controller whose
/// `may_abort` is false must always answer `false`, and the solver is then
/// guaranteed to return a result.
pub trait AbortController: Sized {
    spec fn may_abort(&self) -> bool;

    fn should_abort(&self) -> (r: bool)
        ensures
            !self.may_abort() ==> r == false,
    ;
}

/// The controller that never aborts.
pub struct NoAbortController;

impl AbortController for NoAbortController {
    open spec fn may_abort(&self) -> bool {
        false
    }

    fn should_abort(&self) -> (r: bool)
        ensures
            !self.may_abort() ==> r == false,
    {
        false
    }
}

#[verifier::external_type_specification]
#[verifier::external_body]
pub struct ExInstant(Instant);

/// Relies on `std::time::Instant::now`: the current instant.  Nothing is
/// promised of the value; time is not a function of the arguments.
#[verifier::external_body]
fn instant_now() -> Instant {
    Instant::now()
}

/// Relies on `Instant::checked_add`: the instant later by the given
/// duration, or nothing when that instant cannot be represented.
#[verifier::external_body]
fn instant_plus_checked(origin: &Instant, duration: Duration) -> Option<Instant> {
    origin.checked_add(duration)
}

/// Relies on `<Instant as PartialOrd>::le`: instants are totally ordered by
/// the time they denote.
#[verifier::external_body]
fn instant_le(a: &Instant, b: &Instant) -> bool {
    *a <= *b
}

/// A controller that asks for an abort once a deadline has passed.  A
/// deadline too distant to represent never passes.
pub struct TimeoutAbortController {
    timeout_at: Option<Instant>,
}

impl AbortController for TimeoutAbortController {
    open spec fn may_abort(&self) -> bool {
        true
    }

    fn should_abort(&self) -> (r: bool)
        ensures
            !self.may_abort() ==> r == false,
    {
        match &self.timeout_at {
            Some(deadline) => {
                let now = instant_now();
                instant_le(deadline, &now)
            },
            None => false,
        }
    }
}

impl TimeoutAbortController {
    /// The controller whose deadline lies `duration` from now.
    pub fn duration(duration: Duration) -> TimeoutAbortController {
        let now = instant_now();
        TimeoutAbortController { timeout_at: instant_plus_checked(&now, duration) }
    }
}

} // verus!
