//! The clock that times a search.
//!
//! Nothing is claimed of what the clock shows: a duration is measured, handed
//! on and never looked at.
use std::time::Duration;
use std::time::Instant;
use vstd::prelude::*;

verus! {

/// `std::time::Instant`: opaque to the verifier.
#[verifier::external_type_specification]
#[verifier::external_body]
pub struct ExInstant(Instant);

/// `Instant::now`: the present moment.
#[verifier::external_body]
pub(crate) fn clock_start() -> (start: Instant) {
    Instant::now()
}

/// `Instant::elapsed`: the time that has passed since `start`.
#[verifier::external_body]
pub(crate) fn clock_elapsed(start: &Instant) -> (elapsed: Duration) {
    start.elapsed()
}

/// `Duration::new` on zero seconds and zero nanoseconds: no time at all.
#[verifier::external_body]
pub(crate) fn no_time() -> (none: Duration) {
    Duration::new(0, 0)
}

} // verus!
