//! The clock, for searches that think for a given time.

use std::time::Instant;

use vstd::prelude::*;

verus! {

/// A point in time of the standard library's monotonic clock.
#[verifier::external_type_specification]
#[verifier::external_body]
pub struct ExInstant(std::time::Instant);

/// The present, from `std::time::Instant::now`. Nothing is promised of it.
#[verifier::external_body]
fn now() -> (t: Instant) {
    Instant::now()
}

/// The milliseconds since `t`, from `std::time::Instant::elapsed`. What the clock
/// shows is not known in advance, so nothing is promised of it.
#[verifier::external_body]
fn elapsed_millis(t: &Instant) -> (ms: u128) {
    t.elapsed().as_millis()
}

/// A point in time after which a search gives up.
pub struct Deadline {
    start: Instant,
    millis: u64,
}

impl Deadline {
    /// The time that was allowed, in milliseconds.
    pub closed spec fn allowed(&self) -> u64 {
        self.millis
    }

    /// A deadline `millis` milliseconds from now.
    pub fn after_millis(millis: u64) -> (d: Deadline)
        ensures
            d.allowed() == millis,
    {
        Deadline { start: now(), millis }
    }

    /// Whether `elapsed` milliseconds use up what was allowed.
    pub fn exceeded_by(&self, elapsed: u128) -> (late: bool)
        ensures
            late == (elapsed >= self.allowed()),
    {
        elapsed >= self.millis as u128
    }

    /// Whether the deadline has passed. No time at all is used up at once; otherwise the
    /// clock decides, by [`Deadline::exceeded_by`].
    pub fn passed(&self) -> (late: bool)
        ensures
            self.allowed() == 0 ==> late,
    {
        self.exceeded_by(elapsed_millis(&self.start))
    }
}

} // verus!
