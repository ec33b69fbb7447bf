//! The clock started before a run and read after it.

use vstd::prelude::*;
use std::time::Instant;

verus! {

/// The monotonic clock reading of `std`.
#[verifier::external_type_specification]
#[verifier::external_body]
pub struct ExInstant(Instant);

/// Reads the monotonic clock with `Instant::now`. Nothing is claimed of the reading.
#[verifier::external_body]
fn instant_now() -> (t: Instant) {
    Instant::now()
}

/// Holds the moment a measured run started, if one did.
#[derive(Debug)]
pub struct PerformanceTracker {
    start_time: Option<Instant>,
}

impl PerformanceTracker {
    /// A measurement is under way.
    pub closed spec fn running(&self) -> bool {
        self.start_time is Some
    }

    /// The moment the measurement under way started.
    pub closed spec fn started(&self) -> Option<Instant> {
        self.start_time
    }

    /// A tracker with no measurement under way.
    pub fn new() -> (t: Self)
        ensures
            !t.running(),
    {
        PerformanceTracker { start_time: None }
    }

    /// Starts a measurement at the clock reading `now`; one under way is dropped.
    pub fn start_at(&mut self, now: Instant)
        ensures
            final(self).started() == Some(now),
            final(self).running(),
    {
        self.start_time = Some(now);
    }

    /// Starts a measurement at the clock's current reading; one under way is dropped.
    pub fn start(&mut self)
        ensures
            final(self).running(),
    {
        let now = instant_now();
        self.start_at(now);
    }

    /// Ends the measurement: hands back its start, if one was under way, and leaves
    /// none under way.
    pub fn take_start(&mut self) -> (t: Option<Instant>)
        ensures
            t is Some == old(self).running(),
            t == old(self).started(),
            !final(self).running(),
    {
        self.start_time.take()
    }
}

impl Default for PerformanceTracker {
    fn default() -> (t: Self)
        ensures
            !t.running(),
    {
        PerformanceTracker::new()
    }
}

} // verus!
