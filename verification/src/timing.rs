//! Wall-clock stamps, for the timing reports of the front end.
use vstd::prelude::*;
use std::time::{Duration, Instant};

verus! {

#[verifier::external_type_specification]
#[verifier::external_body]
pub struct ExInstant(std::time::Instant);

/// `Instant::now`: the current time. Nothing is stated of it: it depends on
/// the clock.
#[verifier::external_body]
pub(crate) fn instant_now() -> (r: Instant) {
    Instant::now()
}

/// The time from `earlier` to `later` (zero if `later` comes first), as
/// `Instant::duration_since` gives it: a function of the two instants alone.
pub uninterp spec fn elapsed(later: Instant, earlier: Instant) -> Duration;

/// `Instant::duration_since`: the time from `earlier` to `later`, named
/// `elapsed` (std saturates it at zero rather than panicking).
#[verifier::external_body]
pub(crate) fn duration_since(later: &Instant, earlier: &Instant) -> (r: Duration)
    ensures
        r == elapsed(*later, *earlier),
{
    later.duration_since(*earlier)
}

/// A running stopwatch: the instant of its last lap.
pub struct Timestamp {
    pub start: Instant,
}

impl Timestamp {
    /// A stopwatch started now.
    pub fn new() -> (r: Timestamp) {
        Timestamp { start: instant_now() }
    }

    /// Restarts the stopwatch at the current time.
    pub fn bump(&mut self) {
        self.start = instant_now();
    }

    /// Ends a lap: returns the time since the last lap began and starts the
    /// next one at the current time.
    pub fn stamp(&mut self) -> (r: Duration)
        ensures
            r == elapsed(final(self).start, old(self).start),
    {
        let now = instant_now();
        let duration = duration_since(&now, &self.start);
        self.start = now;
        duration
    }
}

} // verus!
