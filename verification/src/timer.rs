//! Timing of the steps of a run.
use std::time::{Duration, Instant};
use vstd::prelude::*;

verus! {

/// `std::time::Instant`, carried through as an opaque value.
#[verifier::external_type_specification]
#[verifier::external_body]
pub struct ExInstant(Instant);

/// Reads the clock with `std::time::Instant::now`; nothing is claimed of
/// the reading.
#[verifier::external_body]
fn instant_now() -> Instant {
    Instant::now()
}

/// The time since `start`, by `std::time::Instant::elapsed`; nothing is
/// claimed of it.
#[verifier::external_body]
fn instant_elapsed(start: &Instant) -> Duration {
    start.elapsed()
}

/// Whole microseconds of a duration, by `std::time::Duration::as_micros`;
/// nothing is claimed of the number.
#[verifier::external_body]
fn duration_micros(d: &Duration) -> u128 {
    d.as_micros()
}

/// The unit that an elapsed time is told in.
#[derive(Debug, Clone, Copy, PartialEq, Eq, Structural)]
pub enum TimeUnit {
    Micros,
    Millis,
}

/// A named stopwatch, started when made.
pub struct Timer {
    title: &'static str,
    time: Instant,
}

/// How an elapsed time of `micros` microseconds is told: in microseconds
/// below ten milliseconds, in whole milliseconds from there on.
pub fn pick_unit(micros: u128) -> (res: (u128, TimeUnit))
    ensures
        res == pick_unit_spec(micros),
{
    if micros < 10000 {
        (micros, TimeUnit::Micros)
    } else {
        (micros / 1000, TimeUnit::Millis)
    }
}

impl Timer {
    pub closed spec fn spec_title(&self) -> &'static str {
        self.title
    }

    /// Starts a stopwatch named `title`.
    pub fn new(title: &'static str) -> (timer: Timer)
        ensures
            timer.spec_title() == title,
    {
        let start = instant_now();
        Timer { title, time: start }
    }

    pub fn title(&self) -> (title: &'static str)
        ensures
            title == self.spec_title(),
    {
        self.title
    }

    /// The time elapsed since the start, read once from the clock, and its
    /// unit as `pick_unit` chooses it: a reading in milliseconds is the
    /// whole milliseconds of the same microsecond count.
    pub fn elapsed(&self) -> (res: (u128, TimeUnit))
        ensures
            exists|micros: u128| res == pick_unit_spec(micros),
    {
        let d = instant_elapsed(&self.time);
        let micros = duration_micros(&d);
        let res = pick_unit(micros);
        assert(res == pick_unit_spec(micros));
        res
    }
}

/// The reading that `pick_unit` gives.
pub open spec fn pick_unit_spec(micros: u128) -> (u128, TimeUnit) {
    if micros < 10000 {
        (micros, TimeUnit::Micros)
    } else {
        ((micros / 1000) as u128, TimeUnit::Millis)
    }
}

} // verus!
