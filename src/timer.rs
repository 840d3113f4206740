//! Countdown timer for a player's hit: a start instant and a fixed duration.
//!
//! Durations and elapsed times are counted in nanoseconds.
use vstd::prelude::*;

verus! {

#[verifier::external_type_specification]
#[verifier::external_body]
pub struct ExInstant(std::time::Instant);

/// Relies on `Instant::now`: reads the monotonic clock; nothing is known of
/// the value.
pub assume_specification[ std::time::Instant::now ]() -> std::time::Instant;

/// Relies on `Instant::elapsed`: the time since the instant; it depends on
/// the clock, so nothing is known of it.
pub assume_specification[ std::time::Instant::elapsed ](i: &std::time::Instant) -> core::time::Duration;

/// Relies on `Duration::as_nanos`: the whole nanoseconds of the duration.
pub assume_specification[ core::time::Duration::as_nanos ](d: &core::time::Duration) -> u128;

pub const NANOS_PER_SEC: u128 = 1_000_000_000;

/// Time left of a timer of `duration` nanoseconds after `elapsed` nanoseconds.
pub open spec fn remaining_spec(duration: int, elapsed: int) -> int {
    if elapsed >= duration {
        0
    } else {
        duration - elapsed
    }
}

pub struct Timer {
    start: std::time::Instant,
    duration_nanos: u128,
}

impl Timer {
    /// Length of the timer's window in nanoseconds.
    pub closed spec fn duration(&self) -> int {
        self.duration_nanos as int
    }

    /// A timer of `duration_secs` seconds that starts now.
    pub fn new(duration_secs: u64) -> (r: Timer)
        ensures
            r.duration() == duration_secs * NANOS_PER_SEC,
    {
        Timer {
            start: std::time::Instant::now(),
            duration_nanos: duration_secs as u128 * NANOS_PER_SEC,
        }
    }

    /// Starts a timer of `duration_secs` seconds now.
    pub fn start_timer(duration_secs: u64) -> (r: Timer)
        ensures
            r.duration() == duration_secs * NANOS_PER_SEC,
    {
        Timer::new(duration_secs)
    }

    /// Nanoseconds since the timer started, as the clock reads now.
    pub fn timer_value(&self) -> (r: u128) {
        self.start.elapsed().as_nanos()
    }

    /// Time left once `elapsed` nanoseconds have passed since the start.
    pub fn remaining_after(&self, elapsed: u128) -> (r: u128)
        ensures
            r == remaining_spec(self.duration(), elapsed as int),
    {
        if elapsed >= self.duration_nanos {
            0
        } else {
            self.duration_nanos - elapsed
        }
    }

    /// Whether the window is over once `elapsed` nanoseconds have passed.
    pub fn is_done_after(&self, elapsed: u128) -> (r: bool)
        ensures
            r == (elapsed >= self.duration()),
    {
        elapsed >= self.duration_nanos
    }

    /// Time left of the window as the clock reads now: never more than the
    /// window itself.
    pub fn remaining(&self) -> (r: u128)
        ensures
            r <= self.duration(),
    {
        let elapsed: u128 = self.timer_value();
        self.remaining_after(elapsed)
    }

    /// Whether the window is over as the clock reads now.
    pub fn is_done(&self) -> (r: bool) {
        let elapsed: u128 = self.timer_value();
        self.is_done_after(elapsed)
    }
}

} // verus!
