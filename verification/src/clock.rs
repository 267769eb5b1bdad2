//! Clocks: the engine takes explicit timestamps, so a clock only matters
//! at the outermost edge; tests inject a fixed one.

use vstd::prelude::*;

verus! {

/// Relies on `chrono::Utc::now` and `DateTime::timestamp_millis`: the
/// current wall-clock time as non-leap milliseconds since the Unix
/// epoch. The result depends on the machine's clock, so nothing is
/// promised of it. The conversion clamps negative values to zero, but
/// `Utc::now` itself panics on a system clock set before 1970.
#[verifier::external_body]
fn chrono_now_ms() -> u64 {
    let ms = chrono::Utc::now().timestamp_millis();
    u64::try_from(ms).unwrap_or(0)
}

/// A source of the current time in epoch milliseconds.
pub trait Clock {
    fn now_ms(&self) -> u64;
}

/// The real wall clock.
#[derive(Debug, Clone, Copy)]
pub struct SystemClock;

impl Clock for SystemClock {
    fn now_ms(&self) -> u64 {
        chrono_now_ms()
    }
}

/// A clock that always reads the same instant, for deterministic tests.
#[derive(Debug, Clone, Copy, PartialEq, Eq, Structural)]
pub struct FixedClock {
    /// The instant this clock reports, epoch milliseconds.
    pub time_ms: u64,
}

impl FixedClock {
    pub fn new(time_ms: u64) -> (r: Self)
        ensures
            r.time_ms == time_ms,
    {
        FixedClock { time_ms }
    }
}

impl Clock for FixedClock {
    fn now_ms(&self) -> (r: u64)
        ensures
            r == self.time_ms,
    {
        self.time_ms
    }
}

} // verus!
