//! Points in time and the elapsed whole days between them.

use vstd::prelude::*;

verus! {

/// Seconds in one day.
pub const SECONDS_PER_DAY: i64 = 86_400;

/// Nanoseconds in one second.
pub const NANOS_PER_SECOND: i64 = 1_000_000_000;

/// A point in time: whole seconds since the Unix epoch and the nanoseconds
/// elapsed since that second began.
#[derive(Clone, Copy, Debug, PartialEq, Eq, Structural)]
pub struct Timestamp {
    pub secs: i64,
    pub nanos: u32,
}

impl Timestamp {
    /// Nanoseconds since the Unix epoch.
    pub open spec fn total_nanos(self) -> int {
        self.secs * NANOS_PER_SECOND + self.nanos
    }

    /// Whole days that lie between `self` and the later point `now`; zero
    /// when `now` is not later than `self`.
    pub open spec fn whole_days_until(self, now: Timestamp) -> int {
        let elapsed = now.total_nanos() - self.total_nanos();
        if elapsed <= 0 {
            0
        } else {
            elapsed / (SECONDS_PER_DAY * NANOS_PER_SECOND)
        }
    }

    /// Computes [`Timestamp::whole_days_until`].
    pub fn days_until(&self, now: &Timestamp) -> (days: i64)
        ensures
            days == self.whole_days_until(*now),
            days >= 0,
    {
        let second: i128 = 1_000_000_000;
        let day: i128 = 86_400_000_000_000;
        let start: i128 = (self.secs as i128) * second + (self.nanos as i128);
        let end: i128 = (now.secs as i128) * second + (now.nanos as i128);
        let elapsed: i128 = end - start;
        if elapsed <= 0 {
            0
        } else {
            (elapsed / day) as i64
        }
    }
}

/// Reads the system clock through `chrono::Local::now`, keeping the Unix
/// timestamp (`DateTime::timestamp`) and the sub-second nanoseconds
/// (`DateTime::timestamp_subsec_nanos`). Nothing is claimed of the value:
/// it is whatever the clock shows.
#[verifier::external_body]
pub(crate) fn current_time() -> (now: Timestamp) {
    let now = chrono::Local::now();
    Timestamp { secs: now.timestamp(), nanos: now.timestamp_subsec_nanos() }
}

} // verus!
