//! Points in time and lengths of time, in whole nanoseconds.

use vstd::prelude::*;

verus! {

/// Nanoseconds in a second.
pub const NANOS_PER_SEC: u128 = 1_000_000_000;

/// Nanoseconds in a millisecond.
pub const NANOS_PER_MILLI: u128 = 1_000_000;

/// Nanoseconds in a microsecond.
pub const NANOS_PER_MICRO: u128 = 1_000;

/// A length of time.
#[derive(Debug, Clone, Copy, PartialEq, Eq, PartialOrd, Ord, Hash, Structural)]
pub struct Duration {
    /// Its length in nanoseconds.
    pub nanos: u128,
}

impl Duration {
    /// A whole number of seconds.
    pub fn from_secs(secs: u64) -> (duration: Self)
        ensures
            duration.nanos == secs * NANOS_PER_SEC,
    {
        assert(secs * 1_000_000_000 <= u64::MAX * 1_000_000_000);
        Self { nanos: secs as u128 * NANOS_PER_SEC }
    }

    /// A whole number of milliseconds.
    pub fn from_millis(millis: u64) -> (duration: Self)
        ensures
            duration.nanos == millis * NANOS_PER_MILLI,
    {
        assert(millis * 1_000_000 <= u64::MAX * 1_000_000);
        Self { nanos: millis as u128 * NANOS_PER_MILLI }
    }

    /// The whole seconds in it.
    pub fn as_secs(&self) -> (secs: u64)
        requires
            self.nanos / NANOS_PER_SEC <= u64::MAX,
        ensures
            secs == self.nanos as int / NANOS_PER_SEC as int,
    {
        (self.nanos / NANOS_PER_SEC) as u64
    }
}

/// A point in time, counted from a fixed origin.
///
/// Packet times count from the Unix epoch; monotonic clock readings count from
/// an origin of their own. The two are never compared with each other.
#[derive(Debug, Clone, Copy, PartialEq, Eq, PartialOrd, Ord, Hash, Structural)]
pub struct Timestamp {
    /// Nanoseconds since the origin.
    pub nanos: u128,
}

impl Timestamp {
    /// A whole number of seconds after the origin.
    pub fn from_secs(secs: u64) -> (at: Self)
        ensures
            at.nanos == secs * NANOS_PER_SEC,
    {
        assert(secs * 1_000_000_000 <= u64::MAX * 1_000_000_000);
        Self { nanos: secs as u128 * NANOS_PER_SEC }
    }

    /// The time elapsed since `earlier`, or none where `earlier` is later.
    pub fn duration_since(&self, earlier: Timestamp) -> (elapsed: Option<Duration>)
        ensures
            elapsed == (if earlier.nanos <= self.nanos {
                Some(Duration { nanos: (self.nanos - earlier.nanos) as u128 })
            } else {
                None
            }),
    {
        if earlier.nanos <= self.nanos {
            Some(Duration { nanos: self.nanos - earlier.nanos })
        } else {
            None
        }
    }

    /// This point in time moved on; the last one where there is none so late.
    pub open spec fn later(self, by: Duration) -> Timestamp {
        Timestamp {
            nanos: if self.nanos + by.nanos > u128::MAX {
                u128::MAX
            } else {
                (self.nanos + by.nanos) as u128
            },
        }
    }

    /// This time moved `by` later; the far end of the clock's range is a limit.
    pub fn saturating_add(&self, by: Duration) -> (later: Self)
        ensures
            later == self.later(by),
    {
        Self { nanos: self.nanos.saturating_add(by.nanos) }
    }
}

/// The standard library's reading of the monotonic clock. Nothing is claimed of
/// what is inside.
#[verifier::external_type_specification]
#[verifier::external_body]
pub struct ExInstant(std::time::Instant);

/// `std::time::Instant::now`. Nothing is claimed of the reading.
#[verifier::external_body]
fn read_clock() -> (reading: std::time::Instant) {
    std::time::Instant::now()
}

/// `std::time::Instant::elapsed`, in nanoseconds. Nothing is claimed of how much
/// time has passed.
#[verifier::external_body]
fn nanos_since(reading: &std::time::Instant) -> (nanos: u128) {
    reading.elapsed().as_nanos()
}

/// A running clock. Its readings count from when it was started.
#[derive(Debug, Clone, Copy)]
pub struct Clock {
    origin: std::time::Instant,
}

impl Clock {
    /// Start a clock.
    pub fn start() -> (clock: Self) {
        Clock { origin: read_clock() }
    }

    /// What the clock says. Nothing is known of the reading.
    pub fn now(&self) -> (now: Timestamp) {
        Timestamp { nanos: nanos_since(&self.origin) }
    }

    /// How many whole microseconds the clock has run. Nothing is known of how long
    /// that is.
    pub fn micros(&self) -> (micros: u64) {
        whole_micros(nanos_since(&self.origin))
    }
}

/// The whole microseconds in a number of nanoseconds, as far as they can be
/// counted.
pub fn whole_micros(nanos: u128) -> (micros: u64)
    ensures
        micros == (if nanos / NANOS_PER_MICRO <= u64::MAX {
            nanos as int / NANOS_PER_MICRO as int
        } else {
            u64::MAX as int
        }),
{
    let micros: u128 = nanos / NANOS_PER_MICRO;
    if micros <= u64::MAX as u128 {
        micros as u64
    } else {
        u64::MAX
    }
}

/// Moving on never goes back, goes exactly as far as asked where that is a point in time,
/// and stops at the last one otherwise.
pub proof fn law_moving_on_stops_at_the_end(at: Timestamp, by: Duration)
    ensures
        at.later(by).nanos >= at.nanos,
        at.nanos + by.nanos <= u128::MAX ==> at.later(by).nanos - at.nanos == by.nanos,
        at.nanos + by.nanos > u128::MAX ==> at.later(by).nanos == u128::MAX,
{
}

/// The units of time are what their names say.
pub proof fn law_units_of_time()
    ensures
        NANOS_PER_SEC == 1_000 * NANOS_PER_MILLI,
        NANOS_PER_MILLI == 1_000 * NANOS_PER_MICRO,
        NANOS_PER_MICRO == 1_000,
{
}

} // verus!
