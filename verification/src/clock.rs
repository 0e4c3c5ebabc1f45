//! A single monotonic clock so every timestamp in the pipeline uses the same
//! timebase. If the platform supplies its own pts (it usually does), `Clock` is
//! still used to measure *elapsed* session time and buffer latency.

use std::time::{Instant, SystemTime};

use vstd::prelude::*;

use crate::mux::clamp_i64;

verus! {

/// A reading of the operating system's monotonic clock.
#[verifier::external_type_specification]
#[verifier::external_body]
pub struct ExInstant(Instant);

/// `Instant::now`: the current reading of the monotonic clock. Nothing is
/// claimed of it.
#[verifier::external_body]
fn instant_now() -> (now: Instant) {
    Instant::now()
}

/// `Instant::elapsed`: the time since `start`, in whole nanoseconds and held
/// to the range of the type. Nothing is claimed of it.
#[verifier::external_body]
fn elapsed_nanos(start: &Instant) -> (ns: u64) {
    u64::try_from(start.elapsed().as_nanos()).unwrap_or(u64::MAX)
}

/// `SystemTime`, as the standard library has it.
#[verifier::external_type_specification]
#[verifier::external_body]
pub struct ExSystemTime(SystemTime);

/// `SystemTime::now`: the wall-clock time. Nothing is claimed of it.
#[verifier::external_body]
fn system_now() -> (now: SystemTime) {
    SystemTime::now()
}

/// `SystemTime::duration_since` the Unix epoch, in whole milliseconds; zero for
/// a clock that stands before it. Nothing is claimed of it.
#[verifier::external_body]
fn millis_since_epoch(now: &SystemTime) -> (ms: u64) {
    now.duration_since(SystemTime::UNIX_EPOCH).map_or(0, |d| d.as_millis() as u64)
}

/// `SystemTime::duration_since` the Unix epoch, in whole nanoseconds modulo
/// 2^64; zero for a clock that stands before it. Nothing is claimed of it.
#[verifier::external_body]
fn nanos_since_epoch(now: &SystemTime) -> (ns: u64) {
    now.duration_since(SystemTime::UNIX_EPOCH).map_or(0, |d| d.as_nanos() as u64)
}

/// Nanoseconds since the Unix epoch modulo 2^64, 0 on weird clocks.
pub fn wall_clock_ns() -> (ns: u64) {
    let now: SystemTime = system_now();
    nanos_since_epoch(&now)
}

/// Milliseconds since the Unix epoch, saturating at 0 on weird clocks.
pub fn wall_clock_ms() -> (ms: u64) {
    let now: SystemTime = system_now();
    millis_since_epoch(&now)
}

/// Monotonic clock producing millisecond timestamps. Never goes backwards, is
/// unaffected by wall-clock changes (NTP adjustments, user setting the time).
#[derive(Debug, Clone, Copy)]
pub struct Clock {
    origin: Instant,
}

impl Default for Clock {
    fn default() -> Self {
        Clock::new()
    }
}

impl Clock {
    /// Create a clock whose epoch starts at creation time.
    pub fn new() -> Self {
        Clock { origin: instant_now() }
    }

    /// Nanoseconds elapsed since the clock was created.
    pub fn now_ns(&self) -> (ns: u64) {
        elapsed_nanos(&self.origin)
    }

    /// Milliseconds elapsed since the clock was created: those of some reading,
    /// so they are not negative.
    pub fn now_ms(&self) -> (ms: i64)
        ensures
            exists|ns: u64| ms == #[trigger] millis_of(ns),
            0 <= ms,
    {
        let ns: u64 = self.now_ns();
        to_millis(ns)
    }

    /// How far behind the live edge `media_pts` has drifted: the distance from
    /// it to some current time, which is not negative.
    pub fn latency_ms(&self, media_pts: i64) -> (ms: i64)
        ensures
            exists|now: i64| 0 <= now && ms == #[trigger] latency_at(now, media_pts),
    {
        let now: i64 = self.now_ms();
        latency(now, media_pts)
    }
}

/// What both clocks show at one time.
#[derive(Debug, Clone, Copy, PartialEq, Eq, Structural)]
pub struct Moment {
    /// Nanoseconds on a [`Clock`].
    pub now_ns: u64,
    /// Milliseconds since the Unix epoch.
    pub wall_ms: u64,
}

impl Moment {
    /// The present, by `clock` and by the wall clock.
    pub fn read(clock: &Clock) -> (m: Self) {
        Moment { now_ns: clock.now_ns(), wall_ms: wall_clock_ms() }
    }
}

/// The whole milliseconds of a reading.
pub open spec fn millis_of(ns: u64) -> int {
    ns as int / 1_000_000
}

/// The whole milliseconds of a reading.
pub fn to_millis(ns: u64) -> (ms: i64)
    ensures
        ms == millis_of(ns),
{
    (ns / 1_000_000) as i64
}

/// A reading that is not earlier has no fewer milliseconds, and none has less
/// than zero.
pub proof fn millis_keep_the_order_of_readings(earlier: u64, later: u64)
    requires
        earlier <= later,
    ensures
        0 <= millis_of(earlier) <= millis_of(later),
{
}

/// The distance from a media timestamp to the current time, held to the range
/// of the type.
pub open spec fn latency_at(now_ms: i64, media_pts: i64) -> int {
    clamp_i64(now_ms - media_pts)
}

/// The distance from a media timestamp to the current time.
pub fn latency(now_ms: i64, media_pts: i64) -> (ms: i64)
    ensures
        ms == latency_at(now_ms, media_pts),
{
    let wide: i128 = now_ms as i128 - media_pts as i128;
    if wide < i64::MIN as i128 {
        i64::MIN
    } else if wide > i64::MAX as i128 {
        i64::MAX
    } else {
        wide as i64
    }
}

} // verus!
