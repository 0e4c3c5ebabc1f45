//! Session resilience — a dropped connection must not end the stream.
//!
//! The engine and transport move bytes; this module decides what happens when
//! they fail. On a disconnect (write error or a stalled transport) the session
//! re-dials through a [`Connector`] with capped exponential backoff + jitter,
//! re-attaches the fresh transport (the engine re-emits the FLV header,
//! metadata, and sequence headers the new connection has never seen, and
//! continues the timestamp series), and resumes from the newest keyframe so
//! viewers can resync at once.
//!
//! Reconnection is *cooperative*: [`Session::tick`] never sleeps. It attempts
//! a reconnect when the scheduled backoff has elapsed and otherwise returns
//! `Ok(0)`, so the platform's pump loop stays responsive and capture keeps
//! filling the bounded buffer while the connection is down.

use vstd::arithmetic::power2::{
    lemma2_to64, lemma2_to64_rest, lemma_pow2_adds, lemma_pow2_pos, lemma_pow2_unfold, pow2,
};
use vstd::prelude::*;
use vstd::string::*;

use crate::backpressure::pushed_onto;
use crate::batch::packets;
use crate::clock::{wall_clock_ns, Clock, Moment};
use crate::engine::{
    budget_of, cut_note, engine_error_text, pushed_all, since, Engine, EngineConfig, EngineError,
    EngineView,
};
use crate::io::IoError;
use crate::models::MediaPacket;
use crate::mux::opt_slice;
use crate::figures::{in_seconds, seconds, seconds_are_close, sums_are_bounded};
use crate::rounding::{
    divide, doubles_are_exact, doubling_is_exact, from_whole, growth_does_not_shrink, multiply,
    nanos_are_near, nanos_are_ordered, nanos_of, nearest_exists, patterns_are_ordered, plus,
    product, product_exists, quotient, rounded_is_nearest, rounding_is_close,
    rounding_keeps_to_its_side, small_wholes_are_exact, sum, to_nanos, units, whole, BINADE,
    INFINITY, ONE, TWO, TWO_TO_64, TWO_TO_MINUS_53,
};
use crate::sink::PacketSink;
use crate::telemetry::{
    copy_text, entry_views, event_views, opt_text, sample_views, BookView, Entry, EventView, Field,
    FieldValue, FieldView, Level, QosEvent, QosSample, QosView, Record,
};
use crate::text::{append_decimal, append_duration, decimal, duration_text};
use crate::transport::Transport;

verus! {

/// A source of fresh transports — e.g. "dial the RTMP server and publish".
/// The session calls this for the initial connection and for every reconnect
/// attempt, so it must be cheap to retry and free of one-shot state.
pub trait Connector: Sized {
    /// The transport type produced.
    type Transport: Transport;

    /// What every dial so far gave, in order. Unknown of an implementation that
    /// does not say.
    open spec fn dials(&self) -> Seq<Result<Self::Transport, IoError>> {
        arbitrary()
    }

    /// Establish a new, ready-to-write transport.
    fn connect(&mut self) -> (r: Result<Self::Transport, IoError>)
        ensures
            final(self).dials() == old(self).dials().push(r),
    ;
}

// ---------------------------------------------------------------------------
// Backoff
// ---------------------------------------------------------------------------

/// `SplitMix64` — a tiny deterministic PRNG for backoff jitter. Keeps the crate
/// dependency-free while making retry storms reproducible in tests (and
/// decorrelated between sessions in production).
#[derive(Debug)]
pub struct Rng {
    state: u64,
}

/// The generator's state after one step.
pub open spec fn rng_step(state: u64) -> u64 {
    state.wrapping_add(0x9E37_79B9_7F4A_7C15)
}

/// What the generator gives in a state.
pub open spec fn rng_output(state: u64) -> u64 {
    let a = (state ^ (state >> 30u64)).wrapping_mul(0xBF58_476D_1CE4_E5B9);
    let b = (a ^ (a >> 27u64)).wrapping_mul(0x94D0_49BB_1331_11EB);
    b ^ (b >> 31u64)
}

/// The double in `[0, 1)` that a random number stands for: its top 53 bits,
/// behind the point.
pub open spec fn unit_of(random: u64) -> u64 {
    product(whole((random / 2048) as int), TWO_TO_MINUS_53)
}

proof fn lemma_unit(top: u64)
    requires
        top < 0x20_0000_0000_0000,
    ensures
        product(whole(top as int), TWO_TO_MINUS_53) < ONE,
{
    let t = pow2(1074) as int;
    let p = pow2(1021) as int;
    let w = 0x10_0000_0000_0000int;
    lemma2_to64();
    lemma2_to64_rest();
    lemma_pow2_pos(1074);
    lemma_pow2_pos(1021);
    lemma_pow2_adds(52, 969);
    small_wholes_are_exact(top);
    product_exists(whole(top as int), TWO_TO_MINUS_53);
    assert(TWO_TO_MINUS_53 as int / w == 970 && TWO_TO_MINUS_53 as int % w == 0);
    assert(units(TWO_TO_MINUS_53 as int) == p);
    // One below the pattern of 1: all 53 bits set.
    let last = (ONE - 1) as u64;
    assert(last as int / w == 1022 && last as int % w == w - 1);
    assert(units(last as int) == (2 * w - 1) * p);
    let num = units(whole(top as int) as int) * p;
    assert(num <= ((2 * w - 1) * p) * t) by (nonlinear_arith)
        requires
            num == (top * t) * p,
            top <= 2 * w - 1,
            t > 0,
            p > 0,
    ;
    rounding_keeps_to_its_side(num, t, product(whole(top as int), TWO_TO_MINUS_53), last);
}

impl View for Rng {
    type V = u64;

    closed spec fn view(&self) -> u64 {
        self.state
    }
}

impl Rng {
    /// Start from a seed.
    pub fn seeded(seed: u64) -> (r: Self)
        ensures
            r@ == seed,
    {
        Rng { state: seed }
    }

    /// Seed from the wall clock; sessions that start at distinct times get
    /// distinct streams.
    pub fn from_time() -> (r: Self) {
        Rng::seeded(wall_clock_ns() ^ 0x9E37_79B9_7F4A_7C15)
    }

    /// Uniform in `[0, 1)`: the bit pattern of a double.
    pub fn next_f64(&mut self) -> (r: u64)
        ensures
            final(self)@ == rng_step(old(self)@),
            r == unit_of(rng_output(final(self)@)),
            r < ONE,
    {
        // Top 53 bits: the full significand of a double.
        let top: u64 = self.next_u64() / 2048;
        proof {
            nearest_exists(top);
            lemma_unit(top);
        }
        multiply(from_whole(top), TWO_TO_MINUS_53)
    }

    /// The next number.
    pub fn next_u64(&mut self) -> (n: u64)
        ensures
            final(self)@ == rng_step(old(self)@),
            n == rng_output(final(self)@),
    {
        self.state = self.state.wrapping_add(0x9E37_79B9_7F4A_7C15);
        let z: u64 = self.state;
        let a: u64 = (z ^ (z >> 30u64)).wrapping_mul(0xBF58_476D_1CE4_E5B9);
        let b: u64 = (a ^ (a >> 27u64)).wrapping_mul(0x94D0_49BB_1331_11EB);
        b ^ (b >> 31u64)
    }
}

/// Reconnect schedule: exponential backoff with **equal jitter**, capped. Times
/// are in nanoseconds.
///
/// Delay for attempt *n* is drawn from `[base/2, base)` where
/// `base = min(max_delay, initial_delay * multiplier^(n-1))`. Equal jitter
/// keeps half the delay deterministic (no pathological zero-sleep retries,
/// which full jitter allows) while the random half still decorrelates
/// publishers retrying against the same server — the "thundering herd" that
/// fixed-interval reconnects cause on recovery.
#[derive(Debug, Clone, Copy, PartialEq, Eq, Structural)]
pub struct ReconnectPolicy {
    /// Delay before the first scheduled retry (the very first attempt after a
    /// disconnect is immediate).
    pub initial_delay: u64,
    /// Upper bound for any single delay.
    pub max_delay: u64,
    /// Growth factor per attempt: the bit pattern of a double (values below 1.0
    /// are treated as 1.0).
    pub multiplier: u64,
    /// Give up after this many consecutive failed attempts; `None` retries
    /// forever. Counters reset on a successful connection.
    pub max_attempts: Option<u32>,
    /// Fixed jitter seed for deterministic schedules (tests); `None` seeds
    /// from the wall clock.
    pub jitter_seed: Option<u64>,
}

impl Default for ReconnectPolicy {
    fn default() -> (p: Self)
        ensures
            p == (ReconnectPolicy {
                initial_delay: 250_000_000,
                max_delay: 8_000_000_000,
                multiplier: TWO,
                max_attempts: Some(12),
                jitter_seed: None,
            }),
    {
        ReconnectPolicy {
            initial_delay: 250_000_000,
            max_delay: 8_000_000_000,
            multiplier: TWO,
            max_attempts: Some(12),
            jitter_seed: None,
        }
    }
}

/// The smaller of two numbers.
pub open spec fn smaller(a: int, b: int) -> int {
    if a < b {
        a
    } else {
        b
    }
}

/// The growth factor per attempt. What is not a number counts as 1.0 too.
pub open spec fn growth_of(p: ReconnectPolicy) -> u64 {
    if ONE <= p.multiplier <= INFINITY {
        p.multiplier
    } else {
        ONE
    }
}

/// The cap in seconds, a double.
pub open spec fn cap_of(p: ReconnectPolicy) -> u64 {
    seconds(p.max_delay)
}

/// The smaller of a double and the cap.
pub open spec fn capped(p: ReconnectPolicy, b: u64) -> u64 {
    if b < cap_of(p) {
        b
    } else {
        cap_of(p)
    }
}

/// The unjittered base delay for a 1-based attempt number, in seconds.
pub open spec fn grown_of(p: ReconnectPolicy, attempt: nat) -> u64
    decreases attempt,
{
    if attempt <= 1 {
        capped(p, seconds(p.initial_delay))
    } else if growth_of(p) == INFINITY {
        cap_of(p)
    } else {
        capped(p, product(grown_of(p, (attempt - 1) as nat), growth_of(p)))
    }
}

/// The unjittered base delay for a 1-based attempt number.
pub open spec fn base_of(p: ReconnectPolicy, attempt: nat) -> int {
    smaller(nanos_of(grown_of(p, attempt)) as int, p.max_delay as int)
}

/// The delay that a random number makes of a base, before the band: half of it
/// for sure, and the fraction of the other half that the number stands for.
pub open spec fn drawn(base: u64, random: u64) -> u64 {
    let half = quotient(seconds(base), TWO);
    nanos_of(sum(half, product(half, unit_of(random))))
}

/// The delay that a random number makes of a base. What rounding takes out of
/// `[base/2, base)` is put back to its end.
pub open spec fn jittered(base: int, random: u64) -> int {
    let delay = drawn(base as u64, random) as int;
    let most = if base > 0 {
        base - 1
    } else {
        0
    };
    if delay < base / 2 {
        base / 2
    } else {
        smaller(delay, most)
    }
}

/// A delay lies in `[base/2, base)`; the base never exceeds the cap and never
/// shrinks from one attempt to the next.
pub proof fn delays_stay_within_the_band(p: ReconnectPolicy, attempt: nat, random: u64)
    ensures
        0 <= base_of(p, attempt) <= p.max_delay,
        base_of(p, attempt) <= base_of(p, attempt + 1),
        base_of(p, attempt) / 2 <= jittered(base_of(p, attempt), random),
        base_of(p, attempt) > 0 ==> jittered(base_of(p, attempt), random) < base_of(p, attempt),
        base_of(p, attempt) == 0 ==> jittered(base_of(p, attempt), random) == 0,
{
    lemma_grown(p, attempt);
    nanos_are_ordered(grown_of(p, attempt), grown_of(p, attempt + 1));
}

/// Without a cap in the way, doubling doubles: the base delay is the initial
/// one times two to the number of failed retries, as long as that is less than
/// 2^49 nanoseconds (six days), so that rounding does not show.
pub proof fn doubling_is_exponential(p: ReconnectPolicy, attempt: nat)
    requires
        p.multiplier == TWO,
        1 <= attempt,
        p.initial_delay * pow2((attempt - 1) as nat) <= p.max_delay,
        p.initial_delay * pow2((attempt - 1) as nat) < 0x2_0000_0000_0000,
    ensures
        base_of(p, attempt) == p.initial_delay * pow2((attempt - 1) as nat),
{
    let n = p.initial_delay * pow2((attempt - 1) as nat);
    let cap = cap_of(p);
    lemma_pow2_pos((attempt - 1) as nat);
    assert(n >= 0) by (nonlinear_arith)
        requires
            n == p.initial_delay * pow2((attempt - 1) as nat),
    ;
    lemma_doubled(p, attempt);
    let free = uncapped(p, attempt);
    lemma_near(p, attempt, free);
    if cap < free {
        lemma_capless(p, attempt, free);
        lemma_exact_nanos(p.max_delay);
    }
}

/// What the base delay would be without a cap on the last step, in seconds.
spec fn uncapped(p: ReconnectPolicy, attempt: nat) -> u64 {
    if attempt <= 1 {
        seconds(p.initial_delay)
    } else {
        product(grown_of(p, (attempt - 1) as nat), TWO)
    }
}

/// A time of less than 2^49 nanoseconds comes back from seconds.
proof fn lemma_exact_nanos(ns: u64)
    requires
        ns < 0x2_0000_0000_0000,
    ensures
        nanos_of(seconds(ns)) == ns,
{
    let t = pow2(1074) as int;
    lemma_pow2_pos(1074);
    seconds_are_close(ns);
    let x = 1_000_000_000 * units(seconds(ns) as int);
    assert(ns * t < 0x2_0000_0000_0000 * t) by (nonlinear_arith)
        requires
            ns < 0x2_0000_0000_0000,
            t > 0,
    ;
    nanos_are_near(seconds(ns), ns);
}

/// What was doubled is off by less than half a nanosecond.
proof fn lemma_near(p: ReconnectPolicy, attempt: nat, free: u64)
    requires
        1 <= attempt,
        p.initial_delay * pow2((attempt - 1) as nat) < 0x2_0000_0000_0000,
        units(free as int) == units(seconds(p.initial_delay) as int) * pow2((attempt - 1) as nat),
        free < INFINITY,
    ensures
        nanos_of(free) == p.initial_delay * pow2((attempt - 1) as nat),
        2 * (1_000_000_000 * units(free as int) - p.initial_delay * pow2((attempt - 1) as nat)
            * pow2(1074)) < pow2(1074),
{
    let t = pow2(1074) as int;
    let q = pow2((attempt - 1) as nat) as int;
    let d = p.initial_delay as int;
    let n = d * q;
    let u = 1_000_000_000 * units(seconds(p.initial_delay) as int);
    let x = 1_000_000_000 * units(free as int);
    let k = 0x4_0000_0000_0000int;
    lemma_pow2_pos(1074);
    lemma_pow2_pos((attempt - 1) as nat);
    seconds_are_close(p.initial_delay);
    assert(n >= 0) by (nonlinear_arith)
        requires
            n == d * q,
            d >= 0,
            q > 0,
    ;
    assert(x == u * q) by (nonlinear_arith)
        requires
            x == 1_000_000_000 * (units(seconds(p.initial_delay) as int) * q),
            u == 1_000_000_000 * units(seconds(p.initial_delay) as int),
    ;
    assert((x - n * t) * k <= n * t) by (nonlinear_arith)
        requires
            x == u * q,
            n == d * q,
            (u - d * t) * k <= d * t,
            q > 0,
    ;
    assert((n * t - x) * k <= n * t) by (nonlinear_arith)
        requires
            x == u * q,
            n == d * q,
            (d * t - u) * k <= d * t,
            q > 0,
    ;
    assert(n * t < 0x2_0000_0000_0000 * t) by (nonlinear_arith)
        requires
            n < 0x2_0000_0000_0000,
            t > 0,
    ;
    nanos_are_near(free, n as u64);
}

/// Only a cap that is no longer than what was doubled cuts it.
proof fn lemma_capless(p: ReconnectPolicy, attempt: nat, free: u64)
    requires
        1 <= attempt,
        p.initial_delay * pow2((attempt - 1) as nat) <= p.max_delay,
        p.initial_delay * pow2((attempt - 1) as nat) < 0x2_0000_0000_0000,
        units(free as int) == units(seconds(p.initial_delay) as int) * pow2((attempt - 1) as nat),
        cap_of(p) < free < INFINITY,
    ensures
        p.max_delay == p.initial_delay * pow2((attempt - 1) as nat),
{
    let t = pow2(1074) as int;
    let n = p.initial_delay * pow2((attempt - 1) as nat);
    let m = p.max_delay as int;
    let x = 1_000_000_000 * units(free as int);
    let y = 1_000_000_000 * units(cap_of(p) as int);
    let k = 0x4_0000_0000_0000int;
    lemma_pow2_pos(1074);
    lemma_near(p, attempt, free);
    seconds_are_close(p.max_delay);
    patterns_are_ordered(cap_of(p) as int, free as int);
    if m > n {
        // y is at least m * t less a 2^50th, x at most n * t and a half.
        assert(k * y >= (k - 1) * (m * t));
        assert((k - 1) * (m * t) >= (k - 1) * ((n + 1) * t)) by (nonlinear_arith)
            requires
                m >= n + 1,
                t > 0,
                k > 1,
        ;
        assert(2 * ((k - 1) * ((n + 1) * t)) >= k * (2 * (n * t) + t)) by (nonlinear_arith)
            requires
                0 <= n < 0x2_0000_0000_0000,
                k == 0x4_0000_0000_0000,
                t > 0,
        ;
        assert(k * (2 * x) < k * (2 * (n * t) + t)) by (nonlinear_arith)
            requires
                2 * x < 2 * (n * t) + t,
                k > 0,
        ;
    }
}

proof fn lemma_doubled(p: ReconnectPolicy, attempt: nat)
    requires
        p.multiplier == TWO,
        1 <= attempt,
        p.initial_delay * pow2((attempt - 1) as nat) <= p.max_delay,
        p.initial_delay * pow2((attempt - 1) as nat) < 0x2_0000_0000_0000,
    ensures
        units(uncapped(p, attempt) as int) == units(seconds(p.initial_delay) as int) * pow2(
            (attempt - 1) as nat,
        ),
        uncapped(p, attempt) <= TWO_TO_64 + 2 * BINADE,
        p.initial_delay > 0 ==> uncapped(p, attempt) >= BINADE,
        grown_of(p, attempt) == capped(p, uncapped(p, attempt)),
    decreases attempt,
{
    let d = p.initial_delay as int;
    let t = pow2(1074) as int;
    let s = units(seconds(p.initial_delay) as int);
    lemma_pow2_pos(1074);
    lemma2_to64();
    seconds_are_close(p.initial_delay);
    seconds_are_close(p.max_delay);
    if attempt == 1 {
        assert(s * 1 == s);
    } else {
        let n = (attempt - 1) as nat;
        let m = (n - 1) as nat;
        lemma_pow2_unfold(n);
        lemma_pow2_pos(m);
        let h = pow2(m) as int;
        assert(2 * (d * h) == d * pow2(n)) by (nonlinear_arith)
            requires
                pow2(n) == 2 * h,
        ;
        assert(d * h >= 0) by (nonlinear_arith)
            requires
                d >= 0,
                h > 0,
        ;
        lemma_doubled(p, n);
        let before = grown_of(p, n);
        let free = uncapped(p, n);
        if cap_of(p) < free {
            lemma_capless(p, n, free);
            // Half of what fits under the cap is as long as the cap: both are zero.
            assert(d * h == 0);
            assert(d == 0) by (nonlinear_arith)
                requires
                    d * h == 0,
                    h > 0,
            ;
            assert(p.max_delay == 0);
            assert(units(free as int) == 0) by (nonlinear_arith)
                requires
                    units(free as int) == s * h,
                    s == 0,
            ;
            patterns_are_ordered(cap_of(p) as int, free as int);
        }
        assert(before == free);
        if d > 0 {
            doubling_is_exact(before);
            assert(2 * (s * h) == s * (2 * h)) by (nonlinear_arith);
        } else {
            assert(s == 0);
            assert(s * h == 0) by (nonlinear_arith)
                requires
                    s == 0,
            ;
            if before > 0 {
                patterns_are_ordered(0, before as int);
            }
            assert(before == 0);
            assert(units(0) * units(TWO as int) == 0) by (nonlinear_arith)
                requires
                    units(0) == 0,
            ;
            assert(units(0) * t == 0) by (nonlinear_arith)
                requires
                    units(0) == 0,
            ;
            doubles_are_exact(0, t, 0);
            assert(s * pow2(n) == 0) by (nonlinear_arith)
                requires
                    s == 0,
            ;
        }
    }
}

proof fn lemma_grown(p: ReconnectPolicy, attempt: nat)
    ensures
        grown_of(p, attempt) <= cap_of(p) <= TWO_TO_64 + BINADE,
        grown_of(p, attempt) <= grown_of(p, attempt + 1),
    decreases attempt,
{
    seconds_are_close(p.max_delay);
    if attempt >= 1 && growth_of(p) != INFINITY {
        let before = grown_of(p, attempt);
        lemma_product(before, growth_of(p));
    }
}

/// There is a nearest double to the product of `a` and a factor of at least 1,
/// and it is not less than `a`.
proof fn lemma_product(a: u64, g: u64)
    requires
        a < INFINITY,
        ONE <= g < INFINITY,
    ensures
        a <= product(a, g),
{
    product_exists(a, g);
    growth_does_not_shrink(a, g, product(a, g));
}

/// The parts of a jittered delay are finite.
proof fn lemma_drawn(base: u64, unit: u64)
    requires
        unit < ONE,
    ensures
        ({
            let half = quotient(seconds(base), TWO);
            let part = product(half, unit);
            &&& half <= TWO_TO_64 + BINADE
            &&& part <= TWO_TO_64 + BINADE
            &&& sum(half, part) <= TWO_TO_64 + 2 * BINADE
        }),
{
    let t = pow2(1074) as int;
    let all = seconds(base);
    let half = quotient(all, TWO);
    let part = product(half, unit);
    lemma_pow2_pos(1074);
    seconds_are_close(base);
    lemma_two();
    let u = units(all as int);
    if all > 0 {
        patterns_are_ordered(0, all as int);
    }
    assert(u * t <= u * (2 * t)) by (nonlinear_arith)
        requires
            u >= 0,
            t > 0,
    ;
    rounded_is_nearest(u * t, 2 * t);
    rounding_keeps_to_its_side(u * t, 2 * t, half, all);
    if half > 0 {
        patterns_are_ordered(0, half as int);
    }
    patterns_are_ordered(unit as int, ONE as int);
    let h = units(half as int);
    let v = units(unit as int);
    assert(h * v <= h * t) by (nonlinear_arith)
        requires
            h >= 0,
            v <= t,
    ;
    product_exists(half, unit);
    rounding_keeps_to_its_side(h * v, t, part, half);
    sums_are_bounded(half, part, (TWO_TO_64 + BINADE) as u64);
}

proof fn lemma_two()
    ensures
        units(ONE as int) == pow2(1074),
        units(TWO as int) == 2 * pow2(1074),
{
    lemma2_to64();
    lemma2_to64_rest();
    lemma_pow2_adds(52, 1022);
    assert(ONE as int / 0x10_0000_0000_0000 == 1023 && ONE as int % 0x10_0000_0000_0000 == 0);
    doubling_is_exact(ONE);
    assert(ONE + BINADE == TWO);
}

impl ReconnectPolicy {
    /// Retry forever (still bounded per-attempt by `max_delay`).
    #[must_use]
    pub fn unlimited(self) -> (p: Self)
        ensures
            p == (ReconnectPolicy { max_attempts: None, ..self }),
    {
        ReconnectPolicy { max_attempts: None, ..self }
    }

    /// Deterministic schedule for tests.
    #[must_use]
    pub fn deterministic(self, seed: u64) -> (p: Self)
        ensures
            p == (ReconnectPolicy { jitter_seed: Some(seed), ..self }),
    {
        ReconnectPolicy { jitter_seed: Some(seed), ..self }
    }

    /// The unjittered base delay for a 1-based attempt number.
    pub fn base_delay(&self, attempt: u32) -> (delay: u64)
        ensures
            delay == base_of(*self, attempt as nat),
    {
        let cap: u64 = in_seconds(self.max_delay);
        let first: u64 = in_seconds(self.initial_delay);
        let growth: u64 = if ONE <= self.multiplier && self.multiplier <= INFINITY {
            self.multiplier
        } else {
            ONE
        };
        let mut delay: u64 = if first < cap {
            first
        } else {
            cap
        };
        proof {
            assert(grown_of(*self, 0) == grown_of(*self, 1));
        }
        let mut at: u32 = 1;
        while at < attempt && delay < cap
            invariant
                cap == cap_of(*self),
                cap < INFINITY,
                growth == growth_of(*self),
                at >= 1,
                at <= attempt || attempt == 0 && at == 1,
                delay <= cap,
                delay == grown_of(*self, at as nat),
            decreases attempt - at,
        {
            delay = if growth == INFINITY {
                cap
            } else {
                let grown: u64 = multiply(delay, growth);
                if grown < cap {
                    grown
                } else {
                    cap
                }
            };
            at = at + 1;
        }
        proof {
            if at < attempt {
                lemma_capped(*self, at as nat, attempt as nat);
            }
            assert(delay == grown_of(*self, attempt as nat));
        }
        let base: u64 = to_nanos(delay);
        if base < self.max_delay {
            base
        } else {
            self.max_delay
        }
    }

    /// Jittered delay for a 1-based attempt number: uniform in `[base/2, base)`.
    pub fn delay(&self, attempt: u32, rng: &mut Rng) -> (delay: u64)
        ensures
            final(rng)@ == rng_step(old(rng)@),
            delay == jittered(base_of(*self, attempt as nat), rng_output(final(rng)@)),
    {
        let base: u64 = self.base_delay(attempt);
        let unit: u64 = rng.next_f64();
        proof {
            lemma_drawn(base, unit);
            lemma_two();
            patterns_are_ordered(0, TWO as int);
        }
        let half: u64 = divide(in_seconds(base), TWO);
        let delay: u64 = to_nanos(plus(half, multiply(half, unit)));
        if delay < base / 2 {
            base / 2
        } else if base == 0 {
            0
        } else if delay < base - 1 {
            delay
        } else {
            base - 1
        }
    }
}

proof fn lemma_capped(p: ReconnectPolicy, at: nat, attempt: nat)
    requires
        1 <= at <= attempt,
        grown_of(p, at) == cap_of(p),
    ensures
        grown_of(p, attempt) == cap_of(p),
    decreases attempt,
{
    if at < attempt {
        lemma_capped(p, at, (attempt - 1) as nat);
        lemma_grown(p, (attempt - 1) as nat);
        lemma_grown(p, attempt);
    }
}

/// Session-level resilience knobs.
#[derive(Debug, Clone, Copy, PartialEq, Eq, Structural)]
pub struct SessionPolicy {
    /// Backoff schedule for reconnect attempts.
    pub reconnect: ReconnectPolicy,
    /// Reconnect when the transport reports no forward progress for this long
    /// (a zombie connection the kernel keeps happily buffering for), in
    /// nanoseconds. Transports that never report progress are never stalled
    /// out.
    pub stall_timeout: u64,
}

impl Default for SessionPolicy {
    fn default() -> (p: Self)
        ensures
            p.stall_timeout == 10_000_000_000,
            p.reconnect == (ReconnectPolicy {
                initial_delay: 250_000_000,
                max_delay: 8_000_000_000,
                multiplier: TWO,
                max_attempts: Some(12),
                jitter_seed: None,
            }),
    {
        SessionPolicy { reconnect: ReconnectPolicy::default(), stall_timeout: 10_000_000_000 }
    }
}

// ---------------------------------------------------------------------------
// The session
// ---------------------------------------------------------------------------

/// Where the session currently is.
#[derive(Debug, Clone, Copy, PartialEq, Eq, Structural)]
pub enum SessionState {
    /// Created but [`start`](Session::start) was never called.
    Idle,
    /// Transport attached and streaming.
    Connected,
    /// Transport is down; reconnect attempts run on the backoff schedule.
    Reconnecting,
    /// The retry budget ran out. [`retry`](Session::retry) re-arms.
    Exhausted,
    /// [`finish`](Session::finish) ended the stream; terminal.
    Finished,
}

/// Errors surfaced by the session.
#[derive(Debug)]
pub enum SessionError {
    /// The engine failed while muxing/draining.
    Engine(EngineError),
    /// The initial [`start`](Session::start) could not connect at all.
    Connect(IoError),
    /// Every reconnect attempt failed.
    GiveUp {
        /// How many attempts were made.
        attempts: u32,
        /// Description of the final failure.
        last: String,
    },
    /// [`tick`](Session::tick) called before [`start`](Session::start).
    NotStarted,
    /// The session already [`finish`](Session::finish)ed.
    Finished,
}

/// A session error in words.
pub open spec fn session_error_text(e: SessionError) -> Seq<char> {
    match e {
        SessionError::Engine(e) => "engine: "@ + engine_error_text(e),
        SessionError::Connect(e) => "connect: "@ + e.message@,
        SessionError::GiveUp { attempts, last } => "gave up after "@ + decimal(attempts as nat)
            + " reconnect attempts: "@ + last@,
        SessionError::NotStarted => "session not started"@,
        SessionError::Finished => "session finished"@,
    }
}

impl SessionError {
    /// The error in words.
    pub fn message(&self) -> (text: String)
        ensures
            text@ == session_error_text(*self),
    {
        match self {
            SessionError::Engine(e) => {
                let mut out: String = "engine: ".to_owned();
                let inner: String = e.message();
                out.append(inner.as_str());
                out
            },
            SessionError::Connect(e) => {
                let mut out: String = "connect: ".to_owned();
                out.append(e.message.as_str());
                out
            },
            SessionError::GiveUp { attempts, last } => {
                let mut out: String = "gave up after ".to_owned();
                append_decimal(&mut out, *attempts as u64);
                out.append(" reconnect attempts: ");
                out.append(last.as_str());
                out
            },
            SessionError::NotStarted => "session not started".to_owned(),
            SessionError::Finished => "session finished".to_owned(),
        }
    }
}

/// A session's state as a mathematical value.
#[verifier::ext_equal]
pub struct SessionView {
    /// Where it is.
    pub state: SessionState,
    /// Failed attempts since the connection last succeeded.
    pub attempt: u32,
    /// When the next attempt may run, in nanoseconds on the session's clock.
    pub next_attempt_at: Option<u64>,
    /// Successful reconnects.
    pub reconnects: u64,
    /// The most recent failure.
    pub last_error: Option<Seq<char>>,
    /// The jitter generator's state.
    pub rng: u64,
}

/// A number one up, held to the range of the type.
pub open spec fn one_up(n: u32) -> u32 {
    if n == u32::MAX {
        n
    } else {
        (n + 1) as u32
    }
}

/// A time later by `delay`, held to the range of the type.
pub open spec fn later(now: u64, delay: int) -> u64 {
    if now + delay > u64::MAX {
        u64::MAX
    } else {
        (now + delay) as u64
    }
}

/// How a reconnect attempt came out.
pub enum Dial<T> {
    /// The backoff has not elapsed: nothing was attempted.
    Waiting,
    /// There is a fresh connection.
    Up(T),
    /// The attempt failed, with this description.
    Down(Seq<char>),
}

impl SessionView {
    /// The session once its connection is gone: an immediate first attempt is
    /// armed.
    pub open spec fn disconnected(self, error: Seq<char>) -> SessionView {
        SessionView {
            state: SessionState::Reconnecting,
            attempt: 0,
            next_attempt_at: None,
            last_error: Some(error),
            ..self
        }
    }

    /// True if a reconnect may be attempted at `now`.
    pub open spec fn due(self, now: u64) -> bool {
        match self.next_attempt_at {
            Some(at) => now >= at,
            None => true,
        }
    }

    /// The session once a reconnect attempt succeeded.
    pub open spec fn reconnected(self) -> SessionView {
        SessionView {
            state: SessionState::Connected,
            attempt: 0,
            next_attempt_at: None,
            reconnects: self.reconnects.wrapping_add(1),
            ..self
        }
    }

    /// True if one more failed attempt uses the budget up.
    pub open spec fn spent(self, policy: ReconnectPolicy) -> bool {
        policy.max_attempts matches Some(max) && one_up(self.attempt) >= max
    }

    /// The session once a reconnect attempt failed: it gives up, or the next
    /// attempt is scheduled.
    pub open spec fn refused(
        self,
        policy: ReconnectPolicy,
        now: u64,
        error: Seq<char>,
    ) -> SessionView {
        let failed = SessionView {
            attempt: one_up(self.attempt),
            last_error: Some(error),
            ..self
        };
        if self.spent(policy) {
            SessionView { state: SessionState::Exhausted, ..failed }
        } else {
            let rng = rng_step(self.rng);
            SessionView {
                rng,
                next_attempt_at: Some(
                    later(now, jittered(base_of(policy, failed.attempt as nat), rng_output(rng))),
                ),
                ..failed
            }
        }
    }

    /// The session behind a reconnect attempt.
    pub open spec fn dialed<T>(
        self,
        policy: ReconnectPolicy,
        now: u64,
        dial: Dial<T>,
    ) -> SessionView {
        match dial {
            Dial::Waiting => self,
            Dial::Up(_) => self.reconnected(),
            Dial::Down(error) => self.refused(policy, now, error),
        }
    }
}

/// The times that a pump step reads.
#[derive(Debug, Clone, Copy, PartialEq, Eq, Structural)]
pub struct Readings {
    /// When it was checked whether the transport has stalled.
    pub check: u64,
    /// When the buffer had been drained.
    pub drained: Moment,
    /// When it was checked whether a reconnect attempt is due.
    pub due: u64,
    /// When the attempt was over.
    pub dialed: Moment,
}

impl Readings {
    /// A step that takes no time.
    pub open spec fn at(now_ns: u64, wall_ms: u64) -> Readings {
        let m = Moment { now_ns, wall_ms };
        Readings { check: now_ns, drained: m, due: now_ns, dialed: m }
    }
}

/// What a connector's answer comes down to.
pub open spec fn dial_of<T>(outcome: Result<T, IoError>) -> Dial<T> {
    match outcome {
        Ok(transport) => Dial::Up(transport),
        Err(e) => Dial::Down(e.message@),
    }
}

/// A collector that has been told of a successful reconnect.
pub open spec fn back_up(qos: QosView) -> QosView {
    qos.with_event(EventView::Reconnected).with_event(EventView::Connected)
}

/// A collector that has been told of a failed reconnect attempt, and of the
/// end of the attempts where it was the last.
pub open spec fn still_down(qos: QosView, attempt: u32, last: bool, error: Seq<char>) -> QosView {
    let told = qos.with_event(EventView::ReconnectAttempt(attempt, Some(error)));
    if last {
        told.with_event(EventView::GaveUp(attempt, Some(error)))
    } else {
        told
    }
}

/// The records of a connection that was lost, behind those of its being
/// detached.
pub open spec fn lost_note(book: BookView, awaiting: bool, error: Seq<char>) -> BookView {
    (if awaiting {
        book.noted(
            Level::Warn,
            "stream::engine"@,
            "awaiting a keyframe before resuming"@,
            Seq::empty(),
        )
    } else {
        book
    }).noted(Level::Info, "stream::engine"@, "transport detached"@, Seq::empty()).failed(
        Level::Warn,
        "stream::session"@,
        "transport lost, reconnecting"@,
        error,
    )
}

/// The records of a connection that came about, the first one or a later one.
pub open spec fn attached_note(
    book: BookView,
    message: Seq<char>,
    fields: Seq<(Seq<char>, FieldView)>,
) -> BookView {
    book.noted(Level::Info, "stream::engine"@, "transport attached"@, Seq::empty()).noted(
        Level::Info,
        "stream::session"@,
        message,
        fields,
    )
}

/// The records of a failed reconnect attempt, and of the end of the attempts
/// where it was the last.
pub open spec fn refused_note(
    book: BookView,
    attempt: u32,
    last: bool,
    error: Seq<char>,
) -> BookView {
    let told = book.noted(
        Level::Warn,
        "stream::session"@,
        "reconnect attempt failed"@,
        seq![
            ("attempt"@, FieldView::Uint(attempt as u64)),
            ("error"@, FieldView::Str(error)),
        ],
    );
    if last {
        told.noted(
            Level::Error,
            "stream::session"@,
            "gave up reconnecting"@,
            seq![("attempts"@, FieldView::Uint(attempt as u64))],
        )
    } else {
        told
    }
}

/// What a stalled transport is reported as.
pub open spec fn stall_text(timeout_ns: u64) -> Seq<char> {
    "no transport progress for "@ + duration_text(timeout_ns as nat)
}

/// True if a transport that last made progress at `progress_ns` has stalled by
/// `now_ns`.
pub open spec fn stalled_by(progress_ns: Option<u64>, now_ns: u64, timeout_ns: u64) -> bool {
    progress_ns matches Some(at) && since(now_ns, at) >= timeout_ns
}

/// A stream session: engine + connector + reconnect policy, kept alive across
/// failures. Drive it from the platform's pump loop: `push` packets in,
/// `tick()` regularly.
pub struct Session<C: Connector, O: PacketSink> {
    engine: Engine<C::Transport, O>,
    connector: C,
    policy: SessionPolicy,
    clock: Clock,
    rng: Rng,
    state: SessionState,
    /// Failed attempts since the connection last succeeded.
    attempt: u32,
    /// When the next reconnect attempt is allowed to run.
    next_attempt_at: Option<u64>,
    /// Successful reconnects since creation (telemetry).
    reconnects: u64,
    /// Description of the most recent failure (telemetry/UI).
    last_error: Option<String>,
}

impl<C: Connector, O: PacketSink> View for Session<C, O> {
    type V = SessionView;

    closed spec fn view(&self) -> SessionView {
        SessionView {
            state: self.state,
            attempt: self.attempt,
            next_attempt_at: self.next_attempt_at,
            reconnects: self.reconnects,
            last_error: opt_text(self.last_error),
            rng: self.rng@,
        }
    }
}

impl<C: Connector, O: PacketSink> Session<C, O> {
    /// The engine.
    pub closed spec fn spec_engine(&self) -> Engine<C::Transport, O> {
        self.engine
    }

    /// The policy.
    pub closed spec fn spec_policy(&self) -> SessionPolicy {
        self.policy
    }

    /// What every dial of the connector so far gave, in order.
    pub closed spec fn spec_dials(&self) -> Seq<Result<C::Transport, IoError>> {
        self.connector.dials()
    }

    /// The engine is well-formed.
    pub closed spec fn wf(&self) -> bool {
        self.engine.wf()
    }

    /// Build a session from stream config, a connector, and a resilience
    /// policy. Not connected until [`start`](Self::start).
    pub fn new(config: EngineConfig, connector: C, policy: SessionPolicy) -> (s: Self)
        ensures
            s.wf(),
            s.spec_policy() == policy,
            s.spec_dials() == connector.dials(),
            s.spec_engine()@ == EngineView::fresh(config),
            s.spec_engine().spec_config() == config,
            s.spec_engine().spec_outputs() == Seq::<O>::empty(),
            s.spec_engine().spec_transport() is None,
            s.spec_book() == BookView::closed(),
            s@ == (SessionView {
                state: SessionState::Idle,
                attempt: 0,
                next_attempt_at: None,
                reconnects: 0,
                last_error: None,
                rng: s@.rng,
            }),
            policy.reconnect.jitter_seed matches Some(seed) ==> s@.rng == seed,
    {
        Session::with_clock(config, connector, policy, Clock::new())
    }

    /// Build a session that tells the time by `clock`: the clock on which its
    /// transports report their progress.
    pub fn with_clock(config: EngineConfig, connector: C, policy: SessionPolicy, clock: Clock) -> (s:
        Self)
        ensures
            s.wf(),
            s.spec_policy() == policy,
            s.spec_dials() == connector.dials(),
            s.spec_engine()@ == EngineView::fresh(config),
            s.spec_engine().spec_config() == config,
            s.spec_engine().spec_outputs() == Seq::<O>::empty(),
            s.spec_engine().spec_transport() is None,
            s.spec_book() == BookView::closed(),
            s@ == (SessionView {
                state: SessionState::Idle,
                attempt: 0,
                next_attempt_at: None,
                reconnects: 0,
                last_error: None,
                rng: s@.rng,
            }),
            policy.reconnect.jitter_seed matches Some(seed) ==> s@.rng == seed,
    {
        let rng: Rng = match policy.reconnect.jitter_seed {
            Some(seed) => Rng::seeded(seed),
            None => Rng::from_time(),
        };
        Session {
            engine: Engine::with_clock(config, clock),
            connector,
            policy,
            clock,
            rng,
            state: SessionState::Idle,
            attempt: 0,
            next_attempt_at: None,
            reconnects: 0,
            last_error: None,
        }
    }

    /// Shared access to the engine (stats, ...).
    pub fn engine(&self) -> (e: &Engine<C::Transport, O>)
        ensures
            *e == self.spec_engine(),
            self.wf() ==> e.wf(),
    {
        &self.engine
    }

    /// The log records that wait to be delivered.
    pub open spec fn spec_book(&self) -> BookView {
        self.spec_engine().spec_book()
    }

    /// True if nothing but the log records differs.
    spec fn only_noted(&self, next: &Self) -> bool {
        &&& next.wf()
        &&& *next == Session { engine: next.engine, ..*self }
        &&& next.engine@ == self.engine@
        &&& self.engine.beside(&next.engine)
    }

    /// Keep a log record.
    fn note(&mut self, level: Level, message: &str, fields: &[Field<'_>])
        requires
            old(self).wf(),
        ensures
            old(self).only_noted(final(self)),
            final(self).spec_book() == old(self).spec_book().noted(
                level,
                "stream::session"@,
                message@,
                (Record { level, module: "stream::session", message, fields })@.fields,
            ),
    {
        self.engine.note(level, "stream::session", message, fields);
    }

    /// Keep a log record without attributes.
    fn mark(&mut self, level: Level, message: &str)
        requires
            old(self).wf(),
        ensures
            old(self).only_noted(final(self)),
            final(self).spec_book() == old(self).spec_book().noted(
                level,
                "stream::session"@,
                message@,
                Seq::empty(),
            ),
    {
        let fields: [Field<'_>; 0] = [];
        let list: &[Field<'_>] = fields.as_slice();
        assert((Record { level, module: "stream::session", message, fields: list })@.fields
            =~= Seq::empty());
        self.note(level, message, list);
    }

    /// Keep a log record with a number.
    fn count(&mut self, level: Level, message: &str, key: &str, n: u64)
        requires
            old(self).wf(),
        ensures
            old(self).only_noted(final(self)),
            final(self).spec_book() == old(self).spec_book().noted(
                level,
                "stream::session"@,
                message@,
                seq![(key@, FieldView::Uint(n))],
            ),
    {
        let fields: [Field<'_>; 1] = [Field { key, value: FieldValue::Uint(n) }];
        let list: &[Field<'_>] = fields.as_slice();
        assert((Record { level, module: "stream::session", message, fields: list })@.fields =~= seq![
            (key@, FieldView::Uint(n)),
        ]);
        self.note(level, message, list);
    }

    /// Keep a log record of a failure.
    fn fail(&mut self, level: Level, message: &str, error: &str)
        requires
            old(self).wf(),
        ensures
            old(self).only_noted(final(self)),
            final(self).spec_book() == old(self).spec_book().failed(
                level,
                "stream::session"@,
                message@,
                error@,
            ),
    {
        let fields: [Field<'_>; 1] = [Field { key: "error", value: FieldValue::Str(error) }];
        let list: &[Field<'_>] = fields.as_slice();
        assert((Record { level, module: "stream::session", message, fields: list })@.fields =~= seq![
            ("error"@, FieldView::Str(error@)),
        ]);
        self.note(level, message, list);
    }

    /// Keep log records up to this level, and no others; `None` keeps none.
    pub fn set_log_level(&mut self, max: Option<Level>)
        requires
            old(self).wf(),
        ensures
            final(self).wf(),
            final(self)@ == old(self)@,
            final(self).spec_policy() == old(self).spec_policy(),
            final(self).spec_dials() == old(self).spec_dials(),
            final(self).spec_engine()@ == old(self).spec_engine()@,
            old(self).spec_engine().beside(&final(self).spec_engine()),
            final(self).spec_book() == (BookView { max, ..old(self).spec_book() }),
    {
        self.engine.set_log_level(max);
    }

    /// The log records to deliver, in the order in which they came: the
    /// session's and its engine's.
    pub fn take_records(&mut self) -> (records: Vec<Entry>)
        requires
            old(self).wf(),
        ensures
            final(self).wf(),
            final(self)@ == old(self)@,
            final(self).spec_policy() == old(self).spec_policy(),
            final(self).spec_dials() == old(self).spec_dials(),
            final(self).spec_engine()@ == old(self).spec_engine()@,
            old(self).spec_engine().beside(&final(self).spec_engine()),
            entry_views(records@) == old(self).spec_book().records,
            final(self).spec_book() == (BookView {
                records: Seq::empty(),
                ..old(self).spec_book()
            }),
    {
        self.engine.take_records()
    }

    /// Say whether there is a sink for samples: see [`Engine::set_sink`].
    pub fn set_sink(&mut self, installed: bool)
        requires
            old(self).wf(),
        ensures
            final(self).wf(),
            final(self)@ == old(self)@,
            final(self).spec_policy() == old(self).spec_policy(),
            final(self).spec_book() == old(self).spec_book(),
            final(self).spec_dials() == old(self).spec_dials(),
            final(self).spec_engine()@ == (EngineView {
                qos: QosView { sink: installed, ..old(self).spec_engine()@.qos },
                ..old(self).spec_engine()@
            }),
            old(self).spec_engine().beside(&final(self).spec_engine()),
    {
        self.engine.set_sink(installed);
    }

    /// Say whether there is a sink for events: see [`Engine::set_event_sink`].
    pub fn set_event_sink(&mut self, installed: bool)
        requires
            old(self).wf(),
        ensures
            final(self).wf(),
            final(self)@ == old(self)@,
            final(self).spec_policy() == old(self).spec_policy(),
            final(self).spec_book() == old(self).spec_book(),
            final(self).spec_dials() == old(self).spec_dials(),
            final(self).spec_engine()@ == (EngineView {
                qos: QosView { event_sink: installed, ..old(self).spec_engine()@.qos },
                ..old(self).spec_engine()@
            }),
            old(self).spec_engine().beside(&final(self).spec_engine()),
    {
        self.engine.set_event_sink(installed);
    }

    /// The samples to deliver to the sink, in the order in which they came.
    pub fn take_samples(&mut self) -> (samples: Vec<QosSample>)
        requires
            old(self).wf(),
        ensures
            final(self).wf(),
            final(self)@ == old(self)@,
            final(self).spec_policy() == old(self).spec_policy(),
            final(self).spec_book() == old(self).spec_book(),
            final(self).spec_dials() == old(self).spec_dials(),
            sample_views(samples@) == old(self).spec_engine()@.qos.undelivered,
            final(self).spec_engine()@ == (EngineView {
                qos: QosView { undelivered: Seq::empty(), ..old(self).spec_engine()@.qos },
                ..old(self).spec_engine()@
            }),
            old(self).spec_engine().beside(&final(self).spec_engine()),
    {
        self.engine.take_samples()
    }

    /// The events to deliver to the sink, in the order in which they came.
    pub fn take_events(&mut self) -> (events: Vec<QosEvent>)
        requires
            old(self).wf(),
        ensures
            final(self).wf(),
            final(self)@ == old(self)@,
            final(self).spec_policy() == old(self).spec_policy(),
            final(self).spec_book() == old(self).spec_book(),
            final(self).spec_dials() == old(self).spec_dials(),
            event_views(events@) == old(self).spec_engine()@.qos.undelivered_events,
            final(self).spec_engine()@ == (EngineView {
                qos: QosView { undelivered_events: Seq::empty(), ..old(self).spec_engine()@.qos },
                ..old(self).spec_engine()@
            }),
            old(self).spec_engine().beside(&final(self).spec_engine()),
    {
        self.engine.take_events()
    }

    /// Attach a packet-level output to the engine.
    pub fn attach_output(&mut self, sink: O) -> (n: usize)
        requires
            old(self).wf(),
        ensures
            final(self).wf(),
            final(self)@ == old(self)@,
            final(self).spec_policy() == old(self).spec_policy(),
            final(self).spec_book() == old(self).spec_book().noted(
                Level::Info,
                "stream::engine"@,
                "output attached"@,
                seq![("outputs"@, FieldView::Uint(n as u64))],
            ),
            final(self).spec_dials() == old(self).spec_dials(),
            n == final(self).spec_engine().spec_outputs().len(),
            old(self).spec_engine().joined(&final(self).spec_engine(), sink.calls()),
    {
        self.engine.attach_output(sink)
    }

    /// Hand over codec configs; cached by the engine and re-emitted after
    /// every reconnect.
    pub fn configure_codecs(&mut self, avcc: Option<&[u8]>, asc: Option<&[u8]>) -> (r: Result<
        (),
        EngineError,
    >)
        requires
            old(self).wf(),
        ensures
            final(self).wf(),
            final(self)@ == old(self)@,
            final(self).spec_policy() == old(self).spec_policy(),
            final(self).spec_book() == old(self).spec_book(),
            final(self).spec_dials() == old(self).spec_dials(),
            old(self).spec_engine().configured(
                &final(self).spec_engine(),
                opt_slice(avcc),
                opt_slice(asc),
                r,
            ),
    {
        self.engine.configure_codecs(avcc, asc)
    }

    /// Queue a packet. Works in every state — while the connection is down,
    /// the bounded buffer absorbs capture output (drop policy applies).
    pub fn push(&mut self, pkt: MediaPacket) -> (r: Result<(), EngineError>)
        requires
            old(self).wf(),
            old(self).spec_engine()@.pushed < u64::MAX,
        ensures
            r is Ok,
            final(self).wf(),
            final(self)@ == old(self)@,
            final(self).spec_policy() == old(self).spec_policy(),
            final(self).spec_book() == cut_note(
                old(self).spec_book(),
                pushed_onto(
                    old(self).spec_engine()@.buffer,
                    budget_of(old(self).spec_engine().spec_config().profile),
                    pkt@,
                ),
                old(self).spec_engine().spec_config().profile,
            ),
            final(self).spec_dials() == old(self).spec_dials(),
            ({
                let v = old(self).spec_engine()@;
                let profile = old(self).spec_engine().spec_config().profile;
                let all = pushed_onto(
                    v.buffer,
                    budget_of(profile),
                    pkt@,
                );
                let held = EngineView::held(all, profile);
                final(self).spec_engine()@ == (EngineView {
                    buffer: held,
                    pushed: v.pushed + 1,
                    dropped: (v.dropped + v.buffer.len() + 1 - held.len()) as nat,
                    ..v
                })
            }),
            old(self).spec_engine().beside(&final(self).spec_engine()),
    {
        self.engine.push(pkt)
    }

    /// Queue a batch of packets.
    pub fn push_all(&mut self, pkts: Vec<MediaPacket>) -> (r: Result<(), EngineError>)
        requires
            old(self).wf(),
            old(self).spec_engine()@.pushed + pkts@.len() <= u64::MAX,
        ensures
            r is Ok,
            final(self).wf(),
            final(self)@ == old(self)@,
            final(self).spec_policy() == old(self).spec_policy(),
            final(self).spec_book() == cut_note(
                old(self).spec_book(),
                pushed_all(
                    old(self).spec_engine()@.buffer,
                    budget_of(old(self).spec_engine().spec_config().profile),
                    packets(pkts@),
                ),
                old(self).spec_engine().spec_config().profile,
            ),
            final(self).spec_dials() == old(self).spec_dials(),
            ({
                let v = old(self).spec_engine()@;
                let profile = old(self).spec_engine().spec_config().profile;
                let all = pushed_all(
                    v.buffer,
                    budget_of(profile),
                    packets(pkts@),
                );
                let held = EngineView::held(all, profile);
                final(self).spec_engine()@ == (EngineView {
                    buffer: held,
                    pushed: v.pushed + pkts@.len(),
                    dropped: (v.dropped + v.buffer.len() + pkts@.len() - held.len()) as nat,
                    ..v
                })
            }),
            old(self).spec_engine().beside(&final(self).spec_engine()),
    {
        self.engine.push_all(pkts)
    }

    /// Establish the initial connection. Unlike reconnects this does not retry
    /// — a broadcaster whose very first connect fails should surface that to
    /// the user, not silently churn in the background.
    pub fn start(&mut self) -> (r: Result<(), SessionError>)
        requires
            old(self).wf(),
        ensures
            final(self).wf(),
            final(self).spec_policy() == old(self).spec_policy(),
            ({
                let outcome = final(self).spec_dials().last();
                &&& final(self).spec_dials() == old(self).spec_dials().push(outcome)
                &&& old(self).launched(final(self), outcome, r)
            }),
    {
        let outcome: Result<C::Transport, IoError> = self.connector.connect();
        self.launch(outcome)
    }

    /// True if `next` is this session once the initial connection came out as
    /// `outcome`, which was reported as `r`.
    pub open spec fn launched(
        &self,
        next: &Self,
        outcome: Result<C::Transport, IoError>,
        r: Result<(), SessionError>,
    ) -> bool {
        let engine = self.spec_engine();
        match outcome {
            Ok(transport) => {
                &&& r is Ok
                &&& next@ == (SessionView { state: SessionState::Connected, ..self@ })
                &&& next.spec_engine()@ == (EngineView {
                    qos: engine@.qos.with_event(EventView::Started).with_event(
                        EventView::Connected,
                    ),
                    ..engine@.attached()
                })
                &&& next.spec_engine().spec_transport() == Some(transport)
                &&& next.spec_engine().spec_config() == engine.spec_config()
                &&& next.spec_engine().spec_outputs() == engine.spec_outputs()
                &&& next.spec_book() == attached_note(
                    self.spec_book(),
                    "stream started"@,
                    Seq::empty(),
                )
            },
            Err(e) => {
                &&& r == Err::<(), SessionError>(SessionError::Connect(e))
                &&& next@ == (SessionView { last_error: Some(e.message@), ..self@ })
                &&& next.spec_engine()@ == engine@
                &&& engine.beside(&next.spec_engine())
                &&& next.spec_book() == self.spec_book().failed(
                    Level::Error,
                    "stream::session"@,
                    "initial connect failed"@,
                    e.message@,
                )
            },
        }
    }

    /// Begin the stream on what dialing gave: the second half of
    /// [`start`](Self::start).
    pub fn launch(&mut self, outcome: Result<C::Transport, IoError>) -> (r: Result<
        (),
        SessionError,
    >)
        requires
            old(self).wf(),
        ensures
            final(self).wf(),
            final(self).spec_policy() == old(self).spec_policy(),
            final(self).spec_dials() == old(self).spec_dials(),
            old(self).launched(final(self), outcome, r),
    {
        match outcome {
            Ok(transport) => {
                let _previous: Option<C::Transport> = self.engine.attach_transport(transport);
                self.state = SessionState::Connected;
                self.mark(Level::Info, "stream started");
                self.engine.record_event(&QosEvent::Started);
                self.engine.record_event(&QosEvent::Connected);
                Ok(())
            },
            Err(e) => {
                self.last_error = Some(e.message.clone());
                self.fail(Level::Error, "initial connect failed", e.message.as_str());
                Err(SessionError::Connect(e))
            },
        }
    }

    /// True when the transport has stopped making forward progress for longer
    /// than the stall timeout. Transports that report no progress (files,
    /// test sinks) can never stall.
    fn stalled(&self, now_ns: u64) -> (stalled: bool)
        ensures
            stalled == self.stalled_at(now_ns),
    {
        match self.engine.transport_progress() {
            Some(at) => (if now_ns > at {
                now_ns - at
            } else {
                0
            }) >= self.policy.stall_timeout,
            None => false,
        }
    }

    /// Enter the reconnecting state: drop the dead transport (the engine cuts
    /// the buffer to the newest keyframe and snapshots the timebase) and arm
    /// an immediate first attempt.
    fn disconnect(&mut self, error: String)
        requires
            old(self).wf(),
        ensures
            final(self).wf(),
            final(self).spec_policy() == old(self).spec_policy(),
            final(self).spec_dials() == old(self).spec_dials(),
            final(self)@ == old(self)@.disconnected(error@),
            final(self).spec_engine()@ == (EngineView {
                qos: old(self).spec_engine()@.qos.with_event(
                    EventView::Disconnected(Some(error@)),
                ),
                ..old(self).spec_engine()@.detached()
            }),
            final(self).spec_engine().spec_config() == old(self).spec_engine().spec_config(),
            final(self).spec_engine().spec_outputs() == old(self).spec_engine().spec_outputs(),
            final(self).spec_engine().spec_baseline() == old(self).spec_engine().spec_baseline(),
            final(self).spec_book() == lost_note(
                old(self).spec_book(),
                final(self).spec_engine()@.awaiting,
                error@,
            ),
    {
        self.engine.detach_transport();
        self.state = SessionState::Reconnecting;
        self.attempt = 0;
        self.next_attempt_at = None;
        self.fail(Level::Warn, "transport lost, reconnecting", error.as_str());
        let event: QosEvent = QosEvent::Disconnected { error: Some(error.clone()) };
        self.engine.record_event(&event);
        self.last_error = Some(error);
    }

    /// A reconnect attempt came through: stream on over the fresh transport.
    fn resume(&mut self, transport: C::Transport)
        requires
            old(self).wf(),
        ensures
            final(self).wf(),
            final(self).spec_policy() == old(self).spec_policy(),
            final(self).spec_dials() == old(self).spec_dials(),
            final(self)@ == old(self)@.reconnected(),
            final(self).spec_engine()@ == (EngineView {
                qos: back_up(old(self).spec_engine()@.qos),
                ..old(self).spec_engine()@.attached()
            }),
            final(self).spec_engine().spec_transport() == Some(transport),
            final(self).spec_engine().spec_media_bytes() == 0,
            final(self).spec_engine().spec_outputs() == old(self).spec_engine().spec_outputs(),
            final(self).spec_engine().spec_config() == old(self).spec_engine().spec_config(),
            final(self).spec_book() == attached_note(
                old(self).spec_book(),
                "reconnected"@,
                seq![("reconnects"@, FieldView::Uint(final(self)@.reconnects))],
            ),
    {
        let _previous: Option<C::Transport> = self.engine.attach_transport(transport);
        self.state = SessionState::Connected;
        self.attempt = 0;
        self.next_attempt_at = None;
        self.reconnects = self.reconnects.wrapping_add(1);
        let reconnects: u64 = self.reconnects;
        self.count(Level::Info, "reconnected", "reconnects", reconnects);
        self.engine.record_event(&QosEvent::Reconnected);
        self.engine.record_event(&QosEvent::Connected);
    }

    /// A reconnect attempt failed: give up when the budget is spent, else
    /// schedule the next one and yield back to the pump.
    fn back_off(&mut self, error: IoError, now_ns: u64) -> (r: Result<usize, SessionError>)
        requires
            old(self).wf(),
        ensures
            final(self).wf(),
            final(self).spec_policy() == old(self).spec_policy(),
            final(self).spec_dials() == old(self).spec_dials(),
            ({
                let policy = old(self).spec_policy().reconnect;
                let text = error.message@;
                &&& final(self)@ == old(self)@.refused(policy, now_ns, text)
                &&& if old(self)@.spent(policy) {
                    r matches Err(SessionError::GiveUp { attempts, last }) && attempts
                        == final(self)@.attempt && last@ == text
                } else {
                    r == Ok::<usize, SessionError>(0)
                }
                &&& final(self).spec_engine()@ == (EngineView {
                    qos: still_down(
                        old(self).spec_engine()@.qos,
                        final(self)@.attempt,
                        old(self)@.spent(policy),
                        text,
                    ),
                    ..old(self).spec_engine()@
                })
            }),
            old(self).spec_engine().beside(&final(self).spec_engine()),
            final(self).spec_book() == refused_note(
                old(self).spec_book(),
                final(self)@.attempt,
                old(self)@.spent(old(self).spec_policy().reconnect),
                error.message@,
            ),
    {
        if self.attempt < u32::MAX {
            self.attempt = self.attempt + 1;
        }
        self.last_error = Some(error.message.clone());
        let attempt: u64 = self.attempt as u64;
        let fields: [Field<'_>; 2] = [
            Field { key: "attempt", value: FieldValue::Uint(attempt) },
            Field { key: "error", value: FieldValue::Str(error.message.as_str()) },
        ];
        let list: &[Field<'_>] = fields.as_slice();
        let ghost level = Level::Warn;
        assert((Record {
            level,
            module: "stream::session",
            message: "reconnect attempt failed",
            fields: list,
        })@.fields =~= seq![
            ("attempt"@, FieldView::Uint(attempt)),
            ("error"@, FieldView::Str(error.message@)),
        ]);
        self.note(Level::Warn, "reconnect attempt failed", list);
        let event: QosEvent = QosEvent::ReconnectAttempt {
            attempt: self.attempt,
            error: Some(error.message.clone()),
        };
        self.engine.record_event(&event);
        if let Some(max) = self.policy.reconnect.max_attempts {
            if self.attempt >= max {
                self.state = SessionState::Exhausted;
                self.count(Level::Error, "gave up reconnecting", "attempts", attempt);
                let over: QosEvent = QosEvent::GaveUp {
                    attempts: self.attempt,
                    error: Some(error.message.clone()),
                };
                self.engine.record_event(&over);
                return Err(
                    SessionError::GiveUp { attempts: self.attempt, last: error.message },
                );
            }
        }
        let delay: u64 = self.policy.reconnect.delay(self.attempt, &mut self.rng);
        self.next_attempt_at = Some(
            if delay > u64::MAX - now_ns {
                u64::MAX
            } else {
                now_ns + delay
            },
        );
        Ok(0)
    }

    /// Attempt reconnects whose backoff has elapsed. One attempt per call —
    /// a failed attempt schedules the next one and yields back to the pump. The
    /// backoff counts from the end of the attempt, however long that took. Gives
    /// the time of the check and that behind the attempt too.
    fn reconnect_phase(&mut self, given: Option<Moment>) -> (r: (
        Result<usize, SessionError>,
        u64,
        Moment,
    ))
        requires
            old(self).wf(),
        ensures
            final(self).wf(),
            final(self).spec_policy() == old(self).spec_policy(),
            old(self).redialed(final(self), r.1, r.2, r.0),
            given matches Some(m) ==> r.1 == m.now_ns && r.2 == m,
    {
        let check: Moment = self.moment(given);
        if let Some(at) = self.next_attempt_at {
            if check.now_ns < at {
                return (Ok(0), check.now_ns, check);
            }
        }
        let outcome: Result<C::Transport, IoError> = self.connector.connect();
        let (r, then): (Result<usize, SessionError>, Moment) = self.settle(
            outcome,
            given,
            check.now_ns,
        );
        (r, check.now_ns, then)
    }

    fn moment(&self, given: Option<Moment>) -> (at: Moment)
        ensures
            given matches Some(m) ==> at == m,
    {
        match given {
            Some(m) => m,
            None => Moment::read(&self.clock),
        }
    }

    /// Stream on over what a reconnect attempt gave, or schedule the next attempt
    /// from here. Gives the time of the first drain, or that from which the
    /// backoff counts, which is not before `since`.
    fn settle(
        &mut self,
        outcome: Result<C::Transport, IoError>,
        given: Option<Moment>,
        since: u64,
    ) -> (r: (Result<usize, SessionError>, Moment))
        requires
            old(self).wf(),
            given matches Some(m) ==> m.now_ns >= since,
        ensures
            final(self).wf(),
            final(self).spec_policy() == old(self).spec_policy(),
            final(self).spec_dials() == old(self).spec_dials(),
            old(self).tried(final(self), r.1.now_ns, r.1.wall_ms, dial_of(outcome), r.0),
            given matches Some(m) ==> r.1 == m,
            outcome is Err ==> r.1.now_ns >= since,
    {
        match outcome {
            Ok(transport) => {
                self.resume(transport);
                let ghost up = self.engine;
                // Resume immediately: flush what the buffer kept (already cut
                // to the newest keyframe by the detach).
                let (done, at): (Result<usize, EngineError>, Moment) = self.engine.tick_in(given);
                let r: Result<usize, SessionError> = match done {
                    Ok(n) => Ok(n),
                    Err(e) => Err(SessionError::Engine(e)),
                };
                assert(Self::resumed(up, self.engine, at.now_ns, at.wall_ms, r));
                (r, at)
            },
            Err(e) => {
                let read: Moment = self.moment(given);
                let at = Moment {
                    now_ns: if read.now_ns < since {
                        since
                    } else {
                        read.now_ns
                    },
                    wall_ms: read.wall_ms,
                };
                (self.back_off(e, at.now_ns), at)
            },
        }
    }

    /// Stream on over what a reconnect attempt at `now_ns` gave, or schedule
    /// the next attempt.
    pub fn redial(
        &mut self,
        outcome: Result<C::Transport, IoError>,
        now_ns: u64,
        wall_ms: u64,
    ) -> (r: Result<usize, SessionError>)
        requires
            old(self).wf(),
        ensures
            final(self).wf(),
            final(self).spec_policy() == old(self).spec_policy(),
            final(self).spec_dials() == old(self).spec_dials(),
            old(self).tried(final(self), now_ns, wall_ms, dial_of(outcome), r),
    {
        self.settle(outcome, Some(Moment { now_ns, wall_ms }), now_ns).0
    }

    /// True if `next` is the freshly connected engine `up` behind its first
    /// drain, which came out as `r`.
    pub open spec fn resumed(
        up: Engine<C::Transport, O>,
        next: Engine<C::Transport, O>,
        now_ns: u64,
        wall_ms: u64,
        r: Result<usize, SessionError>,
    ) -> bool {
        match r {
            Ok(n) => up.stepped(&next, now_ns, wall_ms, Ok(n)),
            Err(SessionError::Engine(e)) => up.stepped(&next, now_ns, wall_ms, Err(e)),
            Err(_) => false,
        }
    }

    /// True if `next` is this session, which is down, behind a pump step that
    /// returned `r`. The connector was dialed once if the backoff had elapsed at
    /// `now_ns`, and not at all if it had not. `then` is the time behind the dial:
    /// the next backoff counts from there.
    pub open spec fn redialed(
        &self,
        next: &Self,
        now_ns: u64,
        then: Moment,
        r: Result<usize, SessionError>,
    ) -> bool {
        if self@.due(now_ns) {
            let outcome = next.spec_dials().last();
            &&& next.spec_dials() == self.spec_dials().push(outcome)
            &&& outcome is Err ==> then.now_ns >= now_ns
            &&& self.tried(next, then.now_ns, then.wall_ms, dial_of(outcome), r)
        } else {
            &&& next.spec_dials() == self.spec_dials()
            &&& self.tried(next, then.now_ns, then.wall_ms, Dial::Waiting, r)
        }
    }

    /// True if `next` is what `dial` at `now_ns`, which was reported as `r`,
    /// makes of this session.
    pub open spec fn tried(
        &self,
        next: &Self,
        now_ns: u64,
        wall_ms: u64,
        dial: Dial<C::Transport>,
        r: Result<usize, SessionError>,
    ) -> bool {
        let policy = self.spec_policy().reconnect;
        let engine = self.spec_engine()@;
        &&& next@ == self@.dialed(policy, now_ns, dial)
        &&& match dial {
            Dial::Waiting => r == Ok::<usize, SessionError>(0) && next.spec_engine()
                == self.spec_engine(),
            Dial::Up(transport) => {
                let fresh = EngineView {
                    qos: back_up(engine.qos),
                    ..engine.attached()
                };
                exists|up: Engine<C::Transport, O>|
                    {
                        &&& up@ == fresh
                        &&& up.spec_transport() == Some(transport)
                        &&& up.spec_media_bytes() == 0
                        &&& up.spec_outputs() == self.spec_engine().spec_outputs()
                        &&& up.spec_config() == self.spec_engine().spec_config()
                        &&& up.spec_book() == attached_note(
                            self.spec_book(),
                            "reconnected"@,
                            seq![("reconnects"@, FieldView::Uint(next@.reconnects))],
                        )
                        &&& #[trigger] Self::resumed(up, next.spec_engine(), now_ns, wall_ms, r)
                    }
            },
            Dial::Down(text) => {
                &&& next.spec_book() == refused_note(
                    self.spec_book(),
                    next@.attempt,
                    self@.spent(policy),
                    text,
                )
                &&& self.spec_engine().beside(&next.spec_engine())
                &&& next.spec_engine()@ == (EngineView {
                    qos: still_down(engine.qos, next@.attempt, self@.spent(policy), text),
                    ..engine
                })
                &&& if self@.spent(policy) {
                    r matches Err(SessionError::GiveUp { attempts, last }) && attempts
                        == next@.attempt && last@ == text
                } else {
                    r == Ok::<usize, SessionError>(0)
                }
            },
        }
    }

    /// True if the transport has stalled by `now_ns`.
    pub open spec fn stalled_at(&self, now_ns: u64) -> bool {
        stalled_by(
            match self.spec_engine().spec_transport() {
                Some(t) => t.progress(),
                None => None,
            },
            now_ns,
            self.spec_policy().stall_timeout,
        )
    }

    /// True if `down` is this session once its connection is gone for the
    /// reason given in `text`, and `last` was the engine then.
    pub open spec fn dropped(
        &self,
        down: &Self,
        last: Engine<C::Transport, O>,
        text: Seq<char>,
    ) -> bool {
        &&& down.spec_policy() == self.spec_policy()
        &&& down.spec_dials() == self.spec_dials()
        &&& down@ == self@.disconnected(text)
        &&& down.spec_engine()@ == (EngineView {
            qos: last@.qos.with_event(EventView::Disconnected(Some(text))),
            ..last@.detached()
        })
        &&& down.spec_engine().spec_config() == last.spec_config()
        &&& down.spec_engine().spec_outputs() == last.spec_outputs()
        &&& down.spec_engine().spec_baseline() == last.spec_baseline()
        &&& down.spec_book() == lost_note(last.spec_book(), down.spec_engine()@.awaiting, text)
    }

    /// True if `next` is this session, which was connected, behind a pump step
    /// that read these times and returned `r`: packets were streamed; or the
    /// transport had stalled, or failed in the tick, and the first attempt to
    /// reconnect has been made.
    pub open spec fn pumped(
        &self,
        next: &Self,
        t: Readings,
        r: Result<usize, SessionError>,
    ) -> bool {
        let engine = self.spec_engine();
        if self.stalled_at(t.check) {
            exists|down: Self|
                self.dropped(&down, engine, stall_text(self.spec_policy().stall_timeout))
                    && #[trigger] down.redialed(next, t.due, t.dialed, r)
        } else {
            ||| r matches Ok(n) && next@ == self@ && next.spec_dials() == self.spec_dials()
                && engine.stepped(
                &next.spec_engine(),
                t.drained.now_ns,
                t.drained.wall_ms,
                Ok(n),
            )
            ||| exists|down: Self, last: Engine<C::Transport, O>, e: EngineError|
                engine.stepped(&last, t.drained.now_ns, t.drained.wall_ms, Err(e))
                    && #[trigger] self.dropped(&down, last, engine_error_text(e))
                    && #[trigger] down.redialed(next, t.due, t.dialed, r)
        }
    }

    /// One pump step: drain buffered media while connected; while down, run
    /// the reconnect schedule. Never sleeps. Returns how many packets were
    /// muxed this step. `now_ns` is the time on the session's clock, `wall_ms`
    /// the wall-clock time.
    pub fn tick_at(&mut self, now_ns: u64, wall_ms: u64) -> (r: Result<usize, SessionError>)
        requires
            old(self).wf(),
        ensures
            final(self).wf(),
            final(self).spec_policy() == old(self).spec_policy(),
            match old(self)@.state {
                SessionState::Idle => r == Err::<usize, SessionError>(SessionError::NotStarted)
                    && *final(self) == *old(self),
                SessionState::Finished => r == Err::<usize, SessionError>(SessionError::Finished)
                    && *final(self) == *old(self),
                SessionState::Exhausted => {
                    &&& *final(self) == *old(self)
                    &&& r matches Err(SessionError::GiveUp { attempts, last }) && attempts
                        == old(self)@.attempt && last@ == match old(self)@.last_error {
                        Some(text) => text,
                        None => ""@,
                    }
                },
                SessionState::Reconnecting => old(self).redialed(
                    final(self),
                    now_ns,
                    Moment { now_ns, wall_ms },
                    r,
                ),
                SessionState::Connected => old(self).pumped(
                    final(self),
                    Readings::at(now_ns, wall_ms),
                    r,
                ),
            },
    {
        self.tick_in(Some(Moment { now_ns, wall_ms })).0
    }

    /// A pump step at `given`, or at the times at which things are done; gives
    /// those times too.
    fn tick_in(&mut self, given: Option<Moment>) -> (r: (Result<usize, SessionError>, Readings))
        requires
            old(self).wf(),
        ensures
            final(self).wf(),
            final(self).spec_policy() == old(self).spec_policy(),
            match old(self)@.state {
                SessionState::Idle => r.0 == Err::<usize, SessionError>(SessionError::NotStarted)
                    && *final(self) == *old(self),
                SessionState::Finished => r.0 == Err::<usize, SessionError>(SessionError::Finished)
                    && *final(self) == *old(self),
                SessionState::Exhausted => {
                    &&& *final(self) == *old(self)
                    &&& r.0 matches Err(SessionError::GiveUp { attempts, last }) && attempts
                        == old(self)@.attempt && last@ == match old(self)@.last_error {
                        Some(text) => text,
                        None => ""@,
                    }
                },
                SessionState::Reconnecting => old(self).redialed(
                    final(self),
                    r.1.due,
                    r.1.dialed,
                    r.0,
                ),
                SessionState::Connected => old(self).pumped(final(self), r.1, r.0),
            },
            given matches Some(m) ==> r.1 == Readings::at(m.now_ns, m.wall_ms),
    {
        let start: Moment = self.moment(given);
        let none = Readings {
            check: start.now_ns,
            drained: start,
            due: start.now_ns,
            dialed: start,
        };
        match self.state {
            SessionState::Idle => {
                return (Err(SessionError::NotStarted), none);
            },
            SessionState::Finished => {
                return (Err(SessionError::Finished), none);
            },
            SessionState::Exhausted => {
                let last: String = match &self.last_error {
                    Some(text) => text.clone(),
                    None => "".to_owned(),
                };
                return (Err(SessionError::GiveUp { attempts: self.attempt, last }), none);
            },
            SessionState::Connected => {
                return self.pump(given, start);
            },
            SessionState::Reconnecting => {},
        }
        let (r, due, dialed): (Result<usize, SessionError>, u64, Moment) = self.reconnect_phase(
            given,
        );
        (r, Readings { due, dialed, ..none })
    }

    /// A pump step while connected, from `start` on.
    #[verifier::rlimit(40)]
    fn pump(&mut self, given: Option<Moment>, start: Moment) -> (r: (
        Result<usize, SessionError>,
        Readings,
    ))
        requires
            old(self).wf(),
            given matches Some(m) ==> start == m,
        ensures
            final(self).wf(),
            final(self).spec_policy() == old(self).spec_policy(),
            old(self).pumped(final(self), r.1, r.0),
            given matches Some(m) ==> r.1 == Readings::at(m.now_ns, m.wall_ms),
    {
        if self.stalled(start.now_ns) {
            let mut error: String = "no transport progress for ".to_owned();
            append_duration(&mut error, self.policy.stall_timeout);
            self.disconnect(error);
            let ghost down = *self;
            let (r, due, dialed): (Result<usize, SessionError>, u64, Moment) = self.reconnect_phase(
                given,
            );
            let t = Readings { check: start.now_ns, drained: start, due, dialed };
            assert(down.redialed(self, t.due, t.dialed, r));
            return (r, t);
        }
        let (done, drained): (Result<usize, EngineError>, Moment) = self.engine.tick_in(given);
        match done {
            Ok(n) => (
                Ok(n),
                Readings { check: start.now_ns, drained, due: drained.now_ns, dialed: drained },
            ),
            Err(e) => {
                let ghost last = self.engine;
                let error: String = e.message();
                self.disconnect(error);
                let ghost down = *self;
                let (r, due, dialed): (Result<usize, SessionError>, u64, Moment) =
                    self.reconnect_phase(given);
                let t = Readings { check: start.now_ns, drained, due, dialed };
                proof {
                    assert(old(self).spec_engine().stepped(
                        &last,
                        t.drained.now_ns,
                        t.drained.wall_ms,
                        Err(e),
                    ));
                    assert(old(self).dropped(&down, last, engine_error_text(e)));
                    assert(down.redialed(self, t.due, t.dialed, r));
                    assert(old(self).pumped(self, t, r));
                }
                (r, t)
            },
        }
    }

    /// [`Session::tick_at`] with the times at which things are done: a dial that
    /// takes long does not shorten the backoff behind it.
    pub fn tick(&mut self) -> (r: Result<usize, SessionError>)
        requires
            old(self).wf(),
        ensures
            final(self).wf(),
            final(self).spec_policy() == old(self).spec_policy(),
            match old(self)@.state {
                SessionState::Idle => r == Err::<usize, SessionError>(SessionError::NotStarted)
                    && *final(self) == *old(self),
                SessionState::Finished => r == Err::<usize, SessionError>(SessionError::Finished)
                    && *final(self) == *old(self),
                SessionState::Exhausted => {
                    &&& *final(self) == *old(self)
                    &&& r matches Err(SessionError::GiveUp { attempts, last }) && attempts
                        == old(self)@.attempt && last@ == match old(self)@.last_error {
                        Some(text) => text,
                        None => ""@,
                    }
                },
                SessionState::Reconnecting => exists|now_ns: u64, then: Moment| #[trigger]
                    old(self).redialed(final(self), now_ns, then, r),
                SessionState::Connected => exists|t: Readings| #[trigger]
                    old(self).pumped(final(self), t, r),
            },
    {
        let (r, t): (Result<usize, SessionError>, Readings) = self.tick_in(None);
        proof {
            if old(self)@.state == SessionState::Reconnecting {
                assert(old(self).redialed(self, t.due, t.dialed, r));
            } else if old(self)@.state == SessionState::Connected {
                assert(old(self).pumped(self, t, r));
            }
        }
        r
    }

    /// Drain and end the stream cleanly. Safe to call while disconnected (the
    /// remaining buffer is simply discarded with the dead transport).
    pub fn finish(&mut self) -> (r: Result<(), SessionError>)
        requires
            old(self).wf(),
        ensures
            final(self).wf(),
            final(self).spec_policy() == old(self).spec_policy(),
            final(self).spec_dials() == old(self).spec_dials(),
            match r {
                Ok(()) => final(self)@ == (SessionView {
                    state: SessionState::Finished,
                    ..old(self)@
                }),
                Err(e) => e is Engine && final(self)@ == old(self)@,
            },
            // Not connected: what is still buffered is discarded.
            old(self)@.state != SessionState::Connected ==> {
                let v = old(self).spec_engine()@;
                &&& r is Ok
                &&& final(self).spec_engine()@ == (EngineView {
                    buffer: Seq::empty(),
                    dropped: v.dropped + v.buffer.len(),
                    qos: v.qos.with_event(EventView::Finished),
                    ..v
                })
                &&& old(self).spec_engine().beside(&final(self).spec_engine())
                &&& final(self).spec_book() == old(self).spec_book().noted(
                    Level::Info,
                    "stream::session"@,
                    "stream finished"@,
                    Seq::empty(),
                )
            },
            old(self)@.state == SessionState::Connected ==> match r {
                Ok(()) => exists|last: Engine<C::Transport, O>|
                    {
                        &&& #[trigger] old(self).spec_engine().ended(&last, Ok(()))
                        &&& final(self).spec_engine()@ == (EngineView {
                            qos: last@.qos.with_event(EventView::Finished),
                            ..last@
                        })
                        &&& last.beside(&final(self).spec_engine())
                        &&& final(self).spec_book() == last.spec_book().noted(
                            Level::Info,
                            "stream::session"@,
                            "stream finished"@,
                            Seq::empty(),
                        )
                    },
                Err(SessionError::Engine(e)) => old(self).spec_engine().ended(
                    &final(self).spec_engine(),
                    Err(e),
                ),
                Err(_) => false,
            },
    {
        if self.state == SessionState::Connected {
            if let Err(e) = self.engine.finish() {
                return Err(SessionError::Engine(e));
            }
            assert(old(self).spec_engine().ended(&self.engine, Ok(())));
        } else {
            let _discarded: u64 = self.engine.discard();
        }
        self.state = SessionState::Finished;
        self.mark(Level::Info, "stream finished");
        self.engine.record_event(&QosEvent::Finished);
        Ok(())
    }

    /// Re-arm after [`SessionState::Exhausted`]: the backoff counter resets
    /// and attempts resume on the next `tick`. No-op in other states.
    pub fn retry(&mut self)
        requires
            old(self).wf(),
        ensures
            final(self).wf(),
            final(self).spec_policy() == old(self).spec_policy(),
            final(self).spec_dials() == old(self).spec_dials(),
            final(self).spec_engine() == old(self).spec_engine(),
            final(self)@ == if old(self)@.state == SessionState::Exhausted {
                SessionView {
                    state: SessionState::Reconnecting,
                    attempt: 0,
                    next_attempt_at: None,
                    ..old(self)@
                }
            } else {
                old(self)@
            },
    {
        if self.state == SessionState::Exhausted {
            self.state = SessionState::Reconnecting;
            self.attempt = 0;
            self.next_attempt_at = None;
        }
    }

    /// Current lifecycle state.
    pub fn state(&self) -> (state: SessionState)
        ensures
            state == self@.state,
    {
        self.state
    }

    /// Successful reconnects so far (0 = the original connection still holds).
    pub fn reconnects(&self) -> (n: u64)
        ensures
            n == self@.reconnects,
    {
        self.reconnects
    }

    /// Failed attempts since the connection last succeeded.
    pub fn attempt(&self) -> (n: u32)
        ensures
            n == self@.attempt,
    {
        self.attempt
    }

    /// Description of the most recent failure, if any.
    pub fn last_error(&self) -> (error: Option<String>)
        ensures
            opt_text(error) == self@.last_error,
    {
        copy_text(&self.last_error)
    }
}

/// A budget of `max` attempts is used up by the `max`-th failure in a row, and
/// not before: until then the session stays in the schedule.
pub proof fn budgets_run_out(v: SessionView, policy: ReconnectPolicy, now: u64, error: Seq<char>)
    requires
        v.state == SessionState::Reconnecting,
        v.attempt < u32::MAX,
    ensures
        v.refused(policy, now, error).attempt == v.attempt + 1,
        policy.max_attempts matches Some(max) ==> (v.refused(policy, now, error).state
            == SessionState::Exhausted <==> v.attempt + 1 >= max),
        policy.max_attempts is None ==> v.refused(policy, now, error).state
            == SessionState::Reconnecting,
{
}

/// What lies further apart than rounding moves them stays in order in seconds.
proof fn lemma_seconds_beyond(ns: u64, b: u64, n: int)
    requires
        ns < 0x2_0000_0000_0000,
        n > ns,
        b < INFINITY,
        (n * pow2(1074) - 1_000_000_000 * units(b as int)) * 0x4_0000_0000_0000 <= n * pow2(1074),
    ensures
        seconds(ns) < b,
{
    let t = pow2(1074) as int;
    let m = ns as int;
    let x = 1_000_000_000 * units(b as int);
    let y = 1_000_000_000 * units(seconds(ns) as int);
    let k = 0x4_0000_0000_0000int;
    lemma_pow2_pos(1074);
    seconds_are_close(ns);
    assert(k * x >= (k - 1) * (n * t)) by (nonlinear_arith)
        requires
            (n * t - x) * k <= n * t,
    ;
    assert(k * y <= (k + 1) * (m * t)) by (nonlinear_arith)
        requires
            (y - m * t) * k <= m * t,
    ;
    assert((k - 1) * (n * t) > (k + 1) * (m * t)) by (nonlinear_arith)
        requires
            n >= m + 1,
            0 <= m < 0x2_0000_0000_0000,
            k == 0x4_0000_0000_0000,
            t > 0,
    ;
    if b <= seconds(ns) {
        if b < seconds(ns) {
            patterns_are_ordered(b as int, seconds(ns) as int);
        }
        assert(k * x <= k * y) by (nonlinear_arith)
            requires
                x <= y,
                k > 0,
        ;
    }
}

proof fn lemma_doubled_past_cap(p: ReconnectPolicy, attempt: nat)
    requires
        p.multiplier == TWO,
        1 <= attempt,
        p.max_delay < 0x2_0000_0000_0000,
        p.initial_delay * pow2((attempt - 1) as nat) > p.max_delay,
    ensures
        grown_of(p, attempt) == cap_of(p),
    decreases attempt,
{
    let d = p.initial_delay as int;
    let t = pow2(1074) as int;
    let s = units(seconds(p.initial_delay) as int);
    lemma2_to64();
    lemma_pow2_pos(1074);
    seconds_are_close(p.initial_delay);
    seconds_are_close(p.max_delay);
    if attempt == 1 {
        assert(d * pow2(0) == d);
        lemma_seconds_beyond(p.max_delay, seconds(p.initial_delay), d);
    } else {
        let n = (attempt - 1) as nat;
        let m = (n - 1) as nat;
        let h = pow2(m) as int;
        lemma_pow2_unfold(n);
        lemma_pow2_pos(m);
        assert(d * pow2(n) == 2 * (d * h)) by (nonlinear_arith)
            requires
                pow2(n) == 2 * h,
        ;
        assert(growth_of(p) == TWO);
        let before = grown_of(p, n);
        if d * h > p.max_delay {
            lemma_doubled_past_cap(p, n);
            lemma_capped(p, n, attempt);
        } else {
            lemma_doubled(p, n);
            let free = uncapped(p, n);
            if cap_of(p) < free {
                lemma_capped(p, n, attempt);
            } else {
                assert(d > 0) by (nonlinear_arith)
                    requires
                        2 * (d * h) > p.max_delay,
                        p.max_delay >= 0,
                        h > 0,
                ;
                doubling_is_exact(before);
                let next = (before + BINADE) as u64;
                let q = pow2(n) as int;
                let u = 1_000_000_000 * s;
                let x = 1_000_000_000 * units(next as int);
                let k = 0x4_0000_0000_0000int;
                assert(x == u * q) by (nonlinear_arith)
                    requires
                        x == 1_000_000_000 * (2 * (s * h)),
                        u == 1_000_000_000 * s,
                        q == 2 * h,
                ;
                assert((d * q * t - x) * k <= d * q * t) by (nonlinear_arith)
                    requires
                        x == u * q,
                        (d * t - u) * k <= d * t,
                        q > 0,
                ;
                lemma_seconds_beyond(p.max_delay, next, d * q);
            }
        }
    }
}

/// Doubling delays, capped: the base delay of attempt `n` is the initial one
/// times two to the `n - 1`, and the cap where that is less. The cap is below
/// 2^49 nanoseconds (six days), so that rounding does not show.
pub proof fn doubling_runs_into_the_cap(p: ReconnectPolicy, attempt: nat)
    requires
        p.multiplier == TWO,
        1 <= attempt,
        p.max_delay < 0x2_0000_0000_0000,
    ensures
        ({
            let free = p.initial_delay * pow2((attempt - 1) as nat);
            base_of(p, attempt) == if free < p.max_delay {
                free
            } else {
                p.max_delay as int
            }
        }),
{
    if p.initial_delay * pow2((attempt - 1) as nat) > p.max_delay {
        lemma_doubled_past_cap(p, attempt);
        lemma_exact_nanos(p.max_delay);
    } else {
        doubling_is_exponential(p, attempt);
    }
}

/// The session behind a run of failed attempts, each with the time at which it
/// was over and what it was told.
pub open spec fn failing(
    v: SessionView,
    policy: ReconnectPolicy,
    failures: Seq<(u64, Seq<char>)>,
) -> SessionView
    decreases failures.len(),
{
    if failures.len() == 0 {
        v
    } else {
        failing(v, policy, failures.drop_last()).refused(
            policy,
            failures.last().0,
            failures.last().1,
        )
    }
}

/// True if the wait from `now` until `v` may dial again is drawn from the upper
/// half of `base`, and is none at all where that is zero.
pub open spec fn waits_within(v: SessionView, now: u64, base: int) -> bool {
    &&& v.next_attempt_at matches Some(at) && {
        &&& now + base / 2 <= at
        &&& at < now + base || base == 0 && at == now
    }
    &&& forall|t: u64| #![trigger v.due(t)] v.due(t) ==> t - now >= base / 2
    &&& forall|t: u64| #![trigger v.due(t)] t - now >= base ==> v.due(t)
}

proof fn lemma_failing(v: SessionView, policy: ReconnectPolicy, failures: Seq<(u64, Seq<char>)>)
    requires
        v.state == SessionState::Reconnecting,
        v.attempt + failures.len() < u32::MAX,
        policy.max_attempts matches Some(max) ==> v.attempt + failures.len() < max,
    ensures
        failing(v, policy, failures).state == SessionState::Reconnecting,
        failing(v, policy, failures).attempt == v.attempt + failures.len(),
    decreases failures.len(),
{
    if failures.len() > 0 {
        lemma_failing(v, policy, failures.drop_last());
    }
}

/// A connection that is lost is dialed again at once. Behind the `n`-th failure
/// in a row that leaves something of the budget, the session waits for a time
/// that is drawn from the upper half of the `n`-th base delay, and not of any
/// other; the draw is the generator's next.
pub proof fn failures_back_off(
    lost: SessionView,
    error: Seq<char>,
    policy: ReconnectPolicy,
    failures: Seq<(u64, Seq<char>)>,
)
    requires
        0 < failures.len() < u32::MAX,
        policy.max_attempts matches Some(max) ==> failures.len() < max,
        failures.last().0 + policy.max_delay <= u64::MAX,
    ensures
        forall|t: u64| #[trigger] lost.disconnected(error).due(t),
        ({
            let before = failing(lost.disconnected(error), policy, failures.drop_last());
            let after = failing(lost.disconnected(error), policy, failures);
            let n = failures.len();
            &&& after.state == SessionState::Reconnecting
            &&& after.attempt == n
            &&& after.rng == rng_step(before.rng)
            &&& after.next_attempt_at == Some(
                (failures.last().0 + jittered(base_of(policy, n), rng_output(after.rng))) as u64,
            )
            &&& waits_within(after, failures.last().0, base_of(policy, n))
        }),
{
    let down = lost.disconnected(error);
    let rest = failures.drop_last();
    lemma_failing(down, policy, rest);
    lemma_failing(down, policy, failures);
    delays_stay_within_the_band(
        policy,
        failures.len(),
        rng_output(rng_step(failing(down, policy, rest).rng)),
    );
}

/// With a multiplier of two the waits behind failures in a row grow
/// exponentially: the wait behind the `n`-th is drawn from the upper half of the
/// initial delay times two to the `n - 1`, or of the cap where that is less.
pub proof fn doubled_waits_grow_exponentially(
    lost: SessionView,
    error: Seq<char>,
    policy: ReconnectPolicy,
    failures: Seq<(u64, Seq<char>)>,
)
    requires
        policy.multiplier == TWO,
        policy.max_delay < 0x2_0000_0000_0000,
        0 < failures.len() < u32::MAX,
        policy.max_attempts matches Some(max) ==> failures.len() < max,
        failures.last().0 + policy.max_delay <= u64::MAX,
    ensures
        ({
            let free = policy.initial_delay * pow2((failures.len() - 1) as nat);
            waits_within(
                failing(lost.disconnected(error), policy, failures),
                failures.last().0,
                if free < policy.max_delay {
                    free
                } else {
                    policy.max_delay as int
                },
            )
        }),
{
    failures_back_off(lost, error, policy, failures);
    doubling_runs_into_the_cap(policy, failures.len());
}

/// Two failures further on the wait is longer, as long as the cap is not
/// reached: whatever is drawn, a publisher that keeps failing slows down.
pub proof fn waits_get_longer(
    lost: SessionView,
    error: Seq<char>,
    policy: ReconnectPolicy,
    failures: Seq<(u64, Seq<char>)>,
)
    requires
        policy.multiplier == TWO,
        policy.max_delay < 0x2_0000_0000_0000,
        policy.initial_delay > 0,
        2 < failures.len() < u32::MAX,
        policy.max_attempts matches Some(max) ==> failures.len() < max,
        policy.initial_delay * pow2((failures.len() - 1) as nat) <= policy.max_delay,
        failures.last().0 + policy.max_delay <= u64::MAX,
        failures[failures.len() - 3].0 + policy.max_delay <= u64::MAX,
    ensures
        ({
            let earlier = failures.take(failures.len() - 2);
            let down = lost.disconnected(error);
            (failing(down, policy, earlier).next_attempt_at->0) - earlier.last().0 < (failing(
                down,
                policy,
                failures,
            ).next_attempt_at->0) - failures.last().0
        }),
{
    let n = failures.len() as int;
    let earlier = failures.take(n - 2);
    doubled_waits_grow_exponentially(lost, error, policy, failures);
    assert(earlier.last() == failures[n - 3]);
    doubled_waits_grow_exponentially(lost, error, policy, earlier);
    let d = policy.initial_delay as int;
    lemma_pow2_unfold((n - 1) as nat);
    lemma_pow2_unfold((n - 2) as nat);
    lemma_pow2_pos((n - 3) as nat);
    let h = pow2((n - 3) as nat) as int;
    assert(d * pow2((n - 1) as nat) == 4 * (d * h)) by (nonlinear_arith)
        requires
            pow2((n - 1) as nat) == 2 * (2 * h),
    ;
    assert(d * h > 0) by (nonlinear_arith)
        requires
            d > 0,
            h > 0,
    ;
}

proof fn lemma_nanos_off(b: u64)
    requires
        b < INFINITY,
        nanos_of(b) < u64::MAX,
    ensures
        2 * (1_000_000_000 * units(b as int) - nanos_of(b) * pow2(1074)) <= pow2(1074),
        2 * (nanos_of(b) * pow2(1074) - 1_000_000_000 * units(b as int)) <= pow2(1074),
{
    let t = pow2(1074) as int;
    let x = 1_000_000_000 * units(b as int);
    lemma_pow2_pos(1074);
    if b > 0 {
        patterns_are_ordered(0, b as int);
    }
    vstd::arithmetic::div_mod::lemma_fundamental_div_mod(x, t);
    vstd::arithmetic::div_mod::lemma_div_pos_is_pos(x, t);
    let n = x / t;
    assert((n + 1) * t == n * t + t) by (nonlinear_arith);
    assert(t * n == n * t) by (nonlinear_arith);
}

/// Whatever the multiplier, each base delay is the one before it times the
/// multiplier, or the cap where that is less: to within one nanosecond and one
/// more for each time that the multiplier makes of it. (A multiplier below 1
/// counts as 1.) The cap is below 2^49 nanoseconds, so that the rounding of
/// doubles does not add to that.
pub proof fn bases_grow_by_the_multiplier(p: ReconnectPolicy, attempt: nat)
    requires
        1 <= attempt,
        p.max_delay < 0x2_0000_0000_0000,
        p.multiplier < INFINITY,
        0 < p.initial_delay,
        0 < p.max_delay,
    ensures
        ({
            let one = pow2(1074);
            let factor = if p.multiplier < ONE {
                one as int
            } else {
                units(p.multiplier as int)
            };
            let before = base_of(p, attempt);
            let next = base_of(p, attempt + 1);
            &&& next * one <= before * factor + one + factor
            &&& next == p.max_delay || next * one >= before * factor - one - factor
            &&& next == p.max_delay ==> p.max_delay * one <= before * factor + one + factor
        }),
        base_of(p, 1) == if p.initial_delay < p.max_delay {
            p.initial_delay
        } else {
            p.max_delay
        },
{
    let t = pow2(1074) as int;
    let g = growth_of(p);
    let f = units(g as int);
    let a = grown_of(p, attempt);
    let r = product(a, g);
    let c = grown_of(p, attempt + 1);
    let cap = cap_of(p);
    let k = 0x10_0000_0000_0000int;
    lemma_pow2_pos(1074);
    lemma_two();
    if ONE < g {
        patterns_are_ordered(ONE as int, g as int);
    }
    seconds_are_close(p.max_delay);
    seconds_are_close(p.initial_delay);
    lemma_exact_nanos(p.max_delay);
    lemma_first_base(p);
    lemma_grown(p, attempt);
    lemma_grown_normal(p, attempt);
    nanos_are_ordered(a, cap);
    nanos_are_ordered(c, cap);
    let u = units(a as int);
    let b = nanos_of(a) as int;
    lemma_nanos_off(a);
    product_exists(a, g);
    lemma_product(a, g);
    patterns_are_ordered(0, a as int);
    // How far the product is off, in units.
    if r < INFINITY {
        rounding_is_close(u * f, t, r);
    }
    let v = units(r as int);
    let x = 1_000_000_000 * u;
    // x is at most 2^49 steps and a half.
    assert(b * t < 0x2_0000_0000_0000 * t) by (nonlinear_arith)
        requires
            b < 0x2_0000_0000_0000,
            t > 0,
    ;
    assert(x * f <= 0x4_0000_0000_0000 * (t * f)) by (nonlinear_arith)
        requires
            2 * x <= 2 * (b * t) + t,
            b * t < 0x2_0000_0000_0000 * t,
            f >= 0,
            t > 0,
    ;
    assert(2 * ((b * f) * t) <= 2 * (x * f) + t * f && 2 * (x * f) <= 2 * ((b * f) * t) + t * f)
        by (nonlinear_arith)
        requires
            2 * (x - b * t) <= t,
            2 * (b * t - x) <= t,
            f >= 0,
    ;
    lemma_nanos_off(c);
    let n = nanos_of(c) as int;
    assert(base_of(p, attempt) == b);
    assert(base_of(p, attempt + 1) == n);
    assert(f == if p.multiplier < ONE {
        t
    } else {
        units(p.multiplier as int)
    });
    let w = 1_000_000_000 * units(c as int);
    if c == r && r < INFINITY {
        // w * t is x * f, give or take a 2^52nd.
        assert((w * t - x * f) * k <= x * f && (x * f - w * t) * k <= x * f) by (nonlinear_arith)
            requires
                w == 1_000_000_000 * v,
                x == 1_000_000_000 * u,
                (v * t - u * f) * k <= u * f,
                (u * f - v * t) * k <= u * f,
        ;
        assert(4 * (w * t - x * f) <= t * f && 4 * (x * f - w * t) <= t * f);
        assert(2 * ((n * t) * t) <= 2 * (w * t) + t * t && 2 * (w * t) <= 2 * ((n * t) * t) + t * t)
            by (nonlinear_arith)
            requires
                2 * (w - n * t) <= t,
                2 * (n * t - w) <= t,
                t > 0,
        ;
        lemma_cancel(n * t - b * f - t - f, t);
        lemma_cancel(b * f - n * t - t - f, t);
        assert(n == p.max_delay ==> n * t == p.max_delay * t);
        assert((n * t - b * f - t - f) * t == (n * t) * t - (b * f) * t - t * t - f * t)
            by (nonlinear_arith);
        assert((b * f - n * t - t - f) * t == (b * f) * t - (n * t) * t - t * t - f * t)
            by (nonlinear_arith);
        assert(f * t == t * f) by (nonlinear_arith);
        assert(t * f >= 0 && t * t >= 0) by (nonlinear_arith)
            requires
                t > 0,
                f >= 0,
        ;
    } else {
        assert(c == cap && cap <= r);
        let y = 1_000_000_000 * units(cap as int);
        lemma_product_reaches(a, g, cap);
        assert(y * t * k <= x * f * (k + 1)) by (nonlinear_arith)
            requires
                units(cap as int) * t * k <= u * f * (k + 1),
                y == 1_000_000_000 * units(cap as int),
                x == 1_000_000_000 * u,
        ;
        assert(2 * ((n * t) * t) <= 2 * (y * t) + t * t) by (nonlinear_arith)
            requires
                2 * (n * t - y) <= t,
                t > 0,
        ;
        assert(4 * (y * t - x * f) <= t * f);
        lemma_cancel(n * t - b * f - t - f, t);
        assert((n * t - b * f - t - f) * t == (n * t) * t - (b * f) * t - t * t - f * t)
            by (nonlinear_arith);
        assert(f * t == t * f) by (nonlinear_arith);
        assert(t * f >= 0 && t * t >= 0) by (nonlinear_arith)
            requires
                t > 0,
                f >= 0,
        ;
    }
}

proof fn lemma_cancel(a: int, t: int)
    requires
        t > 0,
    ensures
        a * t <= 0 ==> a <= 0,
{
    assert(a * t <= 0 ==> a <= 0) by (nonlinear_arith)
        requires
            t > 0,
    ;
}

/// A double that a product is not less than is not more than the exact product
/// by more than a 2^52nd part.
proof fn lemma_product_reaches(a: u64, g: u64, b: u64)
    requires
        BINADE <= a < INFINITY,
        ONE <= g < INFINITY,
        b < INFINITY,
        b <= product(a, g),
    ensures
        units(b as int) * pow2(1074) * 0x10_0000_0000_0000 <= units(a as int) * units(g as int) * (
        0x10_0000_0000_0000 + 1),
{
    let t = pow2(1074) as int;
    let k = 0x10_0000_0000_0000int;
    let r = product(a, g);
    let num = units(a as int) * units(g as int);
    lemma_pow2_pos(1074);
    lemma_product(a, g);
    product_exists(a, g);
    if b < r {
        patterns_are_ordered(b as int, r as int);
    }
    let x = units(b as int);
    let y = units(r as int);
    if r < INFINITY {
        rounding_is_close(num, t, r);
        assert(x * t * k <= num * (k + 1)) by (nonlinear_arith)
            requires
                x <= y,
                (y * t - num) * k <= num,
                t > 0,
                k > 0,
        ;
    } else {
        // Infinity is rounded to from half a step below it on.
        let last = units(INFINITY - 1);
        assert(b <= INFINITY - 1);
        if b < INFINITY - 1 {
            patterns_are_ordered(b as int, INFINITY - 1);
        }
        patterns_are_ordered(INFINITY - 1, INFINITY as int);
        patterns_are_ordered(0, b as int + 1);
        assert(x * t <= num) by (nonlinear_arith)
            requires
                x <= last,
                last < y,
                (last + y) * t <= 2 * num,
                t > 0,
        ;
        patterns_are_ordered(0, a as int);
        patterns_are_ordered(0, g as int);
        assert(x * t * k <= num * (k + 1)) by (nonlinear_arith)
            requires
                x * t <= num,
                num >= 0,
                k > 0,
        ;
    }
}

proof fn lemma_grown_normal(p: ReconnectPolicy, attempt: nat)
    requires
        0 < p.initial_delay,
        0 < p.max_delay,
        1 <= attempt,
    ensures
        BINADE <= grown_of(p, attempt) <= TWO_TO_64 + BINADE,
    decreases attempt,
{
    seconds_are_close(p.max_delay);
    seconds_are_close(p.initial_delay);
    if attempt > 1 {
        lemma_grown_normal(p, (attempt - 1) as nat);
        lemma_grown(p, (attempt - 1) as nat);
        lemma_grown(p, attempt);
    }
}

proof fn lemma_first_base(p: ReconnectPolicy)
    requires
        p.max_delay < 0x2_0000_0000_0000,
    ensures
        base_of(p, 1) == if p.initial_delay < p.max_delay {
            p.initial_delay
        } else {
            p.max_delay
        },
{
    let q = ReconnectPolicy { multiplier: TWO, ..p };
    lemma2_to64();
    doubling_runs_into_the_cap(q, 1);
    assert(p.initial_delay * 1 == p.initial_delay);
    assert(grown_of(q, 1) == grown_of(p, 1));
}

/// The units of a second, in powers of two that rounding knows.
proof fn lemma_fine()
    ensures
        pow2(1074) == 0x20_0000_0000_0000 * pow2(1021),
        units(TWO_TO_MINUS_53 as int) == pow2(1021),
        pow2(1074) >= 0x10_0000_0000_0000 * 0x20_0000_0000_0000 * 16_000_000_000,
        units(BINADE as int) == 0x10_0000_0000_0000,
{
    let w = 0x10_0000_0000_0000int;
    lemma2_to64();
    lemma2_to64_rest();
    lemma_pow2_adds(53, 1021);
    lemma_pow2_adds(52, 969);
    lemma_pow2_adds(52, 53);
    lemma_pow2_adds(105, 34);
    lemma_pow2_adds(32, 2);
    vstd::arithmetic::power2::lemma_pow2_strictly_increases(139, 1074);
    assert(TWO_TO_MINUS_53 as int / w == 970 && TWO_TO_MINUS_53 as int % w == 0);
    assert(BINADE as int / w == 1 && BINADE as int % w == 0);
}

/// The fraction that a random number stands for is exact.
proof fn lemma_unit_exact(top: u64)
    requires
        top < 0x20_0000_0000_0000,
    ensures
        units(product(whole(top as int), TWO_TO_MINUS_53) as int) == top * pow2(1021),
{
    let t = pow2(1074) as int;
    let p = pow2(1021) as int;
    let w = 0x20_0000_0000_0000int;
    let b = product(whole(top as int), TWO_TO_MINUS_53);
    lemma_fine();
    lemma_pow2_pos(1074);
    lemma_pow2_pos(1021);
    lemma_unit(top);
    small_wholes_are_exact(top);
    let a = whole(top as int);
    let u = units(a as int);
    assert(u * p == (top * p) * t) by (nonlinear_arith)
        requires
            u == top * t,
    ;
    assert(units(0) == 0);
    if top == 0 {
        assert(0 * p == 0) by (nonlinear_arith);
        assert((top * p) * t == 0) by (nonlinear_arith)
            requires
                top == 0,
        ;
        doubles_are_exact(u * p, t, 0);
    } else {
        // The same fraction, 53 binades further down.
        crate::figures::lemma_whole(top);
        let c = (a - 53 * BINADE) as u64;
        lemma_shifted(top, a, c);
        doubles_are_exact(u * p, t, c);
    }
}

/// Taking so many binades off a double divides it by as many powers of two.
proof fn lemma_shifted(top: u64, a: u64, c: u64)
    requires
        0 < top < 0x20_0000_0000_0000,
        a == whole(top as int),
        c == a - 53 * BINADE,
    ensures
        units(c as int) == top * pow2(1021),
        c < INFINITY,
        a >= 54 * BINADE,
{
    let w = 0x10_0000_0000_0000int;
    small_wholes_are_exact(top);
    nearest_exists(top);
    crate::figures::lemma_whole(top);
    let e = a as int / w;
    let f = a as int % w;
    assert(e >= 1023 && e <= 1087);
    assert(c as int / w == e - 53 && c as int % w == f);
    lemma_pow2_adds((e - 54) as nat, 53);
    lemma2_to64();
    lemma2_to64_rest();
    lemma_fine();
    let q = pow2((e - 54) as nat) as int;
    let p = pow2(1021) as int;
    let k = 0x20_0000_0000_0000int;
    assert(units(a as int) == (w + f) * (q * k));
    assert(units(c as int) == (w + f) * q);
    assert((w + f) * (q * k) == ((w + f) * q) * k) by (nonlinear_arith);
    assert(top * (k * p) == (top * p) * k) by (nonlinear_arith);
    assert(((w + f) * q) * k == (top * p) * k);
}

/// What rounding does on the way from a base to a delay.
proof fn lemma_draw_steps(base: u64, top: u64)
    requires
        0 < base < 0x1_0000_0000_0000,
        top < 0x20_0000_0000_0000,
    ensures
        ({
            let t = pow2(1074) as int;
            let k = 0x10_0000_0000_0000int;
            let half = quotient(seconds(base), TWO);
            let part = product(half, product(whole(top as int), TWO_TO_MINUS_53));
            let s = units(seconds(base) as int);
            let h = units(half as int);
            let p = units(part as int);
            let z = units(sum(half, part) as int);
            &&& h > 0
            &&& p >= 0
            &&& (2 * h - s) * k <= s
            &&& (s - 2 * h) * k <= s
            &&& (0x20_0000_0000_0000 * p - h * top) * k <= h * top
            &&& (h * top - 0x20_0000_0000_0000 * p) * k <= h * top
            &&& (z - (h + p)) * k <= h + p
            &&& (h + p - z) * k <= h + p
            &&& sum(half, part) < INFINITY
        }),
{
    let t = pow2(1074) as int;
    let pp = pow2(1021) as int;
    let k = 0x10_0000_0000_0000int;
    let a = 0x20_0000_0000_0000int;
    let g = 1_000_000_000int;
    let unit = product(whole(top as int), TWO_TO_MINUS_53);
    let half = quotient(seconds(base), TWO);
    let part = product(half, unit);
    let all = sum(half, part);
    let s = units(seconds(base) as int);
    let h = units(half as int);
    let p = units(part as int);
    let u = units(unit as int);
    lemma_pow2_pos(1074);
    lemma_pow2_pos(1021);
    lemma_fine();
    lemma_unit(top);
    lemma_unit_exact(top);
    lemma_drawn(base, unit);
    lemma_two();
    seconds_are_close(base);
    assert(base * t >= t) by (nonlinear_arith)
        requires
            base >= 1,
            t > 0,
    ;
    assert(2 * g * s >= t);
    // The half.
    rounded_is_nearest(s * t, 2 * t);
    assert(s * t >= k * (2 * t)) by (nonlinear_arith)
        requires
            s >= 2 * k,
            t > 0,
    ;
    rounding_keeps_to_its_side(s * t, 2 * t, half, BINADE);
    rounding_is_close(s * t, 2 * t, half);
    assert(h * (2 * t) == (2 * h) * t) by (nonlinear_arith);
    lemma_cancel_close(2 * h, s, t, h * (2 * t), s * t);
    assert(4 * h >= s);
    assert(h >= k * a);
    // The part of the other half.
    assert(units(0) == 0);
    rounded_is_nearest(h * u, t);
    assert(h * u == (h * top) * pp) by (nonlinear_arith)
        requires
            u == top * pp,
    ;
    if top == 0 {
        assert(h * u == 0 && h * top == 0) by (nonlinear_arith)
            requires
                h * u == (h * top) * pp,
                top == 0,
        ;
        assert(0 * t == 0) by (nonlinear_arith);
        doubles_are_exact(0, t, 0);
        assert(p == 0);
    } else {
        assert(h * u >= k * t) by (nonlinear_arith)
            requires
                h * u == (h * top) * pp,
                h >= k * a,
                top >= 1,
                pp > 0,
                t == a * pp,
                k > 0,
                a > 0,
        {
            assert(h * top >= h);
            assert((h * top) * pp >= h * pp);
            assert(h * pp >= (k * a) * pp);
            assert((k * a) * pp == k * (a * pp));
        }
        rounding_keeps_to_its_side(h * u, t, part, BINADE);
        rounding_is_close(h * u, t, part);
        assert(p * t == (a * p) * pp) by (nonlinear_arith)
            requires
                t == a * pp,
        ;
        lemma_cancel_close(a * p, h * top, pp, p * t, h * u);
        patterns_are_ordered(0, part as int);
    }
    // Both.
    rounded_is_nearest(h + p, 1);
    rounding_keeps_to_its_side(h + p, 1, all, BINADE);
    rounding_is_close(h + p, 1, all);
}

/// Closeness does not depend on a common factor.
proof fn lemma_cancel_close(x: int, y: int, c: int, xc: int, yc: int)
    requires
        c > 0,
        xc == x * c,
        yc == y * c,
        (xc - yc) * 0x10_0000_0000_0000 <= yc,
        (yc - xc) * 0x10_0000_0000_0000 <= yc,
    ensures
        (x - y) * 0x10_0000_0000_0000 <= y,
        (y - x) * 0x10_0000_0000_0000 <= y,
{
    assert((x - y) * 0x10_0000_0000_0000 <= y && (y - x) * 0x10_0000_0000_0000 <= y)
        by (nonlinear_arith)
        requires
            c > 0,
            (x * c - y * c) * 0x10_0000_0000_0000 <= y * c,
            (y * c - x * c) * 0x10_0000_0000_0000 <= y * c,
    ;
}

/// A random number spreads the delay evenly: with the top 53 bits of the number
/// as the fraction `f` of one, the delay is `base * (1 + f) / 2`, off by less than
/// two nanoseconds.
pub proof fn draws_spread_evenly(base: u64, random: u64)
    requires
        0 < base < 0x1_0000_0000_0000,
    ensures
        ({
            let one = 0x20_0000_0000_0000int;
            let exact = base * (one + random / 2048);
            let delay = jittered(base as int, random);
            &&& 2 * one * delay - exact < 4 * one
            &&& exact - 2 * one * delay < 4 * one
        }),
{
    let t = pow2(1074) as int;
    let a = 0x20_0000_0000_0000int;
    let k = 0x10_0000_0000_0000int;
    let g = 1_000_000_000int;
    let top = random / 2048;
    let n = base as int;
    let q = a + top;
    let half = quotient(seconds(base), TWO);
    let part = product(half, unit_of(random));
    let s = units(seconds(base) as int);
    let h = units(half as int);
    let p = units(part as int);
    let z = units(sum(half, part) as int);
    let d = drawn(base, random) as int;
    lemma_pow2_pos(1074);
    seconds_are_close(base);
    lemma_draw_steps(base, top);
    let x = (g * s) * q;
    let y = (n * t) * q;
    let w = (2 * g * h) * q;
    let v = 2 * g * (a * (h + p));
    assert((x - y) * 0x4_0000_0000_0000 <= y && (y - x) * 0x4_0000_0000_0000 <= y)
        by (nonlinear_arith)
        requires
            x == (g * s) * q,
            y == (n * t) * q,
            q > 0,
            (g * s - n * t) * 0x4_0000_0000_0000 <= n * t,
            (n * t - g * s) * 0x4_0000_0000_0000 <= n * t,
    ;
    assert((w - x) * k <= x && (x - w) * k <= x) by (nonlinear_arith)
        requires
            x == (g * s) * q,
            w == (2 * g * h) * q,
            g > 0,
            q > 0,
            (2 * h - s) * k <= s,
            (s - 2 * h) * k <= s,
    {
        let c = g * q;
        assert(c > 0);
        assert(x == s * c && w == (2 * h) * c);
        assert(((2 * h - s) * k) * c <= s * c);
        assert(((s - 2 * h) * k) * c <= s * c);
        assert(((2 * h - s) * k) * c == ((2 * h) * c - s * c) * k);
        assert(((s - 2 * h) * k) * c == (s * c - (2 * h) * c) * k);
    }
    assert(h * q == h * a + h * top) by (nonlinear_arith)
        requires
            q == a + top,
    ;
    assert(w == 2 * g * (h * q)) by (nonlinear_arith)
        requires
            w == (2 * g * h) * q,
    ;
    assert(h * top >= 0) by (nonlinear_arith)
        requires
            h > 0,
            top >= 0,
    ;
    assert(v - w == 2 * g * (a * p - h * top));
    assert((v - w) * k <= w && (w - v) * k <= w);
    let zz = 2 * g * (a * z);
    assert((zz - v) * k <= v && (v - zz) * k <= v);
    assert(y >= 0 && y < 0x1_0000_0000_0000 * (2 * a * t)) by (nonlinear_arith)
        requires
            y == (n * t) * q,
            0 <= n < 0x1_0000_0000_0000,
            t > 0,
            0 < q < 2 * a,
            a > 0,
    {
        assert(0 <= n * t <= 0x1_0000_0000_0000 * t);
        assert((n * t) * q <= (0x1_0000_0000_0000 * t) * q);
        assert((0x1_0000_0000_0000 * t) * q < (0x1_0000_0000_0000 * t) * (2 * a));
        assert((0x1_0000_0000_0000 * t) * (2 * a) == 0x1_0000_0000_0000 * (2 * a * t));
    }
    assert(2 * (zz - y) < 2 * a * t && 2 * (y - zz) < 2 * a * t);
    // To whole nanoseconds.
    assert(d < u64::MAX) by {
        assert(g * z < 0x2_0000_0000_0000 * t) by (nonlinear_arith)
            requires
                2 * g * (a * z) < 0x2_0000_0000_0000 * (2 * a * t),
                a == 0x20_0000_0000_0000,
                g == 1_000_000_000,
        ;
        lemma_not_huge(z, t, sum(half, part));
    }
    lemma_nanos_off(sum(half, part));
    let exact = n * q;
    assert(y == exact * t) by (nonlinear_arith)
        requires
            y == (n * t) * q,
            exact == n * q,
    ;
    let off = 2 * a * d - exact;
    assert(off * t == 2 * a * (d * t) - y) by (nonlinear_arith)
        requires
            off == 2 * a * d - exact,
            y == exact * t,
    ;
    assert(off < 2 * a && 0 - off < 2 * a) by (nonlinear_arith)
        requires
            off * t < 2 * a * t,
            (0 - off * t) < 2 * a * t,
            t > 0,
    ;
    lemma_band(n, top as int, d, exact);
}

/// The band's ends are no further from the exact delay than a nanosecond.
proof fn lemma_band(n: int, top: int, d: int, exact: int)
    requires
        n > 0,
        0 <= top < 0x20_0000_0000_0000,
        exact == n * (0x20_0000_0000_0000 + top),
        2 * 0x20_0000_0000_0000 * d - exact < 2 * 0x20_0000_0000_0000,
        exact - 2 * 0x20_0000_0000_0000 * d < 2 * 0x20_0000_0000_0000,
    ensures
        ({
            let delay = if d < n / 2 {
                n / 2
            } else {
                smaller(d, n - 1)
            };
            &&& 2 * 0x20_0000_0000_0000 * delay - exact < 4 * 0x20_0000_0000_0000
            &&& exact - 2 * 0x20_0000_0000_0000 * delay < 4 * 0x20_0000_0000_0000
        }),
{
    assert(n * 0x20_0000_0000_0000 <= exact < n * 0x40_0000_0000_0000) by (nonlinear_arith)
        requires
            exact == n * (0x20_0000_0000_0000 + top),
            n > 0,
            0 <= top < 0x20_0000_0000_0000,
    ;
    if d < n / 2 {
        assert(exact < 0x40_0000_0000_0000 * (n / 2));
        assert(0x40_0000_0000_0000 * (n / 2) <= 0x20_0000_0000_0000 * n);
    } else if n - 1 < d {
        assert(0x40_0000_0000_0000 * (n - 1) <= 0x40_0000_0000_0000 * d);
    }
}

/// A time of a few days is far from the end of the range.
proof fn lemma_not_huge(z: int, t: int, b: u64)
    requires
        t == pow2(1074),
        t > 0,
        z == units(b as int),
        1_000_000_000 * z < 0x2_0000_0000_0000 * t,
        b < INFINITY,
    ensures
        nanos_of(b) < u64::MAX,
{
    let x = 1_000_000_000 * z;
    if b > 0 {
        patterns_are_ordered(0, b as int);
    }
    assert(units(0) == 0);
    vstd::arithmetic::div_mod::lemma_fundamental_div_mod(x, t);
    let n = x / t;
    assert(n < 0x2_0000_0000_0000) by (nonlinear_arith)
        requires
            x == t * n + x % t,
            x % t >= 0,
            x < 0x2_0000_0000_0000 * t,
            t > 0,
    ;
}

/// A transport has stalled once the timeout has gone by since it last made
/// progress, and not before; one that tells of no progress never has.
pub proof fn stalls_are_found_in_time(at: u64, now: u64, timeout: u64)
    ensures
        timeout > 0 ==> (stalled_by(Some(at), now, timeout) <==> at + timeout <= now),
        !stalled_by(None, now, timeout),
{
}

/// A connection that comes back is counted and clears the backoff; the next loss
/// is dialed for at once again, and starts with the first delay.
pub proof fn reconnects_start_afresh(v: SessionView, error: Seq<char>, now: u64)
    requires
        v.reconnects < u64::MAX,
    ensures
        v.reconnected().reconnects == v.reconnects + 1,
        v.reconnected().state == SessionState::Connected,
        v.reconnected().disconnected(error).due(now),
        v.reconnected().disconnected(error).attempt == 0,
        v.reconnected().disconnected(error).reconnects == v.reconnects + 1,
        v.reconnected().disconnected(error).last_error == Some(error),
        v.reconnected().rng == v.rng,
{
}

} // verus!
