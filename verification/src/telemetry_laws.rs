//! Laws of the figures that are reported.

use vstd::arithmetic::power2::{
    lemma2_to64, lemma2_to64_rest, lemma_pow2_adds, lemma_pow2_pos, lemma_pow2_strictly_increases,
    pow2,
};
use vstd::prelude::*;

use crate::clock::latency_at;
use crate::figures::{added, bits_per_second, ratio, seconds, seconds_are_close, shared};
use crate::rounding::{
    doubles_are_exact, nearest, rounded_is_nearest, rounding_is_close, rounding_keeps_to_its_side,
    small_wholes_are_exact, units, whole, BINADE, INFINITY, TWO_TO_64,
};
use crate::telemetry::{
    bitrate_of, event_error, highest, lag_of, level_rank, mean_of, passed_on,
    samples_lie_within_peaks, span_of, summarises, summed, throughput_of, timed, worst_lag,
    EventView, Level, QosSummary, QosView, RecordView, SampleView,
};

verus! {

// ---------------------------------------------------------------------------
// Rates and ratios
// ---------------------------------------------------------------------------

/// A time that a clock can tell is neither too small nor too large for a double.
proof fn lemma_time(ns: u64)
    requires
        ns > 0,
    ensures
        units(seconds(ns) as int) > 0,
        2_000_000_000 * units(seconds(ns) as int) >= pow2(1074),
        units(seconds(ns) as int) <= 0x2_0000_0000_0000_0000 * pow2(1074),
{
    let t = pow2(1074) as int;
    let u = units(seconds(ns) as int);
    lemma_pow2_pos(1074);
    seconds_are_close(ns);
    assert(ns * t >= t && ns * t <= 0x1_0000_0000_0000_0000 * t) by (nonlinear_arith)
        requires
            1 <= ns < 0x1_0000_0000_0000_0000,
            t > 0,
    ;
}

/// The greatest double that is a power of two, and how far from the others it is.
proof fn lemma_scale()
    ensures
        units(INFINITY - BINADE) == 0x10_0000_0000_0000 * pow2(2045),
        pow2(2045) >= 0x1_0000_0000_0000_0000 * pow2(1074),
        units(BINADE as int) * 0x2_0000_0000_0000_0000 <= pow2(1074),
{
    lemma2_to64();
    lemma2_to64_rest();
    let t = pow2(1074) as int;
    lemma_pow2_pos(1074);
    lemma_pow2_adds(1074, 971);
    lemma_pow2_strictly_increases(64, 971);
    assert(pow2(2045) >= 0x1_0000_0000_0000_0000 * t) by (nonlinear_arith)
        requires
            pow2(2045) == t * pow2(971),
            pow2(971) >= 0x1_0000_0000_0000_0000,
            t > 0,
    ;
    lemma_pow2_adds(52, 65);
    lemma_pow2_adds(64, 1);
    lemma_pow2_strictly_increases(117, 1074);
    assert(BINADE as int / 0x10_0000_0000_0000 == 1 && BINADE as int % 0x10_0000_0000_0000 == 0);
    let b = INFINITY - BINADE;
    assert(b / 0x10_0000_0000_0000 == 2046 && b % 0x10_0000_0000_0000 == 0);
}

/// A rate is the bits that went out over the seconds that they took, off by at
/// most a 2^48th part: rate times nanoseconds is 8,000,000,000 times the bytes.
pub proof fn rates_are_bits_per_second(bytes: u64, ns: u64)
    requires
        bytes < 0x4_0000_0000_0000,
        ns > 0,
    ensures
        ({
            let rate = units(bits_per_second(bytes, ns) as int);
            let exact = 8_000_000_000 * bytes * pow2(1074);
            &&& (rate * ns - exact) * 0x1_0000_0000_0000 <= exact
            &&& (exact - rate * ns) * 0x1_0000_0000_0000 <= exact
        }),
{
    let t = pow2(1074) as int;
    let n = 8 * bytes as int;
    let a = n * t;
    let s = units(seconds(ns) as int);
    let r = bits_per_second(bytes, ns);
    let u = units(r as int);
    let w = 0x10_0000_0000_0000int;
    lemma_pow2_pos(1074);
    lemma_time(ns);
    lemma_scale();
    seconds_are_close(ns);
    // The bits are a double.
    small_wholes_are_exact(bytes);
    small_wholes_are_exact(8);
    small_wholes_are_exact(n as u64);
    wholes_are_finite_at(n as u64);
    assert((bytes * t) * (8 * t) == a * t) by (nonlinear_arith)
        requires
            a == n * t,
            n == 8 * bytes,
    ;
    doubles_are_exact(a * t, t, whole(n));
    assert(crate::rounding::product(whole(bytes as int), whole(8)) == whole(n));
    rounded_is_nearest(a * t, s);
    let exact = 8_000_000_000 * bytes * t;
    if bytes == 0 {
        assert(a * t == 0 && exact == 0) by (nonlinear_arith)
            requires
                a == n * t,
                n == 0,
                exact == 8_000_000_000 * bytes * t,
                bytes == 0,
        ;
        assert(units(0) == 0);
        doubles_are_exact(0, s, 0);
        assert(u == 0);
        assert(u * ns == 0) by (nonlinear_arith)
            requires
                u == 0,
        ;
    } else {
        lemma_within(n, t, s);
        rounding_keeps_to_its_side(a * t, s, r, BINADE);
        rounding_keeps_to_its_side(a * t, s, r, (INFINITY - BINADE) as u64);
        rounding_is_close(a * t, s, r);
        assert(a == 8 * (bytes * t)) by (nonlinear_arith)
            requires
                a == n * t,
                n == 8 * bytes,
        ;
        assert(exact == 1_000_000_000 * a) by (nonlinear_arith)
            requires
                a == n * t,
                n == 8 * bytes,
                exact == 8_000_000_000 * bytes * t,
        ;
        assert(u >= 0) by {
            crate::rounding::patterns_are_ordered(0, r as int);
            assert(units(0) == 0);
        }
        lemma_rate(u, s, ns as int, t, a);
    }
}

/// A whole number of few bits is a finite double.
proof fn wholes_are_finite_at(x: u64)
    ensures
        whole(x as int) <= TWO_TO_64 < INFINITY,
{
    crate::rounding::nearest_exists(x);
}

/// The quotient is neither too small nor too large for a normal double.
proof fn lemma_within(n: int, t: int, s: int)
    requires
        1 <= n < 0x20_0000_0000_0000,
        t == pow2(1074),
        t > 0,
        s > 0,
        2_000_000_000 * s >= t,
        s <= 0x2_0000_0000_0000_0000 * t,
    ensures
        (n * t) * t >= units(BINADE as int) * s,
        (n * t) * t <= units(INFINITY - BINADE) * s,
{
    lemma_scale();
    let low = units(BINADE as int);
    let top = units(INFINITY - BINADE);
    assert(low == 0x10_0000_0000_0000) by {
        lemma2_to64();
        assert(BINADE as int / 0x10_0000_0000_0000 == 1 && BINADE as int % 0x10_0000_0000_0000
            == 0);
    }
    assert((n * t) * t >= low * s) by (nonlinear_arith)
        requires
            n >= 1,
            t > 0,
            low > 0,
            s <= 0x2_0000_0000_0000_0000 * t,
            low * 0x2_0000_0000_0000_0000 <= t,
    {
        assert(low * s <= low * (0x2_0000_0000_0000_0000 * t));
        assert(low * (0x2_0000_0000_0000_0000 * t) == (low * 0x2_0000_0000_0000_0000) * t);
        assert((low * 0x2_0000_0000_0000_0000) * t <= t * t);
        assert(t * t <= (n * t) * t);
    }
    assert(top >= 0x10_0000_0000_0000 * (0x1_0000_0000_0000_0000 * t));
    assert((n * t) * t <= top * s) by (nonlinear_arith)
        requires
            1 <= n < 0x20_0000_0000_0000,
            t > 0,
            s > 0,
            2_000_000_000 * s >= t,
            top >= 0x10_0000_0000_0000 * (0x1_0000_0000_0000_0000 * t),
    {
        assert((n * t) * t <= (0x20_0000_0000_0000 * t) * t);
        assert((0x20_0000_0000_0000 * t) * t <= (0x20_0000_0000_0000 * t) * (2_000_000_000 * s));
        assert((0x20_0000_0000_0000 * t) * (2_000_000_000 * s) == (0x20_0000_0000_0000
            * 2_000_000_000 * t) * s);
        assert(0x20_0000_0000_0000 * 2_000_000_000 * t <= top);
    }
}

/// A quotient and its divisor, each close, give a close rate.
proof fn lemma_rate(u: int, s: int, n: int, t: int, a: int)
    requires
        u >= 0,
        s > 0,
        n > 0,
        t > 0,
        a >= 0,
        (u * s - a * t) * 0x10_0000_0000_0000 <= a * t,
        (a * t - u * s) * 0x10_0000_0000_0000 <= a * t,
        (1_000_000_000 * s - n * t) * 0x4_0000_0000_0000 <= n * t,
        (n * t - 1_000_000_000 * s) * 0x4_0000_0000_0000 <= n * t,
    ensures
        (u * n - 1_000_000_000 * a) * 0x1_0000_0000_0000 <= 1_000_000_000 * a,
        (1_000_000_000 * a - u * n) * 0x1_0000_0000_0000 <= 1_000_000_000 * a,
{
    let g = 1_000_000_000int;
    let d = g * s - n * t;
    let x = (u * n) * t;
    let y = (g * a) * t;
    let e = u * s - a * t;
    let ud = u * d;
    assert(ud == u * (g * s) - u * (n * t)) by (nonlinear_arith)
        requires
            d == g * s - n * t,
            ud == u * d,
    ;
    assert(u * (g * s) == g * (u * s)) by (nonlinear_arith);
    assert(u * (n * t) == (u * n) * t) by (nonlinear_arith);
    assert((g * a) * t == g * (a * t)) by (nonlinear_arith);
    assert(x == y + g * e - ud);
    assert(ud * 0x4_0000_0000_0000 <= x && (0 - ud) * 0x4_0000_0000_0000 <= x) by (nonlinear_arith)
        requires
            u >= 0,
            ud == u * d,
            d * 0x4_0000_0000_0000 <= n * t,
            (0 - d) * 0x4_0000_0000_0000 <= n * t,
            x == (u * n) * t,
    {
        assert(u * (d * 0x4_0000_0000_0000) <= u * (n * t));
        assert(u * ((0 - d) * 0x4_0000_0000_0000) <= u * (n * t));
        assert(u * (n * t) == (u * n) * t);
        assert(u * (d * 0x4_0000_0000_0000) == (u * d) * 0x4_0000_0000_0000);
        assert(u * ((0 - d) * 0x4_0000_0000_0000) == (0 - u * d) * 0x4_0000_0000_0000);
    }
    assert((g * e) * 0x10_0000_0000_0000 <= y && (0 - g * e) * 0x10_0000_0000_0000 <= y) by {
        assert(y == g * (a * t)) by (nonlinear_arith)
            requires
                y == (g * a) * t,
        ;
    }
    let z = u * n - g * a;
    assert(z * t == x - y) by (nonlinear_arith)
        requires
            z == u * n - g * a,
            x == (u * n) * t,
            y == (g * a) * t,
    ;
    assert((x - y) * 0x1_0000_0000_0000 <= y && (y - x) * 0x1_0000_0000_0000 <= y);
    assert(z * 0x1_0000_0000_0000 <= g * a && (0 - z) * 0x1_0000_0000_0000 <= g * a)
        by (nonlinear_arith)
        requires
            (z * t) * 0x1_0000_0000_0000 <= (g * a) * t,
            (0 - z * t) * 0x1_0000_0000_0000 <= (g * a) * t,
            t > 0,
    ;
}

/// A ratio of counts of up to 53 bits is the double nearest to their quotient.
pub proof fn ratios_are_quotients(n: u64, of: u64)
    requires
        n < 0x20_0000_0000_0000,
        0 < of < 0x20_0000_0000_0000,
    ensures
        nearest(n * pow2(1074), of as int, ratio(n, of) as int),
{
    let t = pow2(1074) as int;
    lemma_pow2_pos(1074);
    small_wholes_are_exact(n);
    small_wholes_are_exact(of);
    lemma_quotient(n as int, of as int, t, ratio(n, of));
}

/// A common factor of both parts of a quotient does not matter.
proof fn lemma_quotient(n: int, d: int, t: int, r: u64)
    requires
        t > 0,
        d > 0,
        r == crate::rounding::rounded((n * t) * t, d * t),
    ensures
        nearest(n * t, d, r as int),
{
    assert(d * t > 0) by (nonlinear_arith)
        requires
            d > 0,
            t > 0,
    ;
    rounded_is_nearest((n * t) * t, d * t);
    let b = r as int;
    let lo = units(b - 1) + units(b);
    let hi = units(b) + units(b + 1);
    lemma_factor(lo, n * t, d, t);
    lemma_factor(hi, n * t, d, t);
}

proof fn lemma_factor(m: int, x: int, d: int, t: int)
    requires
        t > 0,
    ensures
        m * (d * t) < 2 * (x * t) <==> m * d < 2 * x,
        m * (d * t) > 2 * (x * t) <==> m * d > 2 * x,
        m * (d * t) == 2 * (x * t) <==> m * d == 2 * x,
{
    assert(m * (d * t) - 2 * (x * t) == (m * d - 2 * x) * t) by (nonlinear_arith);
    let z = m * d - 2 * x;
    assert((z * t < 0 <==> z < 0) && (z * t > 0 <==> z > 0)) by (nonlinear_arith)
        requires
            t > 0,
    ;
}

// ---------------------------------------------------------------------------
// Summaries
// ---------------------------------------------------------------------------

/// The sum of `g` over the samples.
pub open spec fn total(s: Seq<SampleView>, g: spec_fn(SampleView) -> int) -> int
    decreases s.len(),
{
    if s.len() == 0 {
        0
    } else {
        g(s[0]) + total(s.skip(1), g)
    }
}

proof fn lemma_total(s: Seq<SampleView>, g: spec_fn(SampleView) -> int)
    requires
        s.len() > 0,
    ensures
        total(s, g) == total(s.drop_last(), g) + g(s.last()),
    decreases s.len(),
{
    if s.len() > 1 {
        lemma_total(s.skip(1), g);
        assert(s.skip(1).drop_last() =~= s.drop_last().skip(1));
        assert(s.drop_last()[0] == s[0]);
    } else {
        assert(s.skip(1) =~= s.drop_last());
    }
}

proof fn lemma_sum_of_wholes(x: u64, y: u64)
    requires
        x + y < 0x20_0000_0000_0000,
    ensures
        added(whole(x as int), whole(y as int)) == whole(x + y),
{
    let t = pow2(1074) as int;
    small_wholes_are_exact(x);
    small_wholes_are_exact(y);
    small_wholes_are_exact((x + y) as u64);
    wholes_are_finite_at(x);
    wholes_are_finite_at(y);
    wholes_are_finite_at((x + y) as u64);
    assert(x * t + y * t == (x + y) * t) by (nonlinear_arith);
    doubles_are_exact((x + y) * t, 1, whole(x + y));
}

/// True if `f` of every sample is the whole number that `g` says, and not
/// negative.
pub open spec fn whole_by(
    s: Seq<SampleView>,
    f: spec_fn(SampleView) -> u64,
    g: spec_fn(SampleView) -> int,
) -> bool {
    forall|i: int|
        0 <= i < s.len() ==> f(#[trigger] s[i]) == whole(g(s[i])) && g(s[i]) >= 0
}

proof fn lemma_sums(
    s: Seq<SampleView>,
    f: spec_fn(SampleView) -> u64,
    g: spec_fn(SampleView) -> int,
)
    requires
        whole_by(s, f, g),
        total(s, g) < 0x20_0000_0000_0000,
    ensures
        total(s, g) >= 0,
        summed(s, f) == whole(total(s, g)),
    decreases s.len(),
{
    if s.len() > 0 {
        let rest = s.drop_last();
        lemma_total(s, g);
        assert forall|i: int| 0 <= i < rest.len() implies f(#[trigger] rest[i]) == whole(g(rest[i]))
            && g(rest[i]) >= 0 by {
            assert(rest[i] == s[i]);
        }
        assert(f(s[s.len() - 1]) == whole(g(s[s.len() - 1])) && g(s[s.len() - 1]) >= 0);
        lemma_sums(rest, f, g);
        lemma_sum_of_wholes(total(rest, g) as u64, g(s.last()) as u64);
    } else {
        small_wholes_are_exact(0);
    }
}

/// The mean of whole numbers is the double nearest to their sum over how many
/// there are.
pub proof fn means_are_means(
    s: Seq<SampleView>,
    f: spec_fn(SampleView) -> u64,
    g: spec_fn(SampleView) -> int,
)
    requires
        0 < s.len() < 0x20_0000_0000_0000,
        whole_by(s, f, g),
        total(s, g) < 0x20_0000_0000_0000,
    ensures
        nearest(total(s, g) * pow2(1074), s.len() as int, mean_of(summed(s, f), s.len()) as int),
{
    lemma_sums(s, f, g);
    let x = total(s, g) as u64;
    let n = s.len() as u64;
    lemma_pow2_pos(1074);
    small_wholes_are_exact(x);
    small_wholes_are_exact(n);
    wholes_are_finite_at(x);
    lemma_quotient(x as int, n as int, pow2(1074) as int, shared(whole(x as int), n));
}

/// A summary's means: with bitrates and throughputs that are whole numbers, and
/// lags that are not negative, each is the double nearest to the sum of its own
/// figure over the samples, divided by how many samples there are.
pub proof fn summaries_tell_means(
    q: QosSummary,
    s: Seq<SampleView>,
    bitrate: spec_fn(SampleView) -> int,
    throughput: spec_fn(SampleView) -> int,
)
    requires
        summarises(q, s),
        0 < s.len() < 0x20_0000_0000_0000,
        whole_by(s, |x: SampleView| x.bitrate_out_bps, bitrate),
        total(s, bitrate) < 0x20_0000_0000_0000,
        whole_by(s, |x: SampleView| x.throughput_bps, throughput),
        total(s, throughput) < 0x20_0000_0000_0000,
        forall|i: int| 0 <= i < s.len() ==> (#[trigger] s[i]).buffer_ms >= 0,
        total(s, |x: SampleView| x.buffer_ms as int) < 0x20_0000_0000_0000,
    ensures
        ({
            let t = pow2(1074) as int;
            let n = s.len() as int;
            let lag = total(s, |x: SampleView| x.buffer_ms as int);
            &&& q.samples == n
            &&& nearest(total(s, bitrate) * t, n, q.avg_bitrate_out_bps as int)
            &&& nearest(total(s, throughput) * t, n, q.avg_throughput_bps as int)
            &&& nearest(lag * t, n, q.avg_buffer_ms as int)
        }),
{
    let lag = |x: SampleView| x.buffer_ms as int;
    assert(whole_by(s, bitrate_of(), bitrate)) by {
        assert(bitrate_of() =~= (|x: SampleView| x.bitrate_out_bps));
    }
    assert(whole_by(s, throughput_of(), throughput)) by {
        assert(throughput_of() =~= (|x: SampleView| x.throughput_bps));
    }
    assert(whole_by(s, lag_of(), lag));
    means_are_means(s, bitrate_of(), bitrate);
    means_are_means(s, throughput_of(), throughput);
    means_are_means(s, lag_of(), lag);
}

/// A summary's peaks: each is reached by its own figure in one of the samples, or
/// is zero, and none of the samples exceeds it.
pub proof fn summaries_tell_peaks(q: QosSummary, s: Seq<SampleView>, i: int)
    requires
        summarises(q, s),
        0 <= i < s.len(),
    ensures
        q.peak_bitrate_out_bps == 0 || reached(
            s,
            |x: SampleView| x.bitrate_out_bps,
            q.peak_bitrate_out_bps,
        ),
        s[i].bitrate_out_bps <= INFINITY ==> s[i].bitrate_out_bps <= q.peak_bitrate_out_bps,
        q.peak_throughput_bps == 0 || reached(
            s,
            |x: SampleView| x.throughput_bps,
            q.peak_throughput_bps,
        ),
        s[i].throughput_bps <= INFINITY ==> s[i].throughput_bps <= q.peak_throughput_bps,
        q.max_buffer_ms == 0 || lagged(s, q.max_buffer_ms),
        s[i].buffer_ms <= q.max_buffer_ms,
{
    peaks_are_reached(s, bitrate_of());
    peaks_are_reached(s, throughput_of());
    samples_lie_within_peaks(s, bitrate_of());
    samples_lie_within_peaks(s, throughput_of());
    assert(bitrate_of() =~= (|x: SampleView| x.bitrate_out_bps));
    assert(throughput_of() =~= (|x: SampleView| x.throughput_bps));
    assert((bitrate_of())(s[i]) == s[i].bitrate_out_bps);
    assert((throughput_of())(s[i]) == s[i].throughput_bps);
}

/// True if one of the samples has this value.
pub open spec fn reached(s: Seq<SampleView>, f: spec_fn(SampleView) -> u64, peak: u64) -> bool {
    exists|i: int| 0 <= i < s.len() && f(#[trigger] s[i]) == peak
}

/// True if one of the samples has this lag.
pub open spec fn lagged(s: Seq<SampleView>, worst: i64) -> bool {
    exists|i: int| 0 <= i < s.len() && (#[trigger] s[i]).buffer_ms == worst
}

/// A peak is reached: it is zero, or that of one of the samples.
pub proof fn peaks_are_reached(s: Seq<SampleView>, f: spec_fn(SampleView) -> u64)
    ensures
        highest(s, f) == 0 || reached(s, f, highest(s, f)),
        worst_lag(s) == 0 || lagged(s, worst_lag(s)),
    decreases s.len(),
{
    if s.len() > 0 {
        let rest = s.drop_last();
        let n = s.len() - 1;
        peaks_are_reached(rest, f);
        assert(s[n] == s.last());
        if highest(rest, f) != 0 {
            let i = choose|i: int| 0 <= i < rest.len() && f(#[trigger] rest[i]) == highest(rest, f);
            assert(s[i] == rest[i]);
        }
        if worst_lag(rest) != 0 {
            let i = choose|i: int|
                0 <= i < rest.len() && (#[trigger] rest[i]).buffer_ms == worst_lag(rest);
            assert(s[i] == rest[i]);
        }
        assert(f(s[n]) == f(s.last()));
    }
}

/// The samples that count toward the round-trip times are all that have one, in
/// order.
pub proof fn timed_samples_are_those_with_a_time(s: Seq<SampleView>)
    ensures
        timed(s) == s.filter(|x: SampleView| x.rtt_ms is Some),
    decreases s.len(),
{
    reveal(Seq::filter);
    if s.len() > 0 {
        timed_samples_are_those_with_a_time(s.drop_last());
    } else {
        assert(timed(s) =~= s.filter(|x: SampleView| x.rtt_ms is Some));
    }
}

/// Samples span the time from the first to the last, in seconds.
pub proof fn spans_are_measured(s: Seq<SampleView>)
    requires
        s.len() >= 1,
        s.first().uptime_ms <= s.last().uptime_ms < 0x20_0000_0000_0000,
    ensures
        s.first().uptime_ms + span_of(s) == s.last().uptime_ms,
        nearest(
            (s.last().uptime_ms - s.first().uptime_ms) * pow2(1074),
            1000,
            ratio(span_of(s), 1000) as int,
        ),
{
    if s.len() == 1 {
        assert(s.first() == s.last());
    }
    ratios_are_quotients(span_of(s), 1000);
}

// ---------------------------------------------------------------------------
// Events
// ---------------------------------------------------------------------------

/// The collector behind a run of events.
pub open spec fn event_run(q: QosView, events: Seq<EventView>) -> QosView
    decreases events.len(),
{
    if events.len() == 0 {
        q
    } else {
        event_run(q, events.drop_last()).with_event(events.last())
    }
}

/// How many reconnects there are among the events.
pub open spec fn reconnects_in(events: Seq<EventView>) -> nat {
    events.filter(|e: EventView| e == EventView::Reconnected).len()
}

/// How many failed attempts there are among the events.
pub open spec fn attempts_in(events: Seq<EventView>) -> nat {
    events.filter(|e: EventView| e is ReconnectAttempt).len()
}

/// Events are counted and delivered: behind a run of them the collector knows how
/// many reconnects and how many failed attempts there were, and all of them are
/// on their way to whoever listens, in order.
pub proof fn events_are_counted(q: QosView, events: Seq<EventView>)
    ensures
        ({
            let after = event_run(q, events);
            &&& after.reconnects == (q.reconnects + reconnects_in(events)) % 0x1_0000_0000_0000_0000
            &&& after.reconnect_attempts == (q.reconnect_attempts + attempts_in(events))
                % 0x1_0000_0000_0000_0000
            &&& after.undelivered_events == if q.event_sink {
                q.undelivered_events + events
            } else {
                q.undelivered_events
            }
            &&& after.event_sink == q.event_sink
            &&& after.samples == q.samples
            &&& after.undelivered == q.undelivered
        }),
    decreases events.len(),
{
    reveal(Seq::filter);
    if events.len() > 0 {
        events_are_counted(q, events.drop_last());
        assert(events =~= events.drop_last().push(events.last()));
        if q.event_sink {
            assert(event_run(q, events).undelivered_events =~= q.undelivered_events + events);
        }
    } else {
        assert(q.undelivered_events + events =~= q.undelivered_events);
    }
}

/// The last error is what the newest of the events that tell of one says, its
/// first 512 characters at most; events that tell of none do not clear it.
pub proof fn the_newest_error_is_kept(q: QosView, events: Seq<EventView>, i: int)
    requires
        0 <= i < events.len(),
        event_error(events[i]) is Some,
        forall|j: int| i < j < events.len() ==> event_error(#[trigger] events[j]) is None,
    ensures
        event_run(q, events).last_error matches Some(e) && {
            let said = event_error(events[i])->0;
            &&& e.is_prefix_of(said)
            &&& e.len() == said.len() || e.len() == 512 && said.len() > 512
        },
    decreases events.len(),
{
    let n = events.len() - 1;
    let said = event_error(events[i])->0;
    if i == n {
        assert(said.take(512).is_prefix_of(said) || said.len() < 512);
    } else {
        assert(event_error(events[n]) is None);
        assert(events.drop_last()[i] == events[i]);
        assert forall|j: int| i < j < events.drop_last().len() implies event_error(
            #[trigger] events.drop_last()[j],
        ) is None by {
            assert(events[j] == events.drop_last()[j]);
        }
        the_newest_error_is_kept(q, events.drop_last(), i);
    }
}

/// A media time and its distance to the present make the present.
pub proof fn latencies_reach_the_present(now_ms: i64, pts: i64)
    requires
        -0x8000_0000_0000_0000 <= now_ms - pts <= 0x7FFF_FFFF_FFFF_FFFF,
    ensures
        pts + latency_at(now_ms, pts) == now_ms,
{
}

/// A hub passes on the records of its level and of those that are more severe, in
/// order, and no others; what is less severe is never kept where what is more
/// severe is not.
pub proof fn severe_records_pass(records: Seq<RecordView>, max: Level)
    ensures
        passed_on(records, max) == records.filter(
            |r: RecordView| level_rank(r.level) <= level_rank(max),
        ),
        level_rank(Level::Error) < level_rank(Level::Warn) < level_rank(Level::Info) < level_rank(
            Level::Debug,
        ) < level_rank(Level::Trace),
    decreases records.len(),
{
    reveal(Seq::filter);
    if records.len() > 0 {
        severe_records_pass(records.drop_last(), max);
    } else {
        assert(passed_on(records, max) =~= records.filter(
            |r: RecordView| level_rank(r.level) <= level_rank(max),
        ));
    }
}

} // verus!
