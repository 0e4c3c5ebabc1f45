//! The figures that telemetry reports: rates, ratios, means and times as
//! doubles, by their bit patterns.

use vstd::arithmetic::power2::{lemma_pow2_pos, pow2};
use vstd::prelude::*;

use crate::rounding::{
    difference, divide, doubles_are_exact, doubling_is_exact, from_whole, minus, multiply, nearest,
    nearest_exists, patterns_are_ordered, plus, product, product_exists, quotient,
    rounded_is_nearest, rounding_is_close, rounding_keeps_order, rounding_keeps_to_its_side,
    small_wholes_are_exact, sum, units, whole, BINADE, INFINITY, ONE, TWO_TO_64,
};

verus! {

/// The sign bit.
pub const SIGN: u64 = 0x8000_0000_0000_0000;

/// A pattern of what is not a number.
pub const NOT_A_NUMBER: u64 = 0x7FF8_0000_0000_0000;

/// A double without its sign.
pub open spec fn magnitude(b: u64) -> u64 {
    if b >= SIGN {
        (b - SIGN) as u64
    } else {
        b
    }
}

/// A magnitude with a sign.
pub open spec fn signed(b: u64, negative: bool) -> u64 {
    if negative {
        (b + SIGN) as u64
    } else {
        b
    }
}

/// The sum of two doubles of any kind. The sum of opposite infinities, and that
/// with what is not a number, is not a number.
pub open spec fn added(a: u64, b: u64) -> u64 {
    let x = magnitude(a);
    let y = magnitude(b);
    if x > INFINITY || y > INFINITY {
        NOT_A_NUMBER
    } else if x == INFINITY {
        if y == INFINITY && a != b {
            NOT_A_NUMBER
        } else {
            a
        }
    } else if y == INFINITY {
        b
    } else if (a >= SIGN) == (b >= SIGN) {
        signed(sum(x, y), a >= SIGN)
    } else if x == y {
        0
    } else if x > y {
        signed(difference(x, y), a >= SIGN)
    } else {
        signed(difference(y, x), b >= SIGN)
    }
}

/// The quotient of a double of any kind and a whole number that is not zero.
pub open spec fn shared(a: u64, n: u64) -> u64 {
    let x = magnitude(a);
    if x > INFINITY {
        NOT_A_NUMBER
    } else if x == INFINITY {
        a
    } else {
        signed(quotient(x, whole(n as int)), a >= SIGN)
    }
}

/// The greater of a double that is not negative and one of any kind; what is
/// not a number is passed over.
pub open spec fn greater(a: u64, b: u64) -> u64 {
    if a < b <= INFINITY {
        b
    } else {
        a
    }
}

/// The double nearest to a signed whole number.
pub open spec fn signed_whole(x: i64) -> u64 {
    if x < 0 {
        signed(whole(-x), true)
    } else {
        whole(x as int)
    }
}

/// The quotient of two counts; zero where the second is.
pub open spec fn ratio(n: u64, of: u64) -> u64 {
    if of == 0 {
        0
    } else {
        quotient(whole(n as int), whole(of as int))
    }
}

/// Nanoseconds in seconds: the whole seconds and the fraction of one.
pub open spec fn seconds(ns: u64) -> u64 {
    sum(
        whole((ns / 1_000_000_000) as int),
        quotient(whole((ns % 1_000_000_000) as int), whole(1_000_000_000)),
    )
}

/// Nanoseconds in milliseconds.
pub open spec fn millis(ns: u64) -> u64 {
    product(seconds(ns), whole(1000))
}

/// So many bytes in so many nanoseconds, in bits per second.
pub open spec fn bits_per_second(bytes: u64, ns: u64) -> u64 {
    quotient(product(whole(bytes as int), whole(8)), seconds(ns))
}

// ---------------------------------------------------------------------------
// Ranges
// ---------------------------------------------------------------------------

/// The double nearest to a whole number, and how large it is.
pub proof fn lemma_whole(x: u64)
    ensures
        nearest(x * pow2(1074), 1, whole(x as int) as int),
        whole(x as int) <= TWO_TO_64,
        x > 0 ==> whole(x as int) >= ONE,
        units(whole(x as int) as int) >= 0,
        x > 0 ==> units(whole(x as int) as int) > 0,
{
    let t = pow2(1074) as int;
    let b = whole(x as int);
    nearest_exists(x);
    lemma_pow2_pos(1074);
    if x > 0 {
        small_wholes_are_exact(1);
        lemma_one();
        assert(x * t >= t) by (nonlinear_arith)
            requires
                x >= 1,
                t > 0,
        ;
        rounding_keeps_to_its_side(x * t, 1, b, ONE);
        patterns_are_ordered(0, b as int);
    } else {
        small_wholes_are_exact(0);
    }
}

proof fn lemma_one()
    ensures
        units(ONE as int) == pow2(1074),
{
    vstd::arithmetic::power2::lemma2_to64();
    vstd::arithmetic::power2::lemma2_to64_rest();
    vstd::arithmetic::power2::lemma_pow2_adds(52, 1022);
    assert(ONE as int / 0x10_0000_0000_0000 == 1023 && ONE as int % 0x10_0000_0000_0000 == 0);
}

/// A part is not more than the whole: the ratio of a count to one that is not
/// smaller is at most 1.
pub proof fn ratios_are_at_most_one(n: u64, of: u64)
    requires
        n <= of,
    ensures
        ratio(n, of) <= ONE,
{
    if of > 0 {
        let t = pow2(1074) as int;
        let a = whole(n as int);
        let b = whole(of as int);
        lemma_pow2_pos(1074);
        lemma_whole(n);
        lemma_whole(of);
        lemma_one();
        assert(n * t <= of * t) by (nonlinear_arith)
            requires
                n <= of,
                t > 0,
        ;
        rounding_keeps_order(n * t, 1, of * t, 1, a, b);
        let u = units(a as int);
        let v = units(b as int);
        if a < b {
            patterns_are_ordered(a as int, b as int);
        }
        assert(u * t <= t * v) by (nonlinear_arith)
            requires
                u <= v,
                t > 0,
        ;
        rounded_is_nearest(u * t, v);
        rounding_keeps_to_its_side(u * t, v, quotient(a, b), ONE);
    }
}

/// The sum of two doubles is at most twice a bound of both.
pub proof fn sums_are_bounded(a: u64, b: u64, bound: u64)
    requires
        a <= bound,
        b <= bound,
        BINADE <= bound,
        bound + BINADE < INFINITY,
    ensures
        sum(a, b) <= bound + BINADE,
{
    doubling_is_exact(bound);
    if a < bound {
        patterns_are_ordered(a as int, bound as int);
    }
    if b < bound {
        patterns_are_ordered(b as int, bound as int);
    }
    let n = units(a as int) + units(b as int);
    rounded_is_nearest(n, 1);
    rounding_keeps_to_its_side(n, 1, sum(a, b), (bound + BINADE) as u64);
}

/// Times in seconds are close: off by at most a 2^50th part.
pub proof fn seconds_are_close(ns: u64)
    ensures
        seconds(ns) <= TWO_TO_64 + BINADE,
        ns > 0 ==> seconds(ns) >= BINADE,
        (1_000_000_000 * units(seconds(ns) as int) - ns * pow2(1074)) * 0x4_0000_0000_0000 <= ns
            * pow2(1074),
        (ns * pow2(1074) - 1_000_000_000 * units(seconds(ns) as int)) * 0x4_0000_0000_0000 <= ns
            * pow2(1074),
{
    let t = pow2(1074) as int;
    let g = 1_000_000_000int;
    let w = 0x10_0000_0000_0000int;
    let n = ns as int;
    let s = (ns / 1_000_000_000) as int;
    let f = (ns % 1_000_000_000) as int;
    let b = quotient(whole(f), whole(g));
    let c = seconds(ns);
    let ub = units(b as int);
    let uc = units(c as int);
    lemma_pow2_pos(1074);
    assert(units(0) == 0);
    small_wholes_are_exact(s as u64);
    small_wholes_are_exact(f as u64);
    small_wholes_are_exact(1_000_000_000);
    lemma_whole(s as u64);
    ratios_are_at_most_one(f as u64, 1_000_000_000);
    sums_are_bounded(whole(s), b, TWO_TO_64);
    assert(units(whole(g) as int) == g * t);
    // The fraction of a second.
    let num = (f * t) * t;
    let den = g * t;
    assert(den > 0) by (nonlinear_arith)
        requires
            den == g * t,
            g == 1_000_000_000,
            t > 0,
    ;
    rounded_is_nearest(num, den);
    if f > 0 {
        lemma_least();
        assert(num >= units(BINADE as int) * den) by (nonlinear_arith)
            requires
                num == (f * t) * t,
                den == g * t,
                f >= 1,
                units(BINADE as int) * g <= t,
                t > 0,
        ;
        rounding_keeps_to_its_side(num, den, b, BINADE);
        rounding_is_close(num, den, b);
        let off = g * ub - f * t;
        assert(ub * den - num == off * t) by (nonlinear_arith)
            requires
                den == g * t,
                num == (f * t) * t,
                off == g * ub - f * t,
        ;
        assert(off * w <= f * t && (0 - off) * w <= f * t) by (nonlinear_arith)
            requires
                (off * t) * w <= (f * t) * t,
                (0 - off * t) * w <= (f * t) * t,
                t > 0,
        ;
    } else {
        assert(f * t == 0) by (nonlinear_arith)
            requires
                f == 0,
        ;
        assert(num == 0 && 0 * den == 0) by (nonlinear_arith)
            requires
                num == (f * t) * t,
                f == 0,
        ;
        doubles_are_exact(num, den, 0);
        assert(b == 0);
    }
    let off = g * ub - f * t;
    assert(off * w <= f * t && (0 - off) * w <= f * t);
    // The sum of the two.
    let both = s * t + ub;
    let far = g * (uc - both);
    rounded_is_nearest(both, 1);
    assert(s * t >= 0 && f * t >= 0) by (nonlinear_arith)
        requires
            s >= 0,
            f >= 0,
            t > 0,
    ;
    assert(n * t == g * (s * t) + f * t) by (nonlinear_arith)
        requires
            n == g * s + f,
    ;
    if n > 0 {
        lemma_least();
        assert(s > 0 ==> s * t >= t) by (nonlinear_arith)
            requires
                s >= 0,
                t > 0,
        ;
        if f > 0 {
            if BINADE < b {
                patterns_are_ordered(BINADE as int, b as int);
            }
        }
        assert(both >= units(BINADE as int) * 1);
        rounding_keeps_to_its_side(both, 1, c, BINADE);
        rounding_is_close(both, 1, c);
        assert((uc - both) * w <= both && (both - uc) * w <= both);
    } else {
        assert(both == 0);
        doubles_are_exact(0, 1, 0);
        assert(uc == 0);
    }
    assert(g * both == n * t + off) by (nonlinear_arith)
        requires
            both == s * t + ub,
            off == g * ub - f * t,
            n * t == g * (s * t) + f * t,
    ;
    assert(g * uc - n * t == far + off) by (nonlinear_arith)
        requires
            far == g * (uc - both),
            g * both == n * t + off,
    ;
    assert(far * w <= g * both && (0 - far) * w <= g * both) by (nonlinear_arith)
        requires
            far == g * (uc - both),
            (uc - both) * w <= both,
            (both - uc) * w <= both,
            g == 1_000_000_000,
    ;
}

/// The least normal double is less than a nanosecond.
proof fn lemma_least()
    ensures
        units(BINADE as int) * 1_000_000_000 <= pow2(1074),
        units(BINADE as int) == BINADE,
{
    vstd::arithmetic::power2::lemma2_to64();
    vstd::arithmetic::power2::lemma2_to64_rest();
    vstd::arithmetic::power2::lemma_pow2_adds(52, 30);
    vstd::arithmetic::power2::lemma_pow2_strictly_increases(82, 1074);
    assert(BINADE as int / 0x10_0000_0000_0000 == 1 && BINADE as int % 0x10_0000_0000_0000 == 0);
}

proof fn lemma_eightfold(a: u64)
    requires
        a <= TWO_TO_64,
    ensures
        product(a, whole(8)) <= TWO_TO_64 + 3 * BINADE,
{
    let t = pow2(1074) as int;
    lemma_pow2_pos(1074);
    small_wholes_are_exact(8);
    doubling_is_exact(TWO_TO_64);
    doubling_is_exact((TWO_TO_64 + BINADE) as u64);
    doubling_is_exact((TWO_TO_64 + 2 * BINADE) as u64);
    if a < TWO_TO_64 {
        patterns_are_ordered(a as int, TWO_TO_64 as int);
    }
    let u = units(a as int);
    let top = units(TWO_TO_64 + 3 * BINADE);
    assert(u * (8 * t) <= top * t) by (nonlinear_arith)
        requires
            8 * u <= top,
            t > 0,
    ;
    product_exists(a, whole(8));
    rounding_keeps_to_its_side(
        u * (8 * t),
        t,
        product(a, whole(8)),
        (TWO_TO_64 + 3 * BINADE) as u64,
    );
}

// ---------------------------------------------------------------------------
// Computing them
// ---------------------------------------------------------------------------

fn magnitude_of(b: u64) -> (m: u64)
    ensures
        m == magnitude(b),
        m < SIGN,
{
    if b >= SIGN {
        b - SIGN
    } else {
        b
    }
}

fn with_sign(b: u64, negative: bool) -> (r: u64)
    requires
        b < SIGN,
    ensures
        r == signed(b, negative),
{
    if negative {
        b + SIGN
    } else {
        b
    }
}

/// The sum of two doubles of any kind.
pub fn add_up(a: u64, b: u64) -> (r: u64)
    ensures
        r == added(a, b),
{
    let x: u64 = magnitude_of(a);
    let y: u64 = magnitude_of(b);
    if x > INFINITY || y > INFINITY {
        NOT_A_NUMBER
    } else if x == INFINITY {
        if y == INFINITY && a != b {
            NOT_A_NUMBER
        } else {
            a
        }
    } else if y == INFINITY {
        b
    } else if (a >= SIGN) == (b >= SIGN) {
        with_sign(plus(x, y), a >= SIGN)
    } else if x == y {
        0
    } else if x > y {
        with_sign(minus(x, y), a >= SIGN)
    } else {
        with_sign(minus(y, x), b >= SIGN)
    }
}

/// The quotient of a double of any kind and a whole number.
pub fn share_out(a: u64, n: u64) -> (r: u64)
    requires
        n > 0,
    ensures
        r == shared(a, n),
{
    let x: u64 = magnitude_of(a);
    if x > INFINITY {
        NOT_A_NUMBER
    } else if x == INFINITY {
        a
    } else {
        proof {
            lemma_whole(n);
        }
        with_sign(divide(x, from_whole(n)), a >= SIGN)
    }
}

/// The greater of a double that is not negative and one of any kind.
pub fn greater_of(a: u64, b: u64) -> (r: u64)
    ensures
        r == greater(a, b),
{
    if a < b && b <= INFINITY {
        b
    } else {
        a
    }
}

/// The double nearest to a signed whole number.
pub fn from_signed(x: i64) -> (r: u64)
    ensures
        r == signed_whole(x),
{
    if x < 0 {
        let m: u64 = (0 - x as i128) as u64;
        proof {
            lemma_whole(m);
        }
        with_sign(from_whole(m), true)
    } else {
        from_whole(x as u64)
    }
}

/// The quotient of two counts; zero where the second is.
pub fn ratio_of(n: u64, of: u64) -> (r: u64)
    ensures
        r == ratio(n, of),
{
    if of == 0 {
        0
    } else {
        proof {
            lemma_whole(n);
            lemma_whole(of);
        }
        divide(from_whole(n), from_whole(of))
    }
}

/// Nanoseconds in seconds.
pub fn in_seconds(ns: u64) -> (r: u64)
    ensures
        r == seconds(ns),
        r <= TWO_TO_64 + BINADE,
{
    let whole_seconds: u64 = ns / 1_000_000_000;
    let left: u64 = ns % 1_000_000_000;
    let part: u64 = ratio_of(left, 1_000_000_000);
    proof {
        ratios_are_at_most_one(left, 1_000_000_000);
        lemma_whole(whole_seconds);
        sums_are_bounded(whole(whole_seconds as int), part, TWO_TO_64);
    }
    plus(from_whole(whole_seconds), part)
}

/// Nanoseconds in milliseconds.
pub fn in_millis(ns: u64) -> (r: u64)
    ensures
        r == millis(ns),
{
    proof {
        lemma_whole(1000);
    }
    multiply(in_seconds(ns), from_whole(1000))
}

/// So many bytes in so many nanoseconds, in bits per second; zero where that is
/// no time at all.
pub fn rate_of(bytes: u64, ns: u64) -> (r: u64)
    ensures
        r == if seconds(ns) > 0 {
            bits_per_second(bytes, ns)
        } else {
            0
        },
{
    let time: u64 = in_seconds(ns);
    if time > 0 {
        proof {
            lemma_whole(bytes);
            lemma_whole(8);
            lemma_eightfold(whole(bytes as int));
        }
        divide(multiply(from_whole(bytes), from_whole(8)), time)
    } else {
        0
    }
}

} // verus!
