//! Arithmetic on doubles that are not negative, by their IEEE-754 bit patterns.
//! Each operation gives the double that is nearest to the exact result; of two
//! that are equally near, the one whose pattern is even.

use vstd::arithmetic::power2::{
    lemma2_to64, lemma2_to64_rest, lemma_pow2_adds, lemma_pow2_pos,
    lemma_pow2_strictly_increases, lemma_pow2_unfold, pow2,
};
use vstd::prelude::*;

use crate::doubles::{double_of, halvings, whole_numbers_are_exact};

verus! {

/// The pattern of infinity: one past that of the largest finite double.
pub const INFINITY: u64 = 0x7FF0_0000_0000_0000;

/// 2^52: the step from one exponent to the next in a pattern.
pub const BINADE: u64 = 0x10_0000_0000_0000;

/// What the pattern `b` stands for, in units of 2^-1074. Infinity stands for
/// 2^1024 here, which is where a further double would be.
pub open spec fn units(b: int) -> int {
    let e = b / 0x10_0000_0000_0000;
    let f = b % 0x10_0000_0000_0000;
    if e <= 0 {
        f
    } else {
        (0x10_0000_0000_0000 + f) * pow2((e - 1) as nat)
    }
}

/// True if `b` is the double nearest to `num / den` units: it lies between the
/// middle of the gap below and that of the gap above, and on the middle itself
/// only if its pattern is even.
pub open spec fn nearest(num: int, den: int, b: int) -> bool {
    &&& 0 <= b <= INFINITY
    &&& b > 0 ==> {
        let middle = (units(b - 1) + units(b)) * den;
        middle < 2 * num || middle == 2 * num && b % 2 == 0
    }
    &&& b < INFINITY ==> {
        let middle = (units(b) + units(b + 1)) * den;
        2 * num < middle || 2 * num == middle && b % 2 == 0
    }
}

/// The double nearest to `num / den` units.
pub open spec fn rounded(num: int, den: int) -> u64 {
    choose|b: u64| #[trigger] nearest(num, den, b as int)
}

/// The double nearest to a whole number.
pub open spec fn whole(x: int) -> u64 {
    rounded(x * pow2(1074), 1)
}

/// The double nearest to the sum of two.
pub open spec fn sum(a: u64, b: u64) -> u64 {
    rounded(units(a as int) + units(b as int), 1)
}

/// The double nearest to the difference of two, the first of which is not the
/// smaller.
pub open spec fn difference(a: u64, b: u64) -> u64 {
    rounded(units(a as int) - units(b as int), 1)
}

/// The double nearest to the product of two.
pub open spec fn product(a: u64, b: u64) -> u64 {
    rounded(units(a as int) * units(b as int), pow2(1074) as int)
}

/// The double nearest to the quotient of two.
pub open spec fn quotient(a: u64, b: u64) -> u64 {
    rounded(units(a as int) * pow2(1074), units(b as int))
}

// ---------------------------------------------------------------------------
// Order
// ---------------------------------------------------------------------------

proof fn lemma_units_at(e: nat, q: int)
    requires
        0 <= q <= 0x20_0000_0000_0000,
        e == 0 || q >= 0x10_0000_0000_0000,
    ensures
        units(e * 0x10_0000_0000_0000 + q) == q * pow2(e),
{
    let b = e * 0x10_0000_0000_0000 + q;
    let w = 0x10_0000_0000_0000int;
    lemma2_to64();
    if q == 2 * w {
        assert(b / w == e + 2 && b % w == 0);
        lemma_pow2_unfold((e + 1) as nat);
        assert(w * pow2((e + 1) as nat) == q * pow2(e)) by (nonlinear_arith)
            requires
                pow2((e + 1) as nat) == 2 * pow2(e),
                q == 2 * w,
        ;
    } else if q >= w {
        assert(b / w == e + 1 && b % w == q - w);
    } else {
        assert(b / w == 0 && b % w == q);
    }
}

proof fn lemma_next(b: int)
    requires
        0 <= b,
    ensures
        0 <= units(b) < units(b + 1),
{
    let w = 0x10_0000_0000_0000int;
    let f = b % w;
    lemma2_to64();
    if b < w {
        lemma_units_at(0, b);
        lemma_units_at(0, b + 1);
    } else {
        let e = (b / w - 1) as nat;
        lemma_units_at(e, w + f);
        lemma_units_at(e, w + f + 1);
        lemma_pow2_pos(e);
        let p = pow2(e) as int;
        assert(0 <= (w + f) * p < (w + f + 1) * p) by (nonlinear_arith)
            requires
                p > 0,
                w > 0,
                f >= 0,
        ;
    }
}

/// Doubles are ordered as their patterns are.
pub proof fn patterns_are_ordered(a: int, b: int)
    requires
        0 <= a < b,
    ensures
        0 <= units(a) < units(b),
    decreases b - a,
{
    lemma_next(b - 1);
    if a < b - 1 {
        patterns_are_ordered(a, b - 1);
    }
}

proof fn lemma_unique(num: int, den: int, a: int, b: int)
    requires
        den > 0,
        nearest(num, den, a),
        nearest(num, den, b),
        a <= b,
    ensures
        a == b,
{
    lemma_next(a);
    if a + 1 < b {
        patterns_are_ordered(a, b - 1);
        patterns_are_ordered(a + 1, b);
        assert((units(a) + units(a + 1)) * den < (units(b - 1) + units(b)) * den)
            by (nonlinear_arith)
            requires
                units(a) + units(a + 1) < units(b - 1) + units(b),
                den > 0,
        ;
    }
}

/// There is one nearest double.
pub proof fn nearest_is_unique(num: int, den: int, b: u64)
    requires
        den > 0,
        nearest(num, den, b as int),
    ensures
        rounded(num, den) == b,
{
    let r = rounded(num, den);
    assert(nearest(num, den, r as int));
    if r <= b {
        lemma_unique(num, den, r as int, b as int);
    } else {
        lemma_unique(num, den, b as int, r as int);
    }
}

proof fn lemma_search(num: int, den: int, b: int)
    requires
        den > 0,
        0 <= b <= INFINITY,
        b < INFINITY ==> {
            let middle = (units(b) + units(b + 1)) * den;
            2 * num < middle || 2 * num == middle && b % 2 == 0
        },
    ensures
        exists|r: u64| #[trigger] nearest(num, den, r as int),
    decreases b,
{
    if nearest(num, den, b) {
        assert(nearest(num, den, (b as u64) as int));
    } else {
        lemma_search(num, den, b - 1);
    }
}

/// There is a nearest double.
pub proof fn rounded_is_nearest(num: int, den: int)
    requires
        den > 0,
    ensures
        nearest(num, den, rounded(num, den) as int),
{
    lemma_search(num, den, INFINITY as int);
}

/// What a double stands for is rounded to that double.
pub proof fn doubles_are_exact(num: int, den: int, b: u64)
    requires
        den > 0,
        b < INFINITY,
        num == units(b as int) * den,
    ensures
        nearest(num, den, b as int),
        rounded(num, den) == b,
{
    let u = units(b as int);
    lemma_next(b as int);
    assert(2 * num < (u + units(b + 1)) * den) by (nonlinear_arith)
        requires
            num == u * den,
            u < units(b + 1),
            den > 0,
    ;
    if b > 0 {
        lemma_next(b - 1);
        assert((units(b - 1) + u) * den < 2 * num) by (nonlinear_arith)
            requires
                num == u * den,
                units(b - 1) < u,
                den > 0,
        ;
    }
    nearest_is_unique(num, den, b);
}

/// Rounding does not leap over a double: what is not less than what `b` stands
/// for is not rounded to less than `b`, and likewise from above.
pub proof fn rounding_keeps_to_its_side(num: int, den: int, r: u64, b: u64)
    requires
        den > 0,
        nearest(num, den, r as int),
        b <= INFINITY,
    ensures
        num >= units(b as int) * den ==> r >= b,
        num <= units(b as int) * den ==> r <= b,
{
    let at = units(b as int);
    if r < b {
        lemma_next(r as int);
        patterns_are_ordered(r as int, b as int);
        if r + 1 < b {
            patterns_are_ordered(r + 1, b as int);
        }
        let pair = units(r as int) + units(r + 1);
        assert(pair * den < 2 * (at * den)) by (nonlinear_arith)
            requires
                pair < 2 * at,
                den > 0,
        ;
    } else if r > b {
        lemma_next(r - 1);
        patterns_are_ordered(b as int, r as int);
        if b < r - 1 {
            patterns_are_ordered(b as int, r - 1);
        }
        let pair = units(r - 1) + units(r as int);
        assert(pair * den > 2 * (at * den)) by (nonlinear_arith)
            requires
                pair > 2 * at,
                den > 0,
        ;
    }
}

/// Rounding keeps the order of two fractions.
pub proof fn rounding_keeps_order(n1: int, d1: int, n2: int, d2: int, r1: u64, r2: u64)
    requires
        d1 > 0,
        d2 > 0,
        nearest(n1, d1, r1 as int),
        nearest(n2, d2, r2 as int),
        n1 * d2 <= n2 * d1,
    ensures
        r1 <= r2,
{
    if r2 < r1 {
        let top = units(r1 - 1) + units(r1 as int);
        let low = units(r2 as int) + units(r2 + 1);
        lemma_next(r2 as int);
        lemma_next(r1 - 1);
        if r2 + 1 < r1 {
            patterns_are_ordered(r2 as int, r1 - 1);
            patterns_are_ordered(r2 + 1, r1 as int);
        }
        // low * d2 >= 2 * n2 and top * d1 <= 2 * n1.
        assert(low * d2 * d1 >= 2 * n2 * d1) by (nonlinear_arith)
            requires
                low * d2 >= 2 * n2,
                d1 > 0,
        ;
        assert(top * d1 * d2 <= 2 * n1 * d2) by (nonlinear_arith)
            requires
                top * d1 <= 2 * n1,
                d2 > 0,
        ;
        assert(2 * n1 * d2 <= 2 * n2 * d1) by (nonlinear_arith)
            requires
                n1 * d2 <= n2 * d1,
        ;
        assert(low * d2 * d1 == low * (d1 * d2) && top * d1 * d2 == top * (d1 * d2))
            by (nonlinear_arith);
        let d = d1 * d2;
        assert(d > 0) by (nonlinear_arith)
            requires
                d == d1 * d2,
                d1 > 0,
                d2 > 0,
        ;
        if r2 + 1 < r1 {
            assert(low * d < top * d) by (nonlinear_arith)
                requires
                    low < top,
                    d > 0,
            ;
        } else {
            // Both are the same middle, and only one of the patterns is even.
            assert(low == top);
            if low * d2 > 2 * n2 {
                assert(low * d2 * d1 > 2 * n2 * d1) by (nonlinear_arith)
                    requires
                        low * d2 > 2 * n2,
                        d1 > 0,
                ;
            }
            if top * d1 < 2 * n1 {
                assert(top * d1 * d2 < 2 * n1 * d2) by (nonlinear_arith)
                    requires
                        top * d1 < 2 * n1,
                        d2 > 0,
                ;
            }
        }
    }
}

// ---------------------------------------------------------------------------
// Rounding
// ---------------------------------------------------------------------------

proof fn lemma_overflow(num: int, den: int, q: int, e: nat)
    requires
        den > 0,
        q >= 0x10_0000_0000_0000,
        e >= 2046,
        num >= q * pow2(e) * den,
    ensures
        nearest(num, den, INFINITY as int),
{
    let w = 0x10_0000_0000_0000int;
    lemma_units_at(2046, w);
    assert(2046 * w + w == INFINITY);
    if e > 2046 {
        lemma_pow2_strictly_increases(2046, e);
    }
    let top = units(INFINITY as int);
    let p = pow2(e) as int;
    let p0 = pow2(2046) as int;
    lemma_pow2_pos(2046);
    assert(q * p >= top) by (nonlinear_arith)
        requires
            top == w * p0,
            q >= w,
            w > 0,
            p >= p0,
            p0 > 0,
    ;
    lemma_next(INFINITY - 1);
    let below = units(INFINITY - 1);
    assert((below + top) * den < 2 * num) by (nonlinear_arith)
        requires
            below < top,
            q * p >= top,
            num >= q * p * den,
            den > 0,
    ;
}

/// The scaled relation between a fraction and the integer `m` below it.
spec fn holds_at(num: int, den: int, m: int, up: nat, dn: nat, sticky: bool) -> bool {
    let c = pow2(up) * den;
    let x = num * pow2(dn);
    &&& m * c <= x < (m + 1) * c
    &&& sticky == (m * c != x)
}

proof fn lemma_scaled_back(num: int, den: int, k: int, p: int, c: int, d: int, e: int)
    requires
        d > 0,
        e * d * den == p * c,
    ensures
        (k * p) * c < num * d ==> k * e * den < num,
        (k * p) * c <= num * d ==> k * e * den <= num,
        (k * p) * c > num * d ==> k * e * den > num,
        (k * p) * c == num * d ==> k * e * den == num,
{
    assert((k * p) * c == (k * e * den) * d) by (nonlinear_arith)
        requires
            e * d * den == p * c,
    ;
    let t = k * e * den;
    assert(t * d < num * d ==> t < num) by (nonlinear_arith)
        requires
            d > 0,
    ;
    assert(t * d > num * d ==> t > num) by (nonlinear_arith)
        requires
            d > 0,
    ;
    assert(t * d == num * d ==> t == num) by (nonlinear_arith)
        requires
            d > 0,
    ;
}

/// Rounding where bits are cut off: `q` is what stays, `rest` what goes.
proof fn lemma_cut(
    num: int,
    den: int,
    m: int,
    up: nat,
    dn: nat,
    sticky: bool,
    s: nat,
    e: nat,
    q: int,
    rest: int,
)
    requires
        den > 0,
        holds_at(num, den, m, up, dn, sticky),
        s >= 1,
        up + s == e + dn,
        m == q * pow2(s) + rest,
        0 <= rest < pow2(s),
        0 <= q < 0x20_0000_0000_0000,
        e == 0 || q >= 0x10_0000_0000_0000,
        e <= 2045,
    ensures
        ({
            let h = pow2((s - 1) as nat) as int;
            let over = rest > h || rest == h && (sticky || q % 2 == 1);
            nearest(
                num,
                den,
                e * 0x10_0000_0000_0000 + q + if over {
                    1int
                } else {
                    0
                },
            )
        }),
{
    let w = 0x10_0000_0000_0000int;
    let b = e * w + q;
    let h = pow2((s - 1) as nat) as int;
    let p = pow2(s) as int;
    let u = pow2(up) as int;
    let d = pow2(dn) as int;
    let f = pow2(e) as int;
    let c = u * den;
    let x = num * d;
    lemma_pow2_unfold(s);
    lemma_pow2_pos((s - 1) as nat);
    lemma_pow2_pos(up);
    lemma_pow2_pos(dn);
    lemma_pow2_pos(e);
    lemma_pow2_adds(up, s);
    lemma_pow2_adds(e, dn);
    assert(p == 2 * h);
    assert(u * p == f * d);
    assert(f * d * den == p * c) by (nonlinear_arith)
        requires
            u * p == f * d,
            c == u * den,
    ;
    assert(c > 0) by (nonlinear_arith)
        requires
            c == u * den,
            u > 0,
            den > 0,
    ;
    lemma_units_at(e, q);
    lemma_units_at(e, q + 1);
    lemma_next(b);
    assert(b <= INFINITY - 1);
    // The value against q steps, q + 1 steps, and the middle of the two.
    assert((q * p) * c <= x) by (nonlinear_arith)
        requires
            m * c <= x,
            m >= q * p,
            c > 0,
    ;
    assert((q + 1) * p >= m + 1) by (nonlinear_arith)
        requires
            m == q * p + rest,
            rest < p,
    ;
    assert(((q + 1) * p) * c > x) by (nonlinear_arith)
        requires
            (m + 1) * c > x,
            (q + 1) * p >= m + 1,
            c > 0,
    ;
    lemma_scaled_back(num, den, q, p, c, d, f);
    lemma_scaled_back(num, den, q + 1, p, c, d, f);
    let mid = q * p + h;
    assert(((2 * q + 1) * p) * c == 2 * (mid * c)) by (nonlinear_arith)
        requires
            mid == q * p + h,
            p == 2 * h,
    ;
    assert((2 * num) * d == 2 * x) by (nonlinear_arith)
        requires
            x == num * d,
    ;
    lemma_scaled_back(2 * num, den, 2 * q + 1, p, c, d, f);
    let middle = (units(b) + units(b + 1)) * den;
    assert(middle == (2 * q + 1) * f * den) by (nonlinear_arith)
        requires
            middle == (q * f + (q + 1) * f) * den,
    ;
    let over = rest > h || rest == h && (sticky || q % 2 == 1);
    assert(b % 2 == q % 2);
    if over {
        if rest > h {
            assert(mid * c < m * c) by (nonlinear_arith)
                requires
                    mid < m,
                    c > 0,
            ;
        } else {
            assert(mid == m);
        }
        assert(middle < 2 * num || middle == 2 * num && (b + 1) % 2 == 0);
        if b + 1 < INFINITY {
            lemma_next(b + 1);
            let next = units(b + 1);
            let third = units(b + 2);
            assert(2 * num < (next + third) * den) by (nonlinear_arith)
                requires
                    num < next * den,
                    next < third,
                    den > 0,
            ;
            assert(b + 1 + 1 == b + 2);
        }
    } else {
        if rest < h {
            assert((m + 1) * c <= mid * c) by (nonlinear_arith)
                requires
                    m + 1 <= mid,
                    c > 0,
            ;
        } else {
            assert(mid == m);
        }
        assert(2 * num < middle || 2 * num == middle && b % 2 == 0);
        if b > 0 {
            lemma_next(b - 1);
            let here = units(b);
            let below = units(b - 1);
            assert((below + here) * den < 2 * num) by (nonlinear_arith)
                requires
                    here * den <= num,
                    below < here,
                    den > 0,
            ;
        }
    }
}

/// 2^n.
fn power(n: u32) -> (p: u128)
    requires
        n <= 120,
    ensures
        p == pow2(n as nat),
{
    let mut p: u128 = 1;
    let mut i: u32 = 0;
    proof {
        lemma2_to64();
        lemma_pow2_120();
    }
    while i < n
        invariant
            i <= n <= 120,
            p == pow2(i as nat),
            pow2(120) == 0x100_0000_0000_0000_0000_0000_0000_0000,
        decreases n - i,
    {
        proof {
            lemma_pow2_unfold((i + 1) as nat);
            if i + 1 < 120 {
                lemma_pow2_strictly_increases((i + 1) as nat, 120);
            }
        }
        p = 2 * p;
        i = i + 1;
    }
    p
}

proof fn lemma_pow2_120()
    ensures
        pow2(120) == 0x100_0000_0000_0000_0000_0000_0000_0000,
{
    lemma2_to64();
    lemma2_to64_rest();
    lemma_pow2_adds(60, 60);
    assert(0x1000_0000_0000_0000int * 0x1000_0000_0000_0000int
        == 0x100_0000_0000_0000_0000_0000_0000_0000int) by (nonlinear_arith);
}

/// How many bits a number has.
fn bit_length(m: u128) -> (n: u32)
    requires
        0 < m < 0x100_0000_0000_0000_0000_0000_0000_0000,
    ensures
        1 <= n <= 120,
        pow2((n - 1) as nat) <= m < pow2(n as nat),
{
    let mut n: u32 = 1;
    let mut p: u128 = 2;
    proof {
        lemma2_to64();
        lemma_pow2_120();
    }
    while p <= m
        invariant
            0 < m < 0x100_0000_0000_0000_0000_0000_0000_0000,
            pow2(120) == 0x100_0000_0000_0000_0000_0000_0000_0000,
            1 <= n <= 120,
            p == pow2(n as nat),
            pow2((n - 1) as nat) <= m,
        decreases 120 - n,
    {
        proof {
            if n == 120 {
                assert(false);
            }
            lemma_pow2_unfold((n + 1) as nat);
        }
        p = 2 * p;
        n = n + 1;
    }
    n
}

/// Rounding where nothing is cut off: `m` is shifted up by `s` bits.
proof fn lemma_shifted(
    num: int,
    den: int,
    m: int,
    up: nat,
    dn: nat,
    s: nat,
    e: nat,
    q: int,
)
    requires
        den > 0,
        holds_at(num, den, m, up, dn, false),
        up == e + dn + s,
        q == m * pow2(s),
    ensures
        num == q * pow2(e) * den,
{
    let u = pow2(up) as int;
    let d = pow2(dn) as int;
    let f = pow2(e) as int;
    let n = pow2(s) as int;
    lemma_pow2_pos(dn);
    lemma_pow2_adds(e, dn);
    lemma_pow2_adds((e + dn) as nat, s);
    assert(u == f * d * n);
    assert((q * f * den) * d == num * d) by (nonlinear_arith)
        requires
            m * (u * den) == num * d,
            u == f * d * n,
            q == m * n,
    ;
    let t = q * f * den;
    assert(t == num) by (nonlinear_arith)
        requires
            t * d == num * d,
            d > 0,
    ;
}

/// Rounding to zero: the value is less than half a unit.
proof fn lemma_vanishes(num: int, den: int, m: int, up: nat, dn: nat, sticky: bool, l: nat)
    requires
        den > 0,
        num >= 0,
        holds_at(num, den, m, up, dn, sticky),
        m < pow2(l),
        up + l < dn,
    ensures
        nearest(num, den, 0),
{
    let u = pow2(up) as int;
    let d = pow2(dn) as int;
    let p = pow2(l) as int;
    let r = (dn - up - l) as nat;
    lemma_pow2_adds(up, l);
    lemma_pow2_adds((up + l) as nat, r);
    lemma_pow2_unfold(r);
    lemma_pow2_pos((r - 1) as nat);
    lemma_pow2_pos(l);
    lemma_pow2_pos(up);
    lemma_pow2_pos(dn);
    let g = pow2(r) as int;
    assert(d == u * p * g);
    assert(g >= 2);
    assert((m + 1) * (u * den) <= p * (u * den)) by (nonlinear_arith)
        requires
            m + 1 <= p,
            u > 0,
            den > 0,
    ;
    assert(2 * (p * (u * den)) <= d * den) by (nonlinear_arith)
        requires
            d == u * p * g,
            g >= 2,
            u > 0,
            p > 0,
            den > 0,
    ;
    assert(2 * num < den) by (nonlinear_arith)
        requires
            num * d < p * (u * den),
            2 * (p * (u * den)) <= d * den,
            d > 0,
    ;
    assert(units(0) == 0 && units(1) == 1);
    assert((units(0) + units(1)) * den == den);
}

/// The double nearest to `m * 2^e` units, or to what lies between that and
/// `(m + 1) * 2^e` where `sticky` is set. The fraction `num / den` is that
/// value, and `e` is `up - dn`.
fn round(
    m: u128,
    e: i64,
    sticky: bool,
    Ghost(num): Ghost<int>,
    Ghost(den): Ghost<int>,
    Ghost(up): Ghost<nat>,
    Ghost(dn): Ghost<nat>,
) -> (b: u64)
    requires
        m < 0x100_0000_0000_0000_0000_0000_0000_0000,
        sticky ==> m >= 0x40_0000_0000_0000,
        e == up - dn,
        up <= 10000,
        dn <= 10000,
        den > 0,
        num >= 0,
        holds_at(num, den, m as int, up, dn, sticky),
    ensures
        b == rounded(num, den),
        nearest(num, den, b as int),
{
    proof {
        lemma2_to64();
        lemma2_to64_rest();
        lemma_pow2_pos(dn);
    }
    if m == 0 {
        proof {
            let d = pow2(dn) as int;
            let c = pow2(up) * den;
            assert(m * c == 0) by (nonlinear_arith)
                requires
                    m == 0,
            ;
            assert(units(0) == 0);
            assert(0 * den == 0) by (nonlinear_arith);
            assert(num == 0) by (nonlinear_arith)
                requires
                    num * d == 0,
                    d > 0,
            ;
            doubles_are_exact(num, den, 0);
        }
        return 0;
    }
    let l: u32 = bit_length(m);
    let least: i64 = l as i64 - 53;
    let s: i64 = if least > 0 - e {
        least
    } else {
        0 - e
    };
    let e2: i64 = e + s;
    if s <= 0 {
        let by: u32 = (0 - s) as u32;
        let p: u128 = power(by);
        proof {
            assert(m < 0x20_0000_0000_0000) by {
                if l < 53 {
                    lemma_pow2_strictly_increases(l as nat, 53);
                }
            }
            assert(!sticky);
            lemma_pow2_adds(l as nat, by as nat);
            lemma_pow2_adds((l - 1) as nat, by as nat);
            if l + by < 53 {
                lemma_pow2_strictly_increases((l + by) as nat, 53);
            }
            let top = pow2(l as nat) as int;
            let low = pow2((l - 1) as nat) as int;
            assert(low * p <= m * p < top * p) by (nonlinear_arith)
                requires
                    low <= m < top,
                    p > 0,
            ;
            lemma_shifted(num, den, m as int, up, dn, by as nat, e2 as nat, m * p);
        }
        let q: u64 = (m * p) as u64;
        proof {
            if s == least {
                assert(l - 1 + by == 52);
            }
        }
        if e2 > 2045 {
            proof {
                lemma_overflow(num, den, q as int, e2 as nat);
                nearest_is_unique(num, den, INFINITY);
            }
            return INFINITY;
        }
        let b: u64 = e2 as u64 * BINADE + q;
        proof {
            lemma_units_at(e2 as nat, q as int);
            doubles_are_exact(num, den, b);
        }
        return b;
    }
    if s > l as i64 {
        proof {
            lemma_vanishes(num, den, m as int, up, dn, sticky, l as nat);
            nearest_is_unique(num, den, 0);
        }
        return 0;
    }
    let p: u128 = power(s as u32);
    proof {
        lemma_pow2_pos(s as nat);
        lemma_pow2_unfold(s as nat);
    }
    let wide: u128 = m / p;
    let rest: u128 = m % p;
    proof {
        let pi = p as int;
        let mi = m as int;
        vstd::arithmetic::div_mod::lemma_fundamental_div_mod(mi, pi);
        assert(pi * (mi / pi) == (mi / pi) * pi) by (nonlinear_arith);
        // At most 53 bits stay, and where the exponent is not the least, all 53.
        lemma_pow2_adds(s as nat, 53);
        lemma_pow2_adds(s as nat, 52);
        if l < s + 53 {
            lemma_pow2_strictly_increases(l as nat, (s + 53) as nat);
        }
        assert(wide < 0x20_0000_0000_0000) by (nonlinear_arith)
            requires
                wide * pi <= mi,
                mi < pi * 0x20_0000_0000_0000,
                pi > 0,
        ;
        if s == least {
            assert(pow2((l - 1) as nat) == pi * 0x10_0000_0000_0000);
            assert(wide >= 0x10_0000_0000_0000) by (nonlinear_arith)
                requires
                    mi >= pi * 0x10_0000_0000_0000,
                    mi < wide * pi + pi,
                    pi > 0,
            ;
        }
    }
    let q: u64 = wide as u64;
    if e2 > 2045 {
        proof {
            let c = pow2(up) * den;
            let f = pow2(e2 as nat) as int;
            let d = pow2(dn) as int;
            let u = pow2(up) as int;
            lemma_pow2_pos(up);
            lemma_pow2_adds(up, s as nat);
            lemma_pow2_adds(e2 as nat, dn);
            assert(u * p == f * d);
            assert(f * d * den == p * c) by (nonlinear_arith)
                requires
                    u * p == f * d,
                    c == u * den,
            ;
            assert((q * p) * c <= num * d) by (nonlinear_arith)
                requires
                    m * c <= num * d,
                    q * p <= m,
                    c == u * den,
                    u > 0,
                    den > 0,
            ;
            lemma_scaled_back(num, den, q as int, p as int, c, d, f);
            lemma_overflow(num, den, q as int, e2 as nat);
            nearest_is_unique(num, den, INFINITY);
        }
        return INFINITY;
    }
    let h: u128 = p / 2;
    let over: bool = rest > h || rest == h && (sticky || q % 2 == 1);
    proof {
        lemma_cut(
            num,
            den,
            m as int,
            up,
            dn,
            sticky,
            s as nat,
            e2 as nat,
            q as int,
            rest as int,
        );
    }
    let b: u64 = e2 as u64 * BINADE + q + if over {
        1
    } else {
        0
    };
    proof {
        nearest_is_unique(num, den, b);
    }
    b
}

// ---------------------------------------------------------------------------
// The operations
// ---------------------------------------------------------------------------

/// A finite double as a significand and an exponent.
struct Parts {
    m: u64,
    e: u32,
}

impl Parts {
    spec fn stand_for(self, b: u64) -> bool {
        &&& units(b as int) == self.m * pow2(self.e as nat)
        &&& self.m == 0 <==> b == 0
    }

    spec fn valid(self) -> bool {
        &&& self.m < 0x20_0000_0000_0000
        &&& self.e <= 2045
        &&& self.e > 0 ==> self.m >= 0x10_0000_0000_0000
    }
}

fn parts(b: u64) -> (p: Parts)
    requires
        b < INFINITY,
    ensures
        p.stand_for(b),
        p.valid(),
{
    proof {
        lemma2_to64();
    }
    if b < BINADE {
        assert(units(b as int) == b);
        assert(b * pow2(0) == b);
        Parts { m: b, e: 0 }
    } else {
        let field: u64 = b / BINADE;
        assert(1 <= field <= 2046);
        assert(units(b as int) == (0x10_0000_0000_0000 + b % BINADE) * pow2((field - 1) as nat));
        Parts { m: BINADE + b % BINADE, e: (field - 1) as u32 }
    }
}

/// The double nearest to a whole number.
pub fn from_whole(x: u64) -> (b: u64)
    ensures
        b == whole(x as int),
        nearest(x * pow2(1074), 1, b as int),
{
    proof {
        lemma2_to64();
        lemma_pow2_pos(1074);
        let p = pow2(1074) as int;
        assert(x * p >= 0) by (nonlinear_arith)
            requires
                p > 0,
                x >= 0,
        ;
        assert(x * (p * 1) == x * p);
        assert(x * p < (x + 1) * p) by (nonlinear_arith)
            requires
                p > 0,
        ;
    }
    round(
        x as u128,
        1074,
        false,
        Ghost(x * pow2(1074)),
        Ghost(1),
        Ghost(1074),
        Ghost(0),
    )
}

/// The double nearest to the product of two.
pub fn multiply(a: u64, b: u64) -> (r: u64)
    requires
        a < INFINITY,
        b < INFINITY,
    ensures
        r == product(a, b),
        nearest(units(a as int) * units(b as int), pow2(1074) as int, r as int),
{
    let x: Parts = parts(a);
    let y: Parts = parts(b);
    proof {
        assert(x.m * y.m < 0x400_0000_0000_0000_0000_0000_0000) by (nonlinear_arith)
            requires
                0 <= x.m < 0x20_0000_0000_0000,
                0 <= y.m < 0x20_0000_0000_0000,
        ;
    }
    let m: u128 = x.m as u128 * y.m as u128;
    let ghost up = (x.e + y.e) as nat;
    let ghost num = units(a as int) * units(b as int);
    proof {
        lemma_pow2_pos(1074);
        lemma_pow2_pos(up);
        lemma_pow2_adds(x.e as nat, y.e as nat);
        let u = pow2(up) as int;
        let d = pow2(1074) as int;
        let g = pow2(x.e as nat) as int;
        let h = pow2(y.e as nat) as int;
        assert(num == m * u) by (nonlinear_arith)
            requires
                num == (x.m * g) * (y.m * h),
                m == x.m * y.m,
                u == g * h,
        ;
        assert(m * (u * d) == num * d) by (nonlinear_arith)
            requires
                num == m * u,
        ;
        assert((m + 1) * (u * d) > num * d) by (nonlinear_arith)
            requires
                num == m * u,
                u > 0,
                d > 0,
        ;
        assert(num >= 0) by (nonlinear_arith)
            requires
                num == m * u,
                m >= 0,
                u > 0,
        ;
    }
    round(
        m,
        x.e as i64 + y.e as i64 - 1074,
        false,
        Ghost(num),
        Ghost(pow2(1074) as int),
        Ghost(up),
        Ghost(1074),
    )
}

/// A significand shifted up to its full width, and by how many bits.
fn lifted(m: u64) -> (r: (u64, u32))
    requires
        m < 0x20_0000_0000_0000,
    ensures
        r.0 == m * pow2(r.1 as nat),
        r.0 < 0x20_0000_0000_0000,
        r.1 <= 64,
        m > 0 ==> r.0 >= 0x10_0000_0000_0000,
{
    proof {
        lemma2_to64();
        lemma2_to64_rest();
    }
    if m == 0 {
        return (0, 0);
    }
    let mut top: u64 = m;
    let mut j: u32 = 0;
    while top < BINADE
        invariant
            0 < m <= top < 0x20_0000_0000_0000,
            top == m * pow2(j as nat),
            j <= 53,
            pow2(53) == 0x20_0000_0000_0000,
        decreases 0x20_0000_0000_0000 - top,
    {
        proof {
            lemma_pow2_unfold((j + 1) as nat);
            let a = pow2(j as nat) as int;
            assert(2 * top == m * (2 * a)) by (nonlinear_arith)
                requires
                    top == m * a,
            ;
            if j == 53 {
                assert(m * a >= a) by (nonlinear_arith)
                    requires
                        m >= 1,
                        a >= 0,
                ;
            }
        }
        top = 2 * top;
        j = j + 1;
    }
    (top, j)
}

/// The double nearest to the quotient of two.
pub fn divide(a: u64, b: u64) -> (r: u64)
    requires
        a < INFINITY,
        0 < b < INFINITY,
    ensures
        r == quotient(a, b),
        nearest(units(a as int) * pow2(1074), units(b as int), r as int),
{
    let x: Parts = parts(a);
    let y: Parts = parts(b);
    let (top, j): (u64, u32) = lifted(x.m);
    let p: u128 = power(66);
    proof {
        lemma2_to64();
        lemma_pow2_adds(60, 6);
        lemma2_to64_rest();
        assert(top * p < 0x100_0000_0000_0000_0000_0000_0000_0000) by (nonlinear_arith)
            requires
                0 <= top < 0x20_0000_0000_0000,
                p == 0x4_0000_0000_0000_0000,
        ;
    }
    let t: u128 = top as u128 * p;
    let n: u128 = y.m as u128;
    let m: u128 = t / n;
    let sticky: bool = t % n != 0;
    let ghost up = (x.e + 1074) as nat;
    let ghost dn = (y.e + 66 + j) as nat;
    let ghost num = units(a as int) * pow2(1074);
    let ghost den = units(b as int);
    proof {
        let ni = n as int;
        let ti = t as int;
        vstd::arithmetic::div_mod::lemma_fundamental_div_mod(ti, ni);
        assert(ni * (ti / ni) == (ti / ni) * ni) by (nonlinear_arith);
        assert(m <= t) by (nonlinear_arith)
            requires
                m * ni <= t,
                ni >= 1,
                m >= 0,
        ;
        if a > 0 {
            assert(m >= 0x40_0000_0000_0000) by (nonlinear_arith)
                requires
                    t == top * p,
                    p == 0x4_0000_0000_0000_0000,
                    top >= 0x10_0000_0000_0000,
                    t < m * ni + ni,
                    0 < ni < 0x20_0000_0000_0000,
            ;
        } else {
            assert(top == 0);
            assert(t == 0);
            assert(!sticky) by {
                vstd::arithmetic::div_mod::lemma_small_mod(0, n as nat);
            }
        }
        lemma_pow2_pos(x.e as nat);
        lemma_pow2_pos(y.e as nat);
        lemma_pow2_pos(up);
        lemma_pow2_pos(1074);
        lemma_pow2_adds(x.e as nat, 1074);
        lemma_pow2_adds(y.e as nat, 66);
        lemma_pow2_adds((y.e + 66) as nat, j as nat);
        let u = pow2(up) as int;
        let v = pow2(y.e as nat) as int;
        let d = pow2(dn) as int;
        let g = pow2(x.e as nat) as int;
        let k = pow2(1074) as int;
        let pi = p as int;
        let l = pow2(j as nat) as int;
        assert(num * d == (u * v) * ti) by (nonlinear_arith)
            requires
                num == (x.m * g) * k,
                u == g * k,
                d == v * pi * l,
                ti == (x.m * l) * pi,
        ;
        assert(m * (u * den) == (u * v) * (m * ni)) by (nonlinear_arith)
            requires
                den == ni * v,
        ;
        assert((m + 1) * (u * den) == (u * v) * (m * ni + ni)) by (nonlinear_arith)
            requires
                den == ni * v,
        ;
        let c = u * v;
        assert(c > 0) by (nonlinear_arith)
            requires
                c == u * v,
                u > 0,
                v > 0,
        ;
        let lo = m * ni;
        assert(c * lo <= c * ti) by (nonlinear_arith)
            requires
                lo <= ti,
                c > 0,
        ;
        assert(c * ti < c * (lo + ni)) by (nonlinear_arith)
            requires
                ti < lo + ni,
                c > 0,
        ;
        if sticky {
            assert(c * lo < c * ti) by (nonlinear_arith)
                requires
                    lo < ti,
                    c > 0,
            ;
        }
        assert(den > 0) by (nonlinear_arith)
            requires
                den == ni * v,
                ni > 0,
                v > 0,
        ;
        assert(num >= 0) by (nonlinear_arith)
            requires
                num == (x.m * g) * k,
                x.m >= 0,
                g > 0,
                k > 0,
        ;
    }
    round(
        m,
        x.e as i64 - y.e as i64 - j as i64 + 1008,
        sticky,
        Ghost(num),
        Ghost(den),
        Ghost(up),
        Ghost(dn),
    )
}

/// Two significands on one scale: what the second stands for lies at `low` or,
/// where `sticky` is set, between that and the next.
struct Aligned {
    top: u128,
    low: u128,
    sticky: bool,
    e: u32,
}

impl Aligned {
    spec fn aligns(self, x: Parts, y: Parts) -> bool {
        let u = pow2(self.e as nat);
        let yu = y.m * pow2(y.e as nat);
        &&& self.e <= 2045
        &&& self.top <= 0x20_0000_0000_0000 * 0x1_0000_0000_0000_0000
        &&& self.low < 0x20_0000_0000_0000
        &&& self.sticky ==> self.top >= 0x10_0000_0000_0000 * 0x1_0000_0000_0000_0000
        &&& x.m * pow2(x.e as nat) == self.top * u
        &&& self.low * u <= yu < self.low * u + u
        &&& self.sticky == (self.low * u != yu)
    }
}

fn align(x: &Parts, y: &Parts) -> (r: Aligned)
    requires
        x.valid(),
        y.valid(),
        x.e >= y.e,
    ensures
        r.aligns(*x, *y),
{
    let apart: u32 = x.e - y.e;
    let near: u32 = if apart < 64 {
        apart
    } else {
        64
    };
    let p: u128 = power(near);
    proof {
        lemma2_to64();
        lemma2_to64_rest();
        if near < 64 {
            lemma_pow2_strictly_increases(near as nat, 64);
        }
        lemma_pow2_pos(near as nat);
        assert(0 <= x.m * p <= 0x20_0000_0000_0000 * 0x1_0000_0000_0000_0000) by (nonlinear_arith)
            requires
                0 <= x.m < 0x20_0000_0000_0000,
                0 < p <= 0x1_0000_0000_0000_0000,
        ;
    }
    let far: u32 = apart - near;
    let cut: u32 = if far < 60 {
        far
    } else {
        60
    };
    let n: u128 = power(cut);
    let low: u128 = y.m as u128 / n;
    let sticky: bool = y.m as u128 % n != 0;
    proof {
        let ni = n as int;
        let yi = y.m as int;
        lemma_pow2_pos(cut as nat);
        vstd::arithmetic::div_mod::lemma_fundamental_div_mod(yi, ni);
        assert(ni * (yi / ni) == (yi / ni) * ni) by (nonlinear_arith);
        assert(low <= yi) by (nonlinear_arith)
            requires
                low * ni <= yi,
                ni >= 1,
                low >= 0,
        ;
        let up = (y.e + far) as nat;
        let v = pow2(y.e as nat) as int;
        let g = pow2(far as nat) as int;
        let u = pow2(up) as int;
        lemma_pow2_pos(y.e as nat);
        lemma_pow2_pos(far as nat);
        lemma_pow2_adds(y.e as nat, far as nat);
        lemma_pow2_adds(up, near as nat);
        assert(up + near == x.e);
        if far > 60 {
            lemma_pow2_strictly_increases(60, far as nat);
            assert(low == 0) by {
                assert(yi < ni);
                vstd::arithmetic::div_mod::lemma_basic_div(yi, ni);
            }
        }
        assert(low * g <= yi < (low + 1) * g && (sticky == (low * g != yi))) by {
            if far <= 60 {
                assert(g == ni);
                assert((low + 1) * ni == low * ni + ni) by (nonlinear_arith);
            } else {
                assert(low * g == 0) by (nonlinear_arith)
                    requires
                        low == 0,
                ;
                assert(sticky == (yi != 0)) by {
                    vstd::arithmetic::div_mod::lemma_small_mod(yi as nat, ni as nat);
                }
            }
        }
        let xu = x.m * pow2(x.e as nat);
        let yu = yi * v;
        let pi = p as int;
        assert(xu == (x.m * pi) * u) by (nonlinear_arith)
            requires
                xu == x.m * (u * pi),
        ;
        assert(low * u <= yu) by (nonlinear_arith)
            requires
                low * g <= yi,
                u == v * g,
                yu == yi * v,
                v > 0,
        ;
        assert(yu < low * u + u) by (nonlinear_arith)
            requires
                yi < (low + 1) * g,
                u == v * g,
                yu == yi * v,
                v > 0,
        ;
        if sticky {
            assert(low * u != yu) by (nonlinear_arith)
                requires
                    low * g < yi,
                    u == v * g,
                    yu == yi * v,
                    v > 0,
            ;
            assert(far > 0) by {
                if far == 0 {
                    assert(g == 1);
                }
            }
            assert(x.m * p >= 0x10_0000_0000_0000 * 0x1_0000_0000_0000_0000) by (nonlinear_arith)
                requires
                    x.m >= 0x10_0000_0000_0000,
                    p == 0x1_0000_0000_0000_0000,
            ;
        } else {
            assert(low * u == yu) by (nonlinear_arith)
                requires
                    low * g == yi,
                    u == v * g,
                    yu == yi * v,
            ;
        }
    }
    Aligned { top: x.m as u128 * p, low, sticky, e: y.e + far }
}

/// The double nearest to the sum of two.
pub fn plus(a: u64, b: u64) -> (r: u64)
    requires
        a < INFINITY,
        b < INFINITY,
    ensures
        r == sum(a, b),
        nearest(units(a as int) + units(b as int), 1, r as int),
{
    let x: Parts = parts(a);
    let y: Parts = parts(b);
    let ghost num = units(a as int) + units(b as int);
    let s: Aligned = if x.e >= y.e {
        align(&x, &y)
    } else {
        align(&y, &x)
    };
    let m: u128 = s.top + s.low;
    proof {
        let u = pow2(s.e as nat) as int;
        lemma2_to64();
        lemma_next(a as int);
        lemma_next(b as int);
        assert(m * u == s.top * u + s.low * u) by (nonlinear_arith)
            requires
                m == s.top + s.low,
        ;
        assert((m + 1) * u == m * u + u) by (nonlinear_arith);
        assert(u * 1 == u);
        assert(num * pow2(0) == num);
    }
    round(m, s.e as i64, s.sticky, Ghost(num), Ghost(1), Ghost(s.e as nat), Ghost(0))
}

proof fn lemma_exponents(a: u64, b: u64, x: Parts, y: Parts)
    requires
        b <= a,
        x.stand_for(a),
        y.stand_for(b),
        x.valid(),
        y.valid(),
    ensures
        x.e >= y.e,
        y.m * pow2(y.e as nat) <= x.m * pow2(x.e as nat),
{
    if b < a {
        patterns_are_ordered(b as int, a as int);
    }
    if x.e < y.e {
        let p = pow2(x.e as nat) as int;
        let q = pow2(y.e as nat) as int;
        let d = (y.e - x.e) as nat;
        lemma_pow2_adds(x.e as nat, d);
        lemma_pow2_unfold(d);
        lemma_pow2_pos((d - 1) as nat);
        lemma_pow2_pos(x.e as nat);
        let k = pow2(d) as int;
        assert(k >= 2);
        assert(y.m * q > x.m * p) by (nonlinear_arith)
            requires
                q == p * k,
                k >= 2,
                p > 0,
                y.m >= 0x10_0000_0000_0000,
                x.m < 0x20_0000_0000_0000,
        ;
    }
}

/// The double nearest to the difference of two, the first of which is not the
/// smaller.
pub fn minus(a: u64, b: u64) -> (r: u64)
    requires
        b <= a < INFINITY,
    ensures
        r == difference(a, b),
        nearest(units(a as int) - units(b as int), 1, r as int),
{
    let x: Parts = parts(a);
    let y: Parts = parts(b);
    let ghost num = units(a as int) - units(b as int);
    proof {
        lemma_exponents(a, b, x, y);
    }
    let s: Aligned = align(&x, &y);
    let ghost u = pow2(s.e as nat) as int;
    proof {
        lemma2_to64();
        lemma_pow2_pos(s.e as nat);
        assert(s.low <= s.top) by {
            if s.low > s.top {
                assert(s.low * u >= s.top * u + u) by (nonlinear_arith)
                    requires
                        s.low >= s.top + 1,
                        u > 0,
                ;
            }
        }
    }
    // Of what lies between two steps the upper one is taken off; what that is
    // too much is less than a step.
    let taken: u128 = if s.sticky {
        s.low + 1
    } else {
        s.low
    };
    let m: u128 = s.top - taken;
    proof {
        assert(m * u == s.top * u - taken * u) by (nonlinear_arith)
            requires
                m == s.top - taken,
        ;
        assert((s.low + 1) * u == s.low * u + u) by (nonlinear_arith);
        assert((m + 1) * u == m * u + u) by (nonlinear_arith);
        assert(u * 1 == u);
        assert(num * pow2(0) == num);
    }
    round(m, s.e as i64, s.sticky, Ghost(num), Ghost(1), Ghost(s.e as nat), Ghost(0))
}

// ---------------------------------------------------------------------------
// Whole numbers
// ---------------------------------------------------------------------------

/// The pattern of 1.
pub const ONE: u64 = 0x3FF0_0000_0000_0000;

/// The pattern of 2.
pub const TWO: u64 = 0x4000_0000_0000_0000;

/// The pattern of 2^-53.
pub const TWO_TO_MINUS_53: u64 = 0x3CA0_0000_0000_0000;

/// The pattern of 2^64.
pub const TWO_TO_64: u64 = 0x43F0_0000_0000_0000;

/// How near a rounded double is: it is off by at most a 2^52nd part.
pub proof fn rounding_is_close(num: int, den: int, r: u64)
    requires
        den > 0,
        BINADE <= r < INFINITY,
        nearest(num, den, r as int),
    ensures
        (units(r as int) * den - num) * 0x10_0000_0000_0000 <= num,
        (num - units(r as int) * den) * 0x10_0000_0000_0000 <= num,
{
    let w = 0x10_0000_0000_0000int;
    let e = (r / BINADE - 1) as nat;
    let f = (r % BINADE) as int;
    let p = pow2(e) as int;
    let u = units(r as int);
    lemma2_to64();
    lemma_pow2_pos(e);
    lemma_units_at(e, w + f);
    lemma_units_at(e, w + f + 1);
    assert(e * w + (w + f) == r);
    assert(e * w + (w + f + 1) == r + 1);
    assert((w + f + 1) * p == (w + f) * p + p) by (nonlinear_arith);
    let below = units(r - 1);
    assert(u - below <= p) by {
        if f > 0 || e == 0 {
            lemma_units_at(e, w + f - 1);
            assert(e * w + (w + f - 1) == r - 1);
            assert((w + f - 1) * p == (w + f) * p - p) by (nonlinear_arith);
        } else {
            let d = (e - 1) as nat;
            lemma_units_at(d, 2 * w - 1);
            assert(d * w + (2 * w - 1) == r - 1);
            lemma_pow2_unfold(e);
            lemma_pow2_pos(d);
            let h = pow2(d) as int;
            assert(w * (2 * h) - (2 * w - 1) * h == h) by (nonlinear_arith);
        }
    }
    let g = p * den;
    let x = u * den;
    assert((u + units(r + 1)) * den == 2 * x + g) by (nonlinear_arith)
        requires
            units(r + 1) == u + p,
            g == p * den,
            x == u * den,
    ;
    assert((below + u) * den >= 2 * x - g) by (nonlinear_arith)
        requires
            u - below <= p,
            g == p * den,
            x == u * den,
            den > 0,
    ;
    assert(x >= w * g) by (nonlinear_arith)
        requires
            x == ((w + f) * p) * den,
            g == p * den,
            f >= 0,
            p > 0,
            den > 0,
    ;
}

/// The nanoseconds in so many seconds, a double: the nearest whole number, the
/// even one of two; held to 64 bits.
pub open spec fn nanos_of(b: u64) -> u64 {
    let t = pow2(1074) as int;
    let x = 1_000_000_000 * units(b as int);
    let n = x / t;
    let rest = x % t;
    let nearest = if 2 * rest > t || 2 * rest == t && n % 2 == 1 {
        n + 1
    } else {
        n
    };
    if nearest > u64::MAX {
        u64::MAX
    } else {
        nearest as u64
    }
}

proof fn lemma_scale_down(w: int, f: int, k: int)
    requires
        w >= 0,
        f > 0,
        k > 0,
    ensures
        (w * f) / (f * k) == w / k,
        (w * f) % (f * k) == (w % k) * f,
{
    let q = w / k;
    let r = w % k;
    vstd::arithmetic::div_mod::lemma_fundamental_div_mod(w, k);
    assert(w * f == q * (f * k) + r * f) by (nonlinear_arith)
        requires
            w == k * q + r,
    ;
    assert(0 <= r * f < f * k) by (nonlinear_arith)
        requires
            0 <= r < k,
            f > 0,
    ;
    assert(f * k > 0) by (nonlinear_arith)
        requires
            f > 0,
            k > 0,
    ;
    vstd::arithmetic::div_mod::lemma_fundamental_div_mod_converse(w * f, f * k, q, r * f);
}

/// The nanoseconds in so many seconds, a double: the nearest whole number, the
/// even one of two; held to 64 bits.
pub fn to_nanos(b: u64) -> (ns: u64)
    requires
        b < INFINITY,
    ensures
        ns == nanos_of(b),
{
    let y: Parts = parts(b);
    let w: u128 = y.m as u128 * 1_000_000_000;
    let ghost t = pow2(1074) as int;
    let ghost f = pow2(y.e as nat) as int;
    let ghost wi = w as int;
    proof {
        lemma2_to64();
        lemma2_to64_rest();
        lemma_pow2_pos(1074);
        lemma_pow2_pos(y.e as nat);
        assert(1_000_000_000 * (y.m * f) == wi * f) by (nonlinear_arith)
            requires
                wi == y.m * 1_000_000_000,
        ;
    }
    if y.e >= 1074 {
        let d: u32 = y.e - 1074;
        let ghost g = pow2(d as nat) as int;
        proof {
            lemma_pow2_adds(d as nat, 1074);
            lemma_pow2_pos(d as nat);
            assert(wi * f == (wi * g) * t + 0) by (nonlinear_arith)
                requires
                    f == g * t,
            ;
            vstd::arithmetic::div_mod::lemma_fundamental_div_mod_converse(wi * f, t, wi * g, 0);
        }
        if d > 30 {
            proof {
                lemma_pow2_strictly_increases(30, d as nat);
                assert(wi * g > u64::MAX) by (nonlinear_arith)
                    requires
                        wi >= 0x10_0000_0000_0000 * 1_000_000_000,
                        g > 0x4000_0000,
                ;
            }
            return u64::MAX;
        }
        let p: u128 = power(d);
        proof {
            if d < 30 {
                lemma_pow2_strictly_increases(d as nat, 30);
            }
            assert(0 <= wi * g <= 0x20_0000_0000_0000 * 1_000_000_000 * 0x4000_0000)
                by (nonlinear_arith)
                requires
                    0 <= wi <= 0x20_0000_0000_0000 * 1_000_000_000,
                    0 < g <= 0x4000_0000,
            ;
        }
        let wide: u128 = w * p;
        return if wide > u64::MAX as u128 {
            u64::MAX
        } else {
            wide as u64
        };
    }
    let k: u32 = 1074 - y.e;
    let ghost g = pow2(k as nat) as int;
    proof {
        lemma_pow2_adds(y.e as nat, k as nat);
        lemma_pow2_pos(k as nat);
        lemma_scale_down(wi, f, g);
        assert(t == f * g);
        lemma_pow2_adds(50, 50);
    }
    if k > 100 {
        proof {
            lemma_pow2_strictly_increases(100, k as nat);
            assert(2 * wi < g);
            vstd::arithmetic::div_mod::lemma_basic_div(wi, g);
            vstd::arithmetic::div_mod::lemma_small_mod(wi as nat, g as nat);
            assert(2 * (wi * f) < f * g) by (nonlinear_arith)
                requires
                    2 * wi < g,
                    f > 0,
            ;
        }
        return 0;
    }
    let p: u128 = power(k);
    proof {
        if k < 100 {
            lemma_pow2_strictly_increases(k as nat, 100);
        }
    }
    let n: u128 = w / p;
    let rest: u128 = w % p;
    let over: bool = 2 * rest > p || 2 * rest == p && n % 2 == 1;
    proof {
        let r = rest as int;
        assert((2 * r > g) == (2 * (r * f) > f * g)) by (nonlinear_arith)
            requires
                f > 0,
        ;
        assert((2 * r == g) == (2 * (r * f) == f * g)) by (nonlinear_arith)
            requires
                f > 0,
        ;
        assert(n <= w) by (nonlinear_arith)
            requires
                n == wi / g,
                g >= 1,
                wi >= 0,
                w == wi,
        ;
    }
    let near: u128 = if over {
        n + 1
    } else {
        n
    };
    if near > u64::MAX as u128 {
        u64::MAX
    } else {
        near as u64
    }
}

/// A longer time has no fewer nanoseconds.
pub proof fn nanos_are_ordered(a: u64, b: u64)
    requires
        a <= b,
    ensures
        nanos_of(a) <= nanos_of(b),
{
    let t = pow2(1074) as int;
    lemma_pow2_pos(1074);
    if a < b {
        patterns_are_ordered(a as int, b as int);
    }
    lemma_next(a as int);
    let x = 1_000_000_000 * units(a as int);
    let y = 1_000_000_000 * units(b as int);
    vstd::arithmetic::div_mod::lemma_div_is_ordered(x, y, t);
    vstd::arithmetic::div_mod::lemma_div_pos_is_pos(x, t);
    vstd::arithmetic::div_mod::lemma_fundamental_div_mod(x, t);
    vstd::arithmetic::div_mod::lemma_fundamental_div_mod(y, t);
}

/// A time that is less than half a nanosecond off has the right number of them.
pub proof fn nanos_are_near(b: u64, n: u64)
    requires
        b < INFINITY,
        2 * (1_000_000_000 * units(b as int) - n * pow2(1074)) < pow2(1074),
        2 * (n * pow2(1074) - 1_000_000_000 * units(b as int)) < pow2(1074),
    ensures
        nanos_of(b) == n,
{
    let t = pow2(1074) as int;
    let x = 1_000_000_000 * units(b as int);
    lemma_pow2_pos(1074);
    lemma_next(b as int);
    let ni = n as int;
    if x >= ni * t {
        vstd::arithmetic::div_mod::lemma_fundamental_div_mod_converse(x, t, ni, x - ni * t);
    } else {
        assert((ni - 1) * t == ni * t - t) by (nonlinear_arith);
        vstd::arithmetic::div_mod::lemma_fundamental_div_mod_converse(
            x,
            t,
            ni - 1,
            x - (ni - 1) * t,
        );
    }
}

/// The double nearest to a 64-bit number is finite.
pub proof fn wholes_are_finite(x: u64, b: u64)
    requires
        nearest(x * pow2(1074), 1, b as int),
    ensures
        b <= TWO_TO_64 < INFINITY,
        b == whole(x as int),
{
    let t = pow2(1074) as int;
    lemma2_to64();
    lemma2_to64_rest();
    lemma_pow2_pos(1074);
    lemma_pow2_adds(64, 1074);
    lemma_pow2_adds(52, 1086);
    assert(units(TWO_TO_64 as int) == 0x10_0000_0000_0000 * pow2(1086)) by {
        lemma_units_at(1086, 0x10_0000_0000_0000);
    }
    assert(x * t <= 0x1_0000_0000_0000_0000 * t) by (nonlinear_arith)
        requires
            x <= 0x1_0000_0000_0000_0000,
            t > 0,
    ;
    rounding_keeps_to_its_side(x * t, 1, b, TWO_TO_64);
    nearest_is_unique(x * t, 1, b);
}

/// A 64-bit number has a nearest double, which is finite.
pub proof fn nearest_exists(x: u64)
    ensures
        nearest(x * pow2(1074), 1, whole(x as int) as int),
        whole(x as int) <= TWO_TO_64 < INFINITY,
{
    rounded_is_nearest(x * pow2(1074), 1);
    wholes_are_finite(x, whole(x as int));
}

/// Two doubles have a product.
pub proof fn product_exists(a: u64, b: u64)
    ensures
        nearest(
            units(a as int) * units(b as int),
            pow2(1074) as int,
            product(a, b) as int,
        ),
{
    lemma_pow2_pos(1074);
    rounded_is_nearest(units(a as int) * units(b as int), pow2(1074) as int);
}

/// Whole numbers of up to 53 bits are doubles.
pub proof fn small_wholes_are_exact(x: u64)
    requires
        x < 0x20_0000_0000_0000,
    ensures
        units(whole(x as int) as int) == x * pow2(1074),
        whole(x as int) == double_of(x as nat),
        x > 0 ==> whole(x as int) >= BINADE,
{
    let t = pow2(1074) as int;
    if x == 0 {
        assert(units(0) == 0);
        doubles_are_exact(0, 1, 0);
    } else {
        whole_numbers_are_exact(x as nat);
        let b = double_of(x as nat);
        let k = halvings(b) as nat;
        let e = (b / 0x10_0000_0000_0000 - 1) as nat;
        assert(e + k == 1074);
        lemma_pow2_adds(k, e);
        let p = pow2(k) as int;
        let q = pow2(e) as int;
        assert(units(b) == (x * p) * q);
        assert((x * p) * q == x * (p * q)) by (nonlinear_arith);
        assert((x * t) == units(b) * 1);
        doubles_are_exact(x * t, 1, b as u64);
    }
}

/// Twice what a normal double stands for is a double too.
pub proof fn doubling_is_exact(b: u64)
    requires
        BINADE <= b,
        b + BINADE < INFINITY,
    ensures
        units(b + BINADE) == 2 * units(b as int),
        product(b, TWO) == b + BINADE,
{
    let w = 0x10_0000_0000_0000int;
    let e = (b / BINADE - 1) as nat;
    let f = (b % BINADE) as int;
    let t = pow2(1074) as int;
    lemma2_to64();
    lemma_pow2_pos(1074);
    lemma_units_at(e, w + f);
    lemma_units_at((e + 1) as nat, w + f);
    lemma_pow2_unfold((e + 1) as nat);
    let p = pow2(e) as int;
    assert((w + f) * (2 * p) == 2 * ((w + f) * p)) by (nonlinear_arith);
    assert((e + 1) * w + (w + f) == b + BINADE);
    assert(e * w + (w + f) == b);
    lemma_units_at(1023, w);
    lemma_pow2_adds(52, 1023);
    lemma2_to64_rest();
    lemma_pow2_unfold(1075);
    assert(units(TWO as int) == 2 * t);
    let u = units(b as int);
    assert(u * (2 * t) == units(b + BINADE) * t) by (nonlinear_arith)
        requires
            units(b + BINADE) == 2 * u,
    ;
    doubles_are_exact(u * units(TWO as int), t, (b + BINADE) as u64);
}

/// What a double of at least 1 makes of another is not less than that.
pub proof fn growth_does_not_shrink(a: u64, g: u64, r: u64)
    requires
        a < INFINITY,
        ONE <= g < INFINITY,
        nearest(units(a as int) * units(g as int), pow2(1074) as int, r as int),
    ensures
        a <= r,
{
    let t = pow2(1074) as int;
    lemma2_to64();
    lemma2_to64_rest();
    lemma_pow2_pos(1074);
    lemma_units_at(1022, 0x10_0000_0000_0000);
    lemma_pow2_adds(52, 1022);
    assert(units(ONE as int) == t);
    if ONE < g {
        patterns_are_ordered(ONE as int, g as int);
    }
    lemma_next(a as int);
    let u = units(a as int);
    let v = units(g as int);
    assert(u * v >= u * t) by (nonlinear_arith)
        requires
            u >= 0,
            v >= t,
    ;
    rounding_keeps_to_its_side(u * v, t, r, a);
}

} // verus!
