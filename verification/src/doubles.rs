//! IEEE-754 doubles by their bit patterns. AMF0 knows no other number; the
//! whole numbers that the protocols put in them are encoded here exactly.

use vstd::arithmetic::power2::{
    lemma2_to64, lemma2_to64_rest, lemma_pow2_adds, lemma_pow2_pos, lemma_pow2_unfold, pow2,
};
use vstd::prelude::*;

verus! {

/// The pattern of the double `m * 2^(e - 52)`, for `0 < m < 2^53`: `m` is
/// doubled until its top bit is the implicit one.
pub open spec fn scaled_pattern(m: nat, e: int) -> int
    decreases 0x20_0000_0000_0000 - m,
{
    if m == 0 || m >= 0x10_0000_0000_0000 {
        (1022 + e) * 0x10_0000_0000_0000 + m
    } else {
        scaled_pattern(2 * m, e - 1)
    }
}

/// The bit pattern of the double that equals the whole number `x`.
pub open spec fn double_of(x: nat) -> int {
    if x == 0 {
        0
    } else {
        scaled_pattern(x, 52)
    }
}

/// The significand of a normal double, implicit bit included.
pub open spec fn significand(bits: int) -> int {
    0x10_0000_0000_0000 + bits % 0x10_0000_0000_0000
}

/// How often the significand of a positive normal double is to be halved.
pub open spec fn halvings(bits: int) -> int {
    1075 - bits / 0x10_0000_0000_0000
}

proof fn lemma_scaled(m: nat, e: int, k: nat, x: nat)
    requires
        0 < m < 0x20_0000_0000_0000,
        m == x * pow2(k),
        e + k == 52,
        0 <= e <= 52,
        m < 0x10_0000_0000_0000 ==> e > 0,
        x >= 1,
    ensures
        ({
            let bits = scaled_pattern(m, e);
            &&& 0 < bits < 0x7FF0_0000_0000_0000
            &&& 0 <= halvings(bits) <= 52
            &&& significand(bits) == x * pow2(halvings(bits) as nat)
        }),
    decreases 0x20_0000_0000_0000 - m,
{
    let bits = scaled_pattern(m, e);
    if m >= 0x10_0000_0000_0000 {
        let low = m - 0x10_0000_0000_0000;
        assert(bits == (1023 + e) * 0x10_0000_0000_0000 + low);
        assert(bits / 0x10_0000_0000_0000 == 1023 + e);
        assert(bits % 0x10_0000_0000_0000 == low);
        assert(halvings(bits) == k);
    } else {
        lemma_pow2_unfold((k + 1) as nat);
        assert(2 * m == x * pow2((k + 1) as nat)) by (nonlinear_arith)
            requires
                m == x * pow2(k),
                pow2((k + 1) as nat) == 2 * pow2(k),
        ;
        if e == 1 {
            // k + 1 == 52, and x >= 1: the doubled number has its top bit.
            lemma2_to64_rest();
            assert(2 * m >= 0x10_0000_0000_0000) by (nonlinear_arith)
                requires
                    2 * m == x * pow2(52),
                    pow2(52) == 0x10_0000_0000_0000,
                    x >= 1,
            ;
        }
        lemma_scaled(2 * m, e - 1, k + 1, x);
    }
}

/// The pattern of a whole number below 2^53 stands for exactly that number:
/// halving the significand as often as the exponent says gives it back.
pub proof fn whole_numbers_are_exact(x: nat)
    requires
        0 < x < 0x20_0000_0000_0000,
    ensures
        0 < double_of(x) < 0x7FF0_0000_0000_0000,
        0 <= halvings(double_of(x)) <= 52,
        significand(double_of(x)) == x * pow2(halvings(double_of(x)) as nat),
{
    lemma2_to64();
    lemma_scaled(x, 52, 0, x);
}

/// The bit pattern of the double that equals `x`.
pub fn double_bits(x: u32) -> (bits: u64)
    ensures
        bits == double_of(x as nat),
{
    if x == 0 {
        return 0;
    }
    proof {
        whole_numbers_are_exact(x as nat);
    }
    let mut m: u64 = x as u64;
    let mut e: u64 = 52;
    proof {
        lemma2_to64();
    }
    let ghost mut k: nat = 0;
    while m < 0x10_0000_0000_0000
        invariant
            0 < x,
            0 < m < 0x20_0000_0000_0000,
            e <= 52,
            e + k == 52,
            m == x * pow2(k),
            m < 0x10_0000_0000_0000 ==> e > 0,
            scaled_pattern(m as nat, e as int) == double_of(x as nat),
        decreases 0x20_0000_0000_0000 - m,
    {
        proof {
            lemma_pow2_unfold((k + 1) as nat);
            assert(2 * m == x * pow2((k + 1) as nat)) by (nonlinear_arith)
                requires
                    m == x * pow2(k),
                    pow2((k + 1) as nat) == 2 * pow2(k),
            ;
            if e == 1 {
                lemma2_to64_rest();
                assert(2 * m >= 0x10_0000_0000_0000) by (nonlinear_arith)
                    requires
                        2 * m == x * pow2(52),
                        pow2(52) == 0x10_0000_0000_0000,
                        x >= 1,
                ;
            }
            k = k + 1;
        }
        m = 2 * m;
        e = e - 1;
    }
    (1022 + e) * 0x10_0000_0000_0000 + m
}

/// The exponent field of a double.
pub open spec fn exponent(bits: int) -> int {
    (bits / 0x10_0000_0000_0000) % 0x800
}

/// A double as an unsigned 32-bit number: its fraction is cut off, what is too
/// large (infinity too) becomes the largest. `None` below zero and for what is
/// not a number; minus zero counts as zero.
pub open spec fn unsigned_value(bits: int) -> Option<u32> {
    let e = exponent(bits);
    if bits == 0x8000_0000_0000_0000 {
        Some(0)
    } else if bits >= 0x8000_0000_0000_0000 || bits > 0x7FF0_0000_0000_0000 {
        None
    } else if e < 1023 {
        Some(0)
    } else if e >= 1055 {
        Some(u32::MAX)
    } else {
        Some((significand(bits) / pow2((1075 - e) as nat) as int) as u32)
    }
}

/// A double, given by its bit pattern, as an unsigned number.
pub fn double_to_u32(bits: u64) -> (x: Option<u32>)
    ensures
        x == unsigned_value(bits as int),
{
    if bits == 0x8000_0000_0000_0000 {
        return Some(0);
    }
    if bits > 0x7FF0_0000_0000_0000 {
        return None;
    }
    let e: u64 = (bits / 0x10_0000_0000_0000) % 0x800;
    if e < 1023 {
        return Some(0);
    }
    if e >= 1055 {
        return Some(0xFFFF_FFFF);
    }
    let m: u64 = 0x10_0000_0000_0000 + bits % 0x10_0000_0000_0000;
    let shift: u64 = 1075 - e;
    proof {
        vstd::bits::lemma_u64_shr_is_div(m, shift);
        lemma_shift_range(m as int, shift as nat);
    }
    Some((m >> shift) as u32)
}

proof fn lemma_shift_range(m: int, k: nat)
    requires
        0 <= m < 0x20_0000_0000_0000,
        21 <= k <= 52,
    ensures
        0 <= m / pow2(k) as int <= u32::MAX,
{
    lemma2_to64();
    lemma2_to64_rest();
    lemma_pow2_adds(21, (k - 21) as nat);
    lemma_pow2_pos((k - 21) as nat);
    lemma_pow2_pos(k);
    assert(pow2(k) >= 0x20_0000) by (nonlinear_arith)
        requires
            pow2(k) == 0x20_0000 * pow2((k - 21) as nat),
            pow2((k - 21) as nat) > 0,
    ;
    let p = pow2(k) as int;
    assert(m / p <= m / 0x20_0000) by {
        vstd::arithmetic::div_mod::lemma_div_is_ordered_by_denominator(m, 0x20_0000, p);
    }
    assert(0 <= m / p) by {
        vstd::arithmetic::div_mod::lemma_div_pos_is_pos(m, p);
    }
}

/// A whole number that was put into a double comes out again.
pub proof fn whole_numbers_read_back(x: u32)
    ensures
        unsigned_value(double_of(x as nat)) == Some(x),
{
    if x > 0 {
        whole_numbers_are_exact(x as nat);
        let bits = double_of(x as nat);
        let k = halvings(bits) as nat;
        let p = pow2(k) as int;
        lemma_pow2_pos(k);
        assert(bits / 0x10_0000_0000_0000 == 1075 - k);
        assert(exponent(bits) == 1075 - k);
        if k < 21 {
            lemma_pow2_adds(k, (20 - k) as nat);
            lemma2_to64();
            assert(false) by {
                lemma_pow2_pos((20 - k) as nat);
                assert(pow2(k) <= 0x10_0000) by (nonlinear_arith)
                    requires
                        pow2(k) * pow2((20 - k) as nat) == 0x10_0000,
                        pow2((20 - k) as nat) > 0,
                ;
                assert(x * p < 0x10_0000_0000_0000) by (nonlinear_arith)
                    requires
                        x < 0x1_0000_0000,
                        0 < p <= 0x10_0000,
                ;
            }
        }
        assert((x * p) / p == x) by {
            vstd::arithmetic::div_mod::lemma_div_by_multiple(x as int, p);
        }
    }
}

} // verus!
