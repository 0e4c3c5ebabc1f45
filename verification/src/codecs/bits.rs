//! Reading a byte string bit by bit: fixed-width fields and the Exp-Golomb
//! codes of H.264.

use vstd::arithmetic::power2::{lemma2_to64, lemma_pow2_unfold, pow2};
use vstd::prelude::*;

verus! {

/// The bit at position `p`, counted from the most significant bit of the first
/// byte.
pub open spec fn bit_at(d: Seq<u8>, p: int) -> int {
    ((d[p / 8] >> ((7 - p % 8) as u8)) & 1) as int
}

/// The number in the `n` bits at `p`, most significant first.
pub open spec fn bits_at(d: Seq<u8>, p: int, n: nat) -> int
    decreases n,
{
    if n == 0 {
        0
    } else {
        2 * bits_at(d, p, (n - 1) as nat) + bit_at(d, p + n - 1)
    }
}

/// How many zero bits stand at `p` before the next one bit or the end.
pub open spec fn zeros_at(d: Seq<u8>, p: int) -> nat
    decreases 8 * d.len() - p,
{
    if p < 0 || p >= 8 * d.len() || bit_at(d, p) == 1 {
        0
    } else {
        1 + zeros_at(d, p + 1)
    }
}

/// The value of the unsigned Exp-Golomb code at `p`: `z` zeros, a one, and
/// `z` more bits (ITU-T H.264 9.1).
pub open spec fn ue_at(d: Seq<u8>, p: int) -> int {
    pow2(zeros_at(d, p)) - 1 + bits_at(d, p + zeros_at(d, p) + 1, zeros_at(d, p))
}

/// The value of the signed Exp-Golomb code at `p` (ITU-T H.264 9.1.1).
pub open spec fn se_at(d: Seq<u8>, p: int) -> int {
    if ue_at(d, p) % 2 == 1 {
        (ue_at(d, p) + 1) / 2
    } else {
        -(ue_at(d, p) / 2)
    }
}

/// The position `n` bits on; `None` past the end of `d`, and behind a field
/// that was itself past the end.
pub open spec fn skip_bits(d: Seq<u8>, p: Option<int>, n: int) -> Option<int> {
    match p {
        Some(q) => if q + n <= 8 * d.len() {
            Some(q + n)
        } else {
            None
        },
        None => None,
    }
}

/// The position behind one Exp-Golomb code; `None` when the code runs past the
/// end or has more than 31 leading zeros.
pub open spec fn skip_ue(d: Seq<u8>, p: Option<int>) -> Option<int> {
    match p {
        Some(q) => if zeros_at(d, q) <= 31 && q + 2 * zeros_at(d, q) + 1 <= 8 * d.len() {
            Some(q + 2 * zeros_at(d, q) + 1)
        } else {
            None
        },
        None => None,
    }
}

/// The position behind `n` Exp-Golomb codes.
pub open spec fn skip_ues(d: Seq<u8>, p: Option<int>, n: nat) -> Option<int>
    decreases n,
{
    if p is None || n == 0 {
        p
    } else {
        skip_ues(d, skip_ue(d, p), (n - 1) as nat)
    }
}

proof fn lemma_bit_range(b: u8, k: u8)
    ensures
        (b >> k) & 1 <= 1,
{
    assert((b >> k) & 1 <= 1) by (bit_vector);
}

/// The `n` bits at `p` hold a number below two to the `n`.
pub proof fn lemma_bits_range(d: Seq<u8>, p: int, n: nat)
    ensures
        0 <= bits_at(d, p, n) < pow2(n),
    decreases n,
{
    lemma2_to64();
    if n > 0 {
        lemma_bits_range(d, p, (n - 1) as nat);
        lemma_pow2_unfold(n);
        let q = p + n - 1;
        lemma_bit_range(d[q / 8], (7 - q % 8) as u8);
    }
}

/// A bit reader over a byte slice with bounds checking on every read — an SPS
/// is untrusted input, so running off the end yields `None`, never a panic.
pub struct BitReader<'a> {
    data: &'a [u8],
    byte: usize,
    bit: u8,
}

impl<'a> BitReader<'a> {
    /// The bytes that are read.
    pub closed spec fn bytes(&self) -> Seq<u8> {
        self.data@
    }

    /// The position of the next bit.
    pub closed spec fn pos(&self) -> int {
        8 * self.byte + self.bit
    }

    /// The next bit lies inside the data or right behind it.
    pub closed spec fn valid(&self) -> bool {
        self.bit < 8 && self.pos() <= 8 * self.data@.len()
    }

    /// Start at the first bit of `data`.
    pub fn new(data: &'a [u8]) -> (r: Self)
        ensures
            r.valid(),
            r.bytes() == data@,
            r.pos() == 0,
    {
        BitReader { data, byte: 0, bit: 0 }
    }

    /// Read one bit.
    pub fn bit(&mut self) -> (b: Option<u32>)
        requires
            old(self).valid(),
        ensures
            final(self).valid(),
            final(self).bytes() == old(self).bytes(),
            match b {
                Some(v) => skip_bits(old(self).bytes(), Some(old(self).pos()), 1) == Some(
                    final(self).pos(),
                ) && v == bit_at(old(self).bytes(), old(self).pos()) && v <= 1,
                None => skip_bits(old(self).bytes(), Some(old(self).pos()), 1) is None,
            },
    {
        if self.byte >= self.data.len() {
            return None;
        }
        let v: u8 = (self.data[self.byte] >> (7 - self.bit)) & 1;
        proof {
            lemma_bit_range(self.data@[self.byte as int], (7 - self.bit) as u8);
        }
        if self.bit == 7 {
            self.byte = self.byte + 1;
            self.bit = 0;
        } else {
            self.bit = self.bit + 1;
        }
        Some(v as u32)
    }

    /// Read an `n`-bit number.
    pub fn bits(&mut self, n: u32) -> (r: Option<u32>)
        requires
            old(self).valid(),
            n <= 32,
        ensures
            final(self).valid(),
            final(self).bytes() == old(self).bytes(),
            match r {
                Some(v) => skip_bits(old(self).bytes(), Some(old(self).pos()), n as int) == Some(
                    final(self).pos(),
                ) && v == bits_at(old(self).bytes(), old(self).pos(), n as nat),
                None => skip_bits(old(self).bytes(), Some(old(self).pos()), n as int) is None,
            },
    {
        let mut v: u64 = 0;
        let mut i: u32 = 0;
        while i < n
            invariant
                i <= n <= 32,
                self.valid(),
                self.bytes() == old(self).bytes(),
                self.pos() == old(self).pos() + i,
                v == bits_at(old(self).bytes(), old(self).pos(), i as nat),
            decreases n - i,
        {
            proof {
                lemma_bits_range(old(self).bytes(), old(self).pos(), i as nat);
                lemma2_to64();
                if i < 32 {
                    vstd::arithmetic::power2::lemma_pow2_strictly_increases(i as nat, 32);
                }
            }
            let b: u32 = match self.bit() {
                Some(b) => b,
                None => {
                    return None;
                },
            };
            v = 2 * v + b as u64;
            i = i + 1;
        }
        proof {
            lemma_bits_range(old(self).bytes(), old(self).pos(), n as nat);
            lemma2_to64();
            if n < 32 {
                vstd::arithmetic::power2::lemma_pow2_strictly_increases(n as nat, 32);
            }
        }
        Some(v as u32)
    }

    /// Unsigned Exp-Golomb (ITU-T H.264 9.1).
    pub fn ue(&mut self) -> (r: Option<u32>)
        requires
            old(self).valid(),
        ensures
            final(self).valid(),
            final(self).bytes() == old(self).bytes(),
            match r {
                Some(v) => skip_ue(old(self).bytes(), Some(old(self).pos())) == Some(
                    final(self).pos(),
                ) && v == ue_at(old(self).bytes(), old(self).pos()) && v < u32::MAX,
                None => skip_ue(old(self).bytes(), Some(old(self).pos())) is None,
            },
    {
        let mut leading: u32 = 0;
        let mut power: u32 = 1;
        proof {
            lemma2_to64();
        }
        loop
            invariant_except_break
                self.pos() == old(self).pos() + leading,
                zeros_at(old(self).bytes(), old(self).pos()) == leading + zeros_at(
                    old(self).bytes(),
                    self.pos(),
                ),
            invariant
                leading <= 31,
                power == pow2(leading as nat),
                self.valid(),
                self.bytes() == old(self).bytes(),
            ensures
                self.pos() == old(self).pos() + leading + 1,
                zeros_at(old(self).bytes(), old(self).pos()) == leading,
            decreases 32 - leading,
        {
            let b: u32 = match self.bit() {
                Some(b) => b,
                None => {
                    return None;
                },
            };
            if b == 1 {
                break;
            }
            leading = leading + 1;
            if leading > 31 {
                return None;  // pathological; a real SPS never gets here
            }
            proof {
                lemma2_to64();
                lemma_pow2_unfold(leading as nat);
                if leading < 31 {
                    vstd::arithmetic::power2::lemma_pow2_strictly_increases(leading as nat, 31);
                }
            }
            power = power * 2;
        }
        let suffix: u32 = match self.bits(leading) {
            Some(s) => s,
            None => {
                return None;
            },
        };
        proof {
            lemma_bits_range(
                old(self).bytes(),
                old(self).pos() + leading + 1,
                leading as nat,
            );
            lemma2_to64();
            if leading < 31 {
                vstd::arithmetic::power2::lemma_pow2_strictly_increases(leading as nat, 31);
            }
        }
        Some(power - 1 + suffix)
    }

    /// Signed Exp-Golomb (ITU-T H.264 9.1.1).
    pub fn se(&mut self) -> (r: Option<i32>)
        requires
            old(self).valid(),
        ensures
            final(self).valid(),
            final(self).bytes() == old(self).bytes(),
            match r {
                Some(v) => skip_ue(old(self).bytes(), Some(old(self).pos())) == Some(
                    final(self).pos(),
                ) && v == se_at(old(self).bytes(), old(self).pos()) && v > i32::MIN,
                None => skip_ue(old(self).bytes(), Some(old(self).pos())) is None,
            },
    {
        let k: u32 = match self.ue() {
            Some(k) => k,
            None => {
                return None;
            },
        };
        if k % 2 == 1 {
            Some((k / 2 + 1) as i32)
        } else {
            Some(-((k / 2) as i32))
        }
    }
}

} // verus!
