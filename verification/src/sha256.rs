//! SHA-256 (FIPS 180-4) and HMAC-SHA256 (RFC 2104).

use vstd::prelude::*;

use crate::bytes;
use crate::bytes::{be32, from_be32};

verus! {

/// Round constants: the first 32 bits of the fractional parts of the cube
/// roots of the first 64 primes.
pub const ROUND: [u32; 64] = [
    0x428a2f98, 0x71374491, 0xb5c0fbcf, 0xe9b5dba5, 0x3956c25b, 0x59f111f1, 0x923f82a4, 0xab1c5ed5,
    0xd807aa98, 0x12835b01, 0x243185be, 0x550c7dc3, 0x72be5d74, 0x80deb1fe, 0x9bdc06a7, 0xc19bf174,
    0xe49b69c1, 0xefbe4786, 0x0fc19dc6, 0x240ca1cc, 0x2de92c6f, 0x4a7484aa, 0x5cb0a9dc, 0x76f988da,
    0x983e5152, 0xa831c66d, 0xb00327c8, 0xbf597fc7, 0xc6e00bf3, 0xd5a79147, 0x06ca6351, 0x14292967,
    0x27b70a85, 0x2e1b2138, 0x4d2c6dfc, 0x53380d13, 0x650a7354, 0x766a0abb, 0x81c2c92e, 0x92722c85,
    0xa2bfe8a1, 0xa81a664b, 0xc24b8b70, 0xc76c51a3, 0xd192e819, 0xd6990624, 0xf40e3585, 0x106aa070,
    0x19a4c116, 0x1e376c08, 0x2748774c, 0x34b0bcb5, 0x391c0cb3, 0x4ed8aa4a, 0x5b9cca4f, 0x682e6ff3,
    0x748f82ee, 0x78a5636f, 0x84c87814, 0x8cc70208, 0x90befffa, 0xa4506ceb, 0xbef9a3f7, 0xc67178f2,
];

/// The working variables of the hash.
#[derive(Debug, Clone, Copy, PartialEq, Eq, Structural)]
pub struct Words {
    /// First word.
    pub a: u32,
    /// Second word.
    pub b: u32,
    /// Third word.
    pub c: u32,
    /// Fourth word.
    pub d: u32,
    /// Fifth word.
    pub e: u32,
    /// Sixth word.
    pub f: u32,
    /// Seventh word.
    pub g: u32,
    /// Eighth word.
    pub h: u32,
}

/// The initial hash value.
pub open spec fn initial() -> Words {
    Words {
        a: 0x6a09e667,
        b: 0xbb67ae85,
        c: 0x3c6ef372,
        d: 0xa54ff53a,
        e: 0x510e527f,
        f: 0x9b05688c,
        g: 0x1f83d9ab,
        h: 0x5be0cd19,
    }
}

/// `x` rotated right by `n` bits.
pub open spec fn rotr(x: u32, n: u32) -> u32 {
    (x >> n) | (x << ((32 - n) as u32))
}

/// The sum modulo 2^32.
pub open spec fn plus(x: u32, y: u32) -> u32 {
    x.wrapping_add(y)
}

/// Word `t` of the message schedule of a 64-byte block.
pub open spec fn schedule(block: Seq<u8>, t: int) -> u32
    decreases t,
{
    if t < 16 {
        from_be32(block.skip(4 * t)) as u32
    } else {
        let w2 = schedule(block, t - 2);
        let w15 = schedule(block, t - 15);
        let s0 = rotr(w15, 7) ^ rotr(w15, 18) ^ (w15 >> 3u32);
        let s1 = rotr(w2, 17) ^ rotr(w2, 19) ^ (w2 >> 10u32);
        plus(plus(plus(s1, schedule(block, t - 7)), s0), schedule(block, t - 16))
    }
}

/// One round with the sum of round constant and schedule word.
pub open spec fn round(v: Words, kw: u32) -> Words {
    let s1 = rotr(v.e, 6) ^ rotr(v.e, 11) ^ rotr(v.e, 25);
    let choice = (v.e & v.f) ^ (!v.e & v.g);
    let t1 = plus(plus(plus(v.h, s1), choice), kw);
    let s0 = rotr(v.a, 2) ^ rotr(v.a, 13) ^ rotr(v.a, 22);
    let majority = (v.a & v.b) ^ (v.a & v.c) ^ (v.b & v.c);
    Words {
        a: plus(t1, plus(s0, majority)),
        b: v.a,
        c: v.b,
        d: v.c,
        e: plus(v.d, t1),
        f: v.e,
        g: v.f,
        h: v.g,
    }
}

/// The first `t` rounds on a block.
pub open spec fn rounds(v: Words, block: Seq<u8>, t: int) -> Words
    decreases t,
{
    if t <= 0 {
        v
    } else {
        round(rounds(v, block, t - 1), plus(ROUND[t - 1], schedule(block, t - 1)))
    }
}

/// Word-wise sum.
pub open spec fn add_words(x: Words, y: Words) -> Words {
    Words {
        a: plus(x.a, y.a),
        b: plus(x.b, y.b),
        c: plus(x.c, y.c),
        d: plus(x.d, y.d),
        e: plus(x.e, y.e),
        f: plus(x.f, y.f),
        g: plus(x.g, y.g),
        h: plus(x.h, y.h),
    }
}

/// The hash value after one more block.
pub open spec fn compress(v: Words, block: Seq<u8>) -> Words {
    add_words(v, rounds(v, block, 64))
}

/// The hash value after the whole blocks of `data`.
pub open spec fn absorb(v: Words, data: Seq<u8>) -> Words
    decreases data.len(),
{
    if data.len() < 64 {
        v
    } else {
        absorb(compress(v, data.take(64)), data.skip(64))
    }
}

/// Zero bytes needed behind `len` bytes of message and the mark byte, so that
/// eight more bytes fill up a block.
pub open spec fn zeros_for(len: int) -> int {
    (119 - len % 64) % 64
}

/// The message with a one bit, zeros, and its length in bits.
pub open spec fn padded(m: Seq<u8>) -> Seq<u8> {
    m + seq![0x80u8] + Seq::new(zeros_for(m.len() as int) as nat, |i: int| 0u8) + be32(
        (8 * m.len() as int) / 0x1_0000_0000,
    ) + be32(8 * m.len() as int)
}

/// Four words in big-endian bytes.
#[verifier::opaque]
pub open spec fn half_bytes(a: u32, b: u32, c: u32, d: u32) -> Seq<u8> {
    be32(a as int) + be32(b as int) + be32(c as int) + be32(d as int)
}

/// The eight words in big-endian bytes.
pub open spec fn digest_bytes(v: Words) -> Seq<u8> {
    half_bytes(v.a, v.b, v.c, v.d) + half_bytes(v.e, v.f, v.g, v.h)
}

/// The SHA-256 digest of a message.
#[verifier::opaque]
pub open spec fn sha256_of(m: Seq<u8>) -> Seq<u8> {
    digest_bytes(absorb(initial(), padded(m)))
}

/// The HMAC key filled up to a block: a longer key is hashed first.
pub open spec fn hmac_key(key: Seq<u8>) -> Seq<u8> {
    let short = if key.len() > 64 {
        sha256_of(key)
    } else {
        key
    };
    short + Seq::new((64 - short.len()) as nat, |i: int| 0u8)
}

/// Every byte of `s` combined with `x`.
pub open spec fn xored(s: Seq<u8>, x: u8) -> Seq<u8> {
    s.map_values(|b: u8| b ^ x)
}

/// The HMAC-SHA256 of a message under a key.
#[verifier::opaque]
pub open spec fn hmac_of(key: Seq<u8>, message: Seq<u8>) -> Seq<u8> {
    let k = hmac_key(key);
    sha256_of(xored(k, 0x5c) + sha256_of(xored(k, 0x36) + message))
}

proof fn lemma_half_bytes(a: u32, b: u32, c: u32, d: u32)
    ensures
        half_bytes(a, b, c, d).len() == 16,
{
    reveal(half_bytes);
}

proof fn lemma_digest_bytes(v: Words)
    ensures
        digest_bytes(v).len() == 32,
{
    lemma_half_bytes(v.a, v.b, v.c, v.d);
    lemma_half_bytes(v.e, v.f, v.g, v.h);
}

proof fn lemma_sha256_len(message: Seq<u8>)
    ensures
        sha256_of(message).len() == 32,
{
    reveal(sha256_of);
    lemma_digest_bytes(absorb(initial(), padded(message)));
}

/// A keyed digest has 32 bytes.
pub proof fn lemma_digest_len(key: Seq<u8>, message: Seq<u8>)
    ensures
        hmac_of(key, message).len() == 32,
{
    reveal(hmac_of);
    let k = hmac_key(key);
    lemma_sha256_len(xored(k, 0x5c) + sha256_of(xored(k, 0x36) + message));
}

fn rotate(x: u32, n: u32) -> (r: u32)
    requires
        0 < n < 32,
    ensures
        r == rotr(x, n),
{
    (x >> n) | (x << (32 - n))
}

fn expand(block: &[u8]) -> (w: Vec<u32>)
    requires
        block@.len() == 64,
    ensures
        w@.len() == 64,
        forall|t: int| 0 <= t < 64 ==> w@[t] == schedule(block@, t),
{
    let mut w: Vec<u32> = Vec::new();
    let mut t: usize = 0;
    while t < 64
        invariant
            block@.len() == 64,
            t <= 64,
            w@.len() == t,
            forall|i: int| 0 <= i < t ==> w@[i] == schedule(block@, i),
        decreases 64 - t,
    {
        if t < 16 {
            w.push(bytes::read_be32(block, 4 * t));
        } else {
            let w2: u32 = w[t - 2];
            let w15: u32 = w[t - 15];
            let s0: u32 = rotate(w15, 7) ^ rotate(w15, 18) ^ (w15 >> 3u32);
            let s1: u32 = rotate(w2, 17) ^ rotate(w2, 19) ^ (w2 >> 10u32);
            w.push(s1.wrapping_add(w[t - 7]).wrapping_add(s0).wrapping_add(w[t - 16]));
        }
        t = t + 1;
    }
    w
}

fn one_round(v: Words, kw: u32) -> (r: Words)
    ensures
        r == round(v, kw),
{
    let s1: u32 = rotate(v.e, 6) ^ rotate(v.e, 11) ^ rotate(v.e, 25);
    let choice: u32 = (v.e & v.f) ^ (!v.e & v.g);
    let t1: u32 = v.h.wrapping_add(s1).wrapping_add(choice).wrapping_add(kw);
    let s0: u32 = rotate(v.a, 2) ^ rotate(v.a, 13) ^ rotate(v.a, 22);
    let majority: u32 = (v.a & v.b) ^ (v.a & v.c) ^ (v.b & v.c);
    Words {
        a: t1.wrapping_add(s0.wrapping_add(majority)),
        b: v.a,
        c: v.b,
        d: v.c,
        e: v.d.wrapping_add(t1),
        f: v.e,
        g: v.f,
        h: v.g,
    }
}

fn compress_block(v: Words, block: &[u8]) -> (r: Words)
    requires
        block@.len() == 64,
    ensures
        r == compress(v, block@),
{
    let w: Vec<u32> = expand(block);
    let mut x: Words = v;
    let mut t: usize = 0;
    while t < 64
        invariant
            t <= 64,
            w@.len() == 64,
            forall|i: int| 0 <= i < 64 ==> w@[i] == schedule(block@, i),
            x == rounds(v, block@, t as int),
        decreases 64 - t,
    {
        x = one_round(x, ROUND[t].wrapping_add(w[t]));
        t = t + 1;
    }
    Words {
        a: v.a.wrapping_add(x.a),
        b: v.b.wrapping_add(x.b),
        c: v.c.wrapping_add(x.c),
        d: v.d.wrapping_add(x.d),
        e: v.e.wrapping_add(x.e),
        f: v.f.wrapping_add(x.f),
        g: v.g.wrapping_add(x.g),
        h: v.h.wrapping_add(x.h),
    }
}

fn absorb_blocks(data: &[u8]) -> (r: Words)
    ensures
        r == absorb(initial(), data@),
{
    let mut rest: &[u8] = data;
    let mut v: Words = Words {
        a: 0x6a09e667,
        b: 0xbb67ae85,
        c: 0x3c6ef372,
        d: 0xa54ff53a,
        e: 0x510e527f,
        f: 0x9b05688c,
        g: 0x1f83d9ab,
        h: 0x5be0cd19,
    };
    while rest.len() >= 64
        invariant
            absorb(initial(), data@) == absorb(v, rest@),
        decreases rest@.len(),
    {
        v = compress_block(v, bytes::take(rest, 64));
        rest = bytes::skip(rest, 64);
    }
    v
}

fn pad(m: &[u8]) -> (out: Vec<u8>)
    ensures
        out@ == padded(m@),
{
    let mut out: Vec<u8> = bytes::copy_of(m);
    let len: u128 = m.len() as u128;
    out.push(0x80);
    assert(out@ =~= m@ + seq![0x80u8]);
    let zeros: usize = (119 - m.len() % 64) % 64;
    let ghost marked = out@;
    let mut i: usize = 0;
    while i < zeros
        invariant
            i <= zeros,
            out@ == marked + Seq::new(i as nat, |k: int| 0u8),
        decreases zeros - i,
    {
        out.push(0);
        i = i + 1;
        assert(out@ =~= marked + Seq::new(i as nat, |k: int| 0u8));
    }
    let bits: u128 = 8 * len;
    let high: u32 = ((bits / 0x1_0000_0000) % 0x1_0000_0000) as u32;
    let low: u32 = (bits % 0x1_0000_0000) as u32;
    proof {
        bytes::lemma_be32_low(bits as int);
        bytes::lemma_be32_low(bits as int / 0x1_0000_0000);
    }
    bytes::append_be32(&mut out, high);
    bytes::append_be32(&mut out, low);
    out
}

fn append_half(out: &mut Vec<u8>, a: u32, b: u32, c: u32, d: u32)
    ensures
        final(out)@ == old(out)@ + half_bytes(a, b, c, d),
{
    proof {
        reveal(half_bytes);
    }
    bytes::append_be32(out, a);
    bytes::append_be32(out, b);
    bytes::append_be32(out, c);
    bytes::append_be32(out, d);
    proof {
        lemma_four(old(out)@, be32(a as int), be32(b as int), be32(c as int), be32(d as int));
    }
}

proof fn lemma_four(o: Seq<u8>, a: Seq<u8>, b: Seq<u8>, c: Seq<u8>, d: Seq<u8>)
    ensures
        o + a + b + c + d == o + (a + b + c + d),
{
    assert(o + a + b + c + d =~= o + (a + b + c + d));
}

fn to_digest(v: Words) -> (out: Vec<u8>)
    ensures
        out@ == digest_bytes(v),
        out@.len() == 32,
{
    proof {
        lemma_digest_bytes(v);
    }
    let mut out: Vec<u8> = Vec::new();
    append_half(&mut out, v.a, v.b, v.c, v.d);
    append_half(&mut out, v.e, v.f, v.g, v.h);
    assert(out@ =~= digest_bytes(v));
    out
}

/// The SHA-256 digest of `m`: 32 bytes.
pub fn sha256(m: &[u8]) -> (digest: Vec<u8>)
    ensures
        digest@ == sha256_of(m@),
        digest@.len() == 32,
{
    proof {
        reveal(sha256_of);
    }
    let data: Vec<u8> = pad(m);
    to_digest(absorb_blocks(data.as_slice()))
}

fn xor_into(s: &[u8], x: u8) -> (out: Vec<u8>)
    ensures
        out@ == xored(s@, x),
{
    let mut out: Vec<u8> = Vec::new();
    let mut i: usize = 0;
    while i < s.len()
        invariant
            i <= s@.len(),
            out@ == xored(s@.take(i as int), x),
        decreases s@.len() - i,
    {
        out.push(s[i] ^ x);
        i = i + 1;
        assert(out@ =~= xored(s@.take(i as int), x));
    }
    assert(s@.take(i as int) =~= s@);
    out
}

/// The HMAC-SHA256 of `message` under `key`: 32 bytes.
pub fn hmac_sha256(key: &[u8], message: &[u8]) -> (digest: Vec<u8>)
    ensures
        digest@ == hmac_of(key@, message@),
        digest@.len() == 32,
{
    proof {
        reveal(hmac_of);
    }
    let mut k: Vec<u8> = if key.len() > 64 {
        sha256(key)
    } else {
        bytes::copy_of(key)
    };
    let ghost short = k@;
    assert(k@ + Seq::new(0, |i: int| 0u8) =~= k@);
    while k.len() < 64
        invariant
            short.len() <= k@.len() <= 64,
            k@ == short + Seq::new((k@.len() - short.len()) as nat, |i: int| 0u8),
        decreases 64 - k@.len(),
    {
        k.push(0);
        assert(k@ =~= short + Seq::new((k@.len() - short.len()) as nat, |i: int| 0u8));
    }
    let mut inner: Vec<u8> = xor_into(k.as_slice(), 0x36);
    bytes::append(&mut inner, message);
    let mut outer: Vec<u8> = xor_into(k.as_slice(), 0x5c);
    let inner_digest: Vec<u8> = sha256(inner.as_slice());
    bytes::append(&mut outer, inner_digest.as_slice());
    sha256(outer.as_slice())
}

} // verus!
