//! Byte strings: big-endian integers and the few slice operations everything
//! else is built from.

use vstd::prelude::*;
use vstd::slice::slice_subrange;

verus! {

/// The low two bytes of `x`, most significant first.
pub open spec fn be16(x: int) -> Seq<u8> {
    seq![((x / 0x100) % 0x100) as u8, (x % 0x100) as u8]
}

/// The low three bytes of `x`, most significant first.
pub open spec fn be24(x: int) -> Seq<u8> {
    seq![((x / 0x1_0000) % 0x100) as u8, ((x / 0x100) % 0x100) as u8, (x % 0x100) as u8]
}

/// The low four bytes of `x`, most significant first.
pub open spec fn be32(x: int) -> Seq<u8> {
    seq![
        ((x / 0x100_0000) % 0x100) as u8,
        ((x / 0x1_0000) % 0x100) as u8,
        ((x / 0x100) % 0x100) as u8,
        (x % 0x100) as u8,
    ]
}

/// The low four bytes of `x`, least significant first.
pub open spec fn le32(x: int) -> Seq<u8> {
    seq![
        (x % 0x100) as u8,
        ((x / 0x100) % 0x100) as u8,
        ((x / 0x1_0000) % 0x100) as u8,
        ((x / 0x100_0000) % 0x100) as u8,
    ]
}

/// The number whose little-endian form is the first four bytes of `s`.
pub open spec fn from_le32(s: Seq<u8>) -> int {
    s[3] * 0x100_0000 + s[2] * 0x1_0000 + s[1] * 0x100 + s[0]
}

/// The number whose big-endian form is the first two bytes of `s`.
pub open spec fn from_be16(s: Seq<u8>) -> int {
    s[0] * 0x100 + s[1]
}

/// The number whose big-endian form is the first three bytes of `s`.
pub open spec fn from_be24(s: Seq<u8>) -> int {
    s[0] * 0x1_0000 + s[1] * 0x100 + s[2]
}

/// The number whose big-endian form is the first four bytes of `s`.
pub open spec fn from_be32(s: Seq<u8>) -> int {
    s[0] * 0x100_0000 + s[1] * 0x1_0000 + s[2] * 0x100 + s[3]
}

proof fn lemma_digits(x: int)
    requires
        0 <= x < 0x1_0000_0000,
    ensures
        x == (x / 0x100) * 0x100 + x % 0x100,
        x / 0x100 == (x / 0x1_0000) * 0x100 + (x / 0x100) % 0x100,
        x / 0x1_0000 == (x / 0x100_0000) * 0x100 + (x / 0x1_0000) % 0x100,
        0 <= x / 0x100_0000 < 0x100,
        (x / 0x100_0000) % 0x100 == x / 0x100_0000,
{
    let a = x / 0x100;
    let b = a / 0x100;
    let c = b / 0x100;
    assert(b == x / 0x1_0000);
    assert(c == x / 0x100_0000);
}

/// Big-endian integers read back as they were written.
pub proof fn big_endian_round_trips(x: int)
    ensures
        0 <= x < 0x1_0000 ==> from_be16(be16(x)) == x,
        0 <= x < 0x100_0000 ==> from_be24(be24(x)) == x,
        0 <= x < 0x1_0000_0000 ==> from_be32(be32(x)) == x,
        0 <= x < 0x1_0000_0000 ==> from_le32(le32(x)) == x,
{
    if 0 <= x < 0x1_0000_0000 {
        lemma_digits(x);
        let d0 = x % 0x100;
        let d1 = (x / 0x100) % 0x100;
        let d2 = (x / 0x1_0000) % 0x100;
        let d3 = (x / 0x100_0000) % 0x100;
        assert(x == d3 * 0x100_0000 + d2 * 0x1_0000 + d1 * 0x100 + d0);
        assert(be32(x)[0] == d3 && be32(x)[1] == d2 && be32(x)[2] == d1 && be32(x)[3] == d0);
        assert(le32(x)[3] == d3 && le32(x)[2] == d2 && le32(x)[1] == d1 && le32(x)[0] == d0);
        assert(be24(x)[0] == d2 && be24(x)[1] == d1 && be24(x)[2] == d0);
        assert(be16(x)[0] == d1 && be16(x)[1] == d0);
    }
}

/// A number in two, three or four bytes has its most significant byte first;
/// the stream ids of RTMP have theirs last.
pub proof fn bytes_are_in_order(x: int)
    ensures
        be16(x).len() == 2 && be24(x).len() == 3 && be32(x).len() == 4 && le32(x).len() == 4,
        0 <= x < 0x1_0000 ==> x == be16(x)[0] * 0x100 + be16(x)[1],
        0 <= x < 0x100_0000 ==> x == be24(x)[0] * 0x1_0000 + be24(x)[1] * 0x100 + be24(x)[2],
        0 <= x < 0x1_0000_0000 ==> x == be32(x)[0] * 0x100_0000 + be32(x)[1] * 0x1_0000 + be32(
            x,
        )[2] * 0x100 + be32(x)[3],
        0 <= x < 0x1_0000_0000 ==> x == le32(x)[3] * 0x100_0000 + le32(x)[2] * 0x1_0000 + le32(
            x,
        )[1] * 0x100 + le32(x)[0],
{
    big_endian_round_trips(x);
}

/// Concatenation is associative.
pub proof fn lemma_concat(a: Seq<u8>, b: Seq<u8>, c: Seq<u8>)
    ensures
        (a + b) + c == a + (b + c),
{
    assert((a + b) + c =~= a + (b + c));
}

/// A big-endian integer at the front of a byte string reads back.
pub proof fn lemma_front_be16(x: int, rest: Seq<u8>)
    requires
        0 <= x < 0x1_0000,
    ensures
        from_be16(be16(x) + rest) == x,
{
    big_endian_round_trips(x);
}

/// A big-endian integer at the front of a byte string reads back.
pub proof fn lemma_front_be24(x: int, rest: Seq<u8>)
    requires
        0 <= x < 0x100_0000,
    ensures
        from_be24(be24(x) + rest) == x,
{
    big_endian_round_trips(x);
}

/// A big-endian integer at the front of a byte string reads back.
pub proof fn lemma_front_be32(x: int, rest: Seq<u8>)
    requires
        0 <= x < 0x1_0000_0000,
    ensures
        from_be32(be32(x) + rest) == x,
{
    big_endian_round_trips(x);
}

/// Four bytes are the big-endian form of what they read as.
pub proof fn lemma_be32_back(d: Seq<u8>)
    requires
        d.len() >= 4,
    ensures
        0 <= from_be32(d) < 0x1_0000_0000,
        be32(from_be32(d)) == d.take(4),
{
    let x = from_be32(d);
    assert(x / 0x100 == d[0] * 0x1_0000 + d[1] * 0x100 + d[2] && x % 0x100 == d[3]);
    assert(x / 0x1_0000 == d[0] * 0x100 + d[1]);
    assert(x / 0x100_0000 == d[0]);
    assert(be32(x) =~= d.take(4));
}

/// What is left behind `i` bytes and then `j` more.
pub proof fn lemma_skip_skip(s: Seq<u8>, i: int, j: int)
    requires
        0 <= i,
        0 <= j,
        i + j <= s.len(),
    ensures
        s.skip(i).skip(j) == s.skip(i + j),
{
    assert(s.skip(i).skip(j) =~= s.skip(i + j));
}

/// Taking away a multiple of `d * m` does not change digit `d` in base `m`.
proof fn lemma_digit(x: int, q: int, y: int, n: int, d: int, m: int)
    requires
        0 < d,
        0 < m,
        x == n * q + y,
        n % (d * m) == 0,
    ensures
        (x / d) % m == (y / d) % m,
{
    let k = n / (d * m);
    assert(n == (d * m) * k) by (nonlinear_arith)
        requires
            k == n / (d * m),
            n % (d * m) == 0,
            0 < d,
            0 < m,
    ;
    assert(x == d * (m * (k * q)) + y) by (nonlinear_arith)
        requires
            n == (d * m) * k,
            x == n * q + y,
    ;
    vstd::arithmetic::div_mod::lemma_hoist_over_denominator(y, m * (k * q), d as nat);
    assert(x / d == y / d + m * (k * q)) by (nonlinear_arith)
        requires
            x == d * (m * (k * q)) + y,
            0 < d,
            y / d + m * (k * q) == (y + (m * (k * q)) * d) / d,
    ;
    vstd::arithmetic::div_mod::lemma_mod_multiples_vanish(k * q, y / d, m);
}

/// The two-byte form keeps the low sixteen bits only.
pub proof fn lemma_be16_low(x: int)
    requires
        0 <= x,
    ensures
        be16(x % 0x1_0000) == be16(x),
{
    let y = x % 0x1_0000;
    let q = x / 0x1_0000;
    lemma_digit(x, q, y, 0x1_0000, 0x100, 0x100);
    lemma_digit(x, q, y, 0x1_0000, 1, 0x100);
}

/// The three-byte form keeps the low twenty-four bits only.
pub proof fn lemma_be24_low(x: int)
    requires
        0 <= x,
    ensures
        be24(x % 0x100_0000) == be24(x),
{
    let y = x % 0x100_0000;
    let q = x / 0x100_0000;
    lemma_digit(x, q, y, 0x100_0000, 0x1_0000, 0x100);
    lemma_digit(x, q, y, 0x100_0000, 0x100, 0x100);
    lemma_digit(x, q, y, 0x100_0000, 1, 0x100);
}

/// In three bytes a negative number has the form of its two's complement.
pub proof fn lemma_be24_shift(x: int)
    ensures
        be24(x + 0x100_0000) == be24(x),
{
    let y = x + 0x100_0000;
    lemma_digit(y, 1, x, 0x100_0000, 0x1_0000, 0x100);
    lemma_digit(y, 1, x, 0x100_0000, 0x100, 0x100);
    lemma_digit(y, 1, x, 0x100_0000, 1, 0x100);
}

/// The four-byte form keeps the low thirty-two bits only.
pub proof fn lemma_be32_low(x: int)
    requires
        0 <= x,
    ensures
        be32(x % 0x1_0000_0000) == be32(x),
{
    let y = x % 0x1_0000_0000;
    let q = x / 0x1_0000_0000;
    lemma_digit(x, q, y, 0x1_0000_0000, 0x100_0000, 0x100);
    lemma_digit(x, q, y, 0x1_0000_0000, 0x1_0000, 0x100);
    lemma_digit(x, q, y, 0x1_0000_0000, 0x100, 0x100);
    lemma_digit(x, q, y, 0x1_0000_0000, 1, 0x100);
}

/// Append `s` to `out`.
pub fn append(out: &mut Vec<u8>, s: &[u8])
    ensures
        final(out)@ == old(out)@ + s@,
{
    out.extend_from_slice(s);
    assert(out@ =~= old(out)@ + s@);
}

/// An owned copy of `s`.
pub fn copy_of(s: &[u8]) -> (out: Vec<u8>)
    ensures
        out@ == s@,
{
    vstd::slice::slice_to_vec(s)
}

/// The bytes of `s` from `i` on.
pub fn skip(s: &[u8], i: usize) -> (out: &[u8])
    requires
        i <= s@.len(),
    ensures
        out@ == s@.skip(i as int),
{
    slice_subrange(s, i, s.len())
}

/// The first `n` bytes of `s`.
pub fn take(s: &[u8], n: usize) -> (out: &[u8])
    requires
        n <= s@.len(),
    ensures
        out@ == s@.take(n as int),
{
    slice_subrange(s, 0, n)
}

/// Append the big-endian form of `x`.
pub fn append_be16(out: &mut Vec<u8>, x: u16)
    ensures
        final(out)@ == old(out)@ + be16(x as int),
{
    out.push((x / 0x100) as u8);
    out.push((x % 0x100) as u8);
    assert(out@ =~= old(out)@ + be16(x as int));
}

/// Append the big-endian form of the low 24 bits of `x`.
pub fn append_be24(out: &mut Vec<u8>, x: u32)
    ensures
        final(out)@ == old(out)@ + be24(x as int),
{
    out.push(((x / 0x1_0000) % 0x100) as u8);
    out.push(((x / 0x100) % 0x100) as u8);
    out.push((x % 0x100) as u8);
    assert(out@ =~= old(out)@ + be24(x as int));
}

/// Append the big-endian form of `x`.
pub fn append_be32(out: &mut Vec<u8>, x: u32)
    ensures
        final(out)@ == old(out)@ + be32(x as int),
{
    out.push(((x / 0x100_0000) % 0x100) as u8);
    out.push(((x / 0x1_0000) % 0x100) as u8);
    out.push(((x / 0x100) % 0x100) as u8);
    out.push((x % 0x100) as u8);
    assert(out@ =~= old(out)@ + be32(x as int));
}

/// Append the little-endian form of `x`.
pub fn append_le32(out: &mut Vec<u8>, x: u32)
    ensures
        final(out)@ == old(out)@ + le32(x as int),
{
    out.push((x % 0x100) as u8);
    out.push(((x / 0x100) % 0x100) as u8);
    out.push(((x / 0x1_0000) % 0x100) as u8);
    out.push(((x / 0x100_0000) % 0x100) as u8);
    assert(out@ =~= old(out)@ + le32(x as int));
}

/// Read four little-endian bytes at `pos`.
pub fn read_le32(s: &[u8], pos: usize) -> (x: u32)
    requires
        pos + 4 <= s@.len(),
    ensures
        x == from_le32(s@.skip(pos as int)),
{
    s[pos] as u32 + s[pos + 1] as u32 * 0x100 + s[pos + 2] as u32 * 0x1_0000 + s[pos + 3] as u32
        * 0x100_0000
}

/// Read two big-endian bytes at `pos`.
pub fn read_be16(s: &[u8], pos: usize) -> (x: u16)
    requires
        pos + 2 <= s@.len(),
    ensures
        x == from_be16(s@.skip(pos as int)),
{
    s[pos] as u16 * 0x100 + s[pos + 1] as u16
}

/// Read three big-endian bytes at `pos`.
pub fn read_be24(s: &[u8], pos: usize) -> (x: u32)
    requires
        pos + 3 <= s@.len(),
    ensures
        x == from_be24(s@.skip(pos as int)),
        x < 0x100_0000,
{
    s[pos] as u32 * 0x1_0000 + s[pos + 1] as u32 * 0x100 + s[pos + 2] as u32
}

/// Read four big-endian bytes at `pos`.
pub fn read_be32(s: &[u8], pos: usize) -> (x: u32)
    requires
        pos + 4 <= s@.len(),
    ensures
        x == from_be32(s@.skip(pos as int)),
{
    s[pos] as u32 * 0x100_0000 + s[pos + 1] as u32 * 0x1_0000 + s[pos + 2] as u32 * 0x100 + s[pos
        + 3] as u32
}

/// Are two byte strings the same?
pub fn same_bytes(a: &[u8], b: &[u8]) -> (same: bool)
    ensures
        same == (a@ == b@),
{
    if a.len() != b.len() {
        return false;
    }
    let n: usize = a.len();
    let mut i: usize = 0;
    while i < n
        invariant
            i <= n == a@.len() == b@.len(),
            forall|k: int| 0 <= k < i ==> a@[k] == b@[k],
        decreases n - i,
    {
        if a[i] != b[i] {
            return false;
        }
        i = i + 1;
    }
    assert(a@ =~= b@);
    true
}

/// So many zero bytes.
pub open spec fn zeros(n: nat) -> Seq<u8> {
    Seq::new(n, |i: int| 0u8)
}

/// Append zero bytes.
pub fn append_zeros(out: &mut Vec<u8>, n: usize)
    ensures
        final(out)@ == old(out)@ + zeros(n as nat),
{
    let mut i: usize = 0;
    assert(out@ =~= old(out)@ + zeros(0));
    while i < n
        invariant
            i <= n,
            out@ == old(out)@ + zeros(i as nat),
        decreases n - i,
    {
        out.push(0);
        i = i + 1;
        assert(out@ =~= old(out)@ + zeros(i as nat));
    }
}

/// Append the low 32 bits of a number.
pub fn append_low32(out: &mut Vec<u8>, x: u128)
    ensures
        final(out)@ == old(out)@ + be32(x as int),
{
    proof {
        lemma_be32_low(x as int);
    }
    append_be32(out, (x % 0x1_0000_0000) as u32);
}

} // verus!
