//! H.264 helpers: splitting Annex-B streams, building the AVCC record,
//! converting NAL units to the length-prefixed form FLV requires, and reading
//! the SPS for the stream dimensions.

use vstd::prelude::*;

use crate::bytes;
use crate::bytes::{be16, be32, from_be16, from_be32};
use crate::codecs::bits::{bit_at, se_at, skip_bits, skip_ue, skip_ues, ue_at, BitReader};

verus! {

/// Instantaneous decoder refresh slice: a keyframe.
const NAL_IDR: u8 = 5;

/// Sequence parameter set.
const NAL_SPS: u8 = 7;

/// Picture parameter set.
const NAL_PPS: u8 = 8;

/// The type of the NAL unit that starts with header byte `byte`.
pub open spec fn unit_type(byte: u8) -> u8 {
    byte % 32
}

/// Extract the NAL unit type from a NAL header byte.
fn nal_type(byte: u8) -> (t: u8)
    ensures
        t == unit_type(byte),
{
    byte % 32
}

/// The contents of a list of slices.
pub open spec fn contents(nals: Seq<&[u8]>) -> Seq<Seq<u8>> {
    nals.map_values(|nal: &[u8]| nal@)
}

// ---------------------------------------------------------------------------
// Annex-B
// ---------------------------------------------------------------------------

/// Length of the start code at `i`: 3 for `00 00 01`, 4 for `00 00 00 01`, 0
/// when there is none. A code needs four bytes in sight, so three bytes that
/// end the stream are not one.
pub open spec fn start_code_len(t: Seq<u8>, i: int) -> int {
    if 0 <= i && i + 3 < t.len() && t[i] == 0 && t[i + 1] == 0 {
        if t[i + 2] == 1 {
            3
        } else if t[i + 2] == 0 && t[i + 3] == 1 {
            4
        } else {
            0
        }
    } else {
        0
    }
}

/// Where the run of consecutive start codes at `i` ends.
pub open spec fn codes_end(t: Seq<u8>, i: int) -> int
    decreases t.len() - i,
{
    if start_code_len(t, i) == 0 {
        i
    } else {
        codes_end(t, i + start_code_len(t, i))
    }
}

/// Where the first start code at or after `i` is.
pub open spec fn next_code(t: Seq<u8>, i: int) -> Option<int>
    decreases t.len() - i,
{
    if i + 3 >= t.len() {
        None
    } else if start_code_len(t, i) > 0 {
        Some(i)
    } else {
        next_code(t, i + 1)
    }
}

/// `u` without the zero bytes it ends with.
pub open spec fn trim_zeros(u: Seq<u8>) -> Seq<u8>
    decreases u.len(),
{
    if u.len() > 0 && u.last() == 0 {
        trim_zeros(u.drop_last())
    } else {
        u
    }
}

/// True when `u` ends with `00 00 01`.
pub open spec fn ends_with_code(u: Seq<u8>) -> bool {
    u.len() >= 3 && u[u.len() - 3] == 0 && u[u.len() - 2] == 0 && u[u.len() - 1] == 1
}

/// `u` without the bare start codes it ends with.
pub open spec fn trim_codes(u: Seq<u8>) -> Seq<u8>
    decreases u.len(),
{
    if ends_with_code(u) {
        trim_codes(u.take(u.len() - 3))
    } else {
        u
    }
}

/// A list of `u` alone, or of nothing when `u` is empty.
pub open spec fn if_any(u: Seq<u8>) -> Seq<Seq<u8>> {
    if u.len() > 0 {
        seq![u]
    } else {
        Seq::empty()
    }
}

/// The NAL units in `t`, where `t` begins right behind a start code. A unit
/// runs to the next start code and does not keep the zero padding before it;
/// the last one also loses a bare start code at the end of the stream.
pub open spec fn units_after_code(t: Seq<u8>) -> Seq<Seq<u8>>
    decreases t.len(),
{
    match next_code(t, 0) {
        Some(n) => if 0 <= n < codes_end(t, n) <= t.len() {
            if_any(trim_zeros(t.take(n))) + units_after_code(t.skip(codes_end(t, n)))
        } else {
            Seq::empty()
        },
        None => if_any(trim_codes(trim_zeros(t))),
    }
}

/// The NAL units of an Annex-B stream; what stands before the first start code
/// belongs to none.
pub open spec fn annex_b_units(t: Seq<u8>) -> Seq<Seq<u8>> {
    match next_code(t, 0) {
        Some(n) => units_after_code(t.skip(codes_end(t, n))),
        None => Seq::empty(),
    }
}

proof fn lemma_codes_end(t: Seq<u8>, i: int)
    requires
        0 <= i <= t.len(),
    ensures
        i <= codes_end(t, i) <= t.len(),
        start_code_len(t, i) > 0 ==> i < codes_end(t, i),
    decreases t.len() - i,
{
    if start_code_len(t, i) > 0 {
        lemma_codes_end(t, i + start_code_len(t, i));
    }
}

proof fn lemma_next_code(t: Seq<u8>, i: int)
    requires
        0 <= i,
    ensures
        next_code(t, i) matches Some(n) ==> i <= n < t.len() && start_code_len(t, n) > 0,
    decreases t.len() - i,
{
    if i + 3 < t.len() && start_code_len(t, i) == 0 {
        lemma_next_code(t, i + 1);
    }
}

/// No start code begins before `k`, so the first one is looked for from there.
pub proof fn lemma_next_code_from(t: Seq<u8>, i: int, k: int)
    requires
        0 <= i <= k,
        forall|j: int| i <= j < k ==> start_code_len(t, j) == 0,
    ensures
        next_code(t, i) == next_code(t, k),
    decreases k - i,
{
    if i < k && i + 3 < t.len() {
        lemma_next_code_from(t, i + 1, k);
    }
}

proof fn lemma_units_not_empty(t: Seq<u8>)
    ensures
        forall|i: int|
            0 <= i < units_after_code(t).len() ==> (#[trigger] units_after_code(t)[i]).len() > 0,
    decreases t.len(),
{
    if let Some(n) = next_code(t, 0) {
        if 0 <= n < codes_end(t, n) <= t.len() {
            let first = if_any(trim_zeros(t.take(n)));
            let rest = units_after_code(t.skip(codes_end(t, n)));
            lemma_units_not_empty(t.skip(codes_end(t, n)));
            assert forall|i: int| 0 <= i < (first + rest).len() implies (#[trigger] (first
                + rest)[i]).len() > 0 by {
                if i >= first.len() {
                    assert((first + rest)[i] == rest[i - first.len()]);
                }
            }
        }
    }
}

/// A NAL unit has at least its header byte.
pub proof fn units_are_not_empty(t: Seq<u8>)
    ensures
        forall|i: int|
            0 <= i < annex_b_units(t).len() ==> (#[trigger] annex_b_units(t)[i]).len() > 0,
{
    if let Some(n) = next_code(t, 0) {
        lemma_units_not_empty(t.skip(codes_end(t, n)));
    }
}

/// True if `u` stands in `t` from `a` on, right behind a start code.
pub open spec fn follows_code(t: Seq<u8>, u: Seq<u8>, a: int) -> bool {
    &&& 3 <= a
    &&& a + u.len() <= t.len()
    &&& t.subrange(a, a + u.len()) == u
    &&& t[a - 3] == 0 && t[a - 2] == 0 && t[a - 1] == 1
}

/// True if `u` stands in `t`, right behind a start code.
pub open spec fn is_unit_in(t: Seq<u8>, u: Seq<u8>) -> bool {
    exists|a: int| follows_code(t, u, a)
}

proof fn lemma_trimmed(u: Seq<u8>)
    ensures
        trim_zeros(u) == u.take(trim_zeros(u).len() as int),
        trim_zeros(u).len() <= u.len(),
        trim_zeros(u).len() > 0 ==> trim_zeros(u).last() != 0,
    decreases u.len(),
{
    if u.len() > 0 && u.last() == 0 {
        let v = u.drop_last();
        lemma_trimmed(v);
        assert(v.take(trim_zeros(v).len() as int) =~= u.take(trim_zeros(v).len() as int));
    } else {
        assert(u.take(u.len() as int) =~= u);
    }
}

proof fn lemma_codes_trimmed(u: Seq<u8>)
    ensures
        trim_codes(u) == u.take(trim_codes(u).len() as int),
        trim_codes(u).len() <= u.len(),
    decreases u.len(),
{
    if ends_with_code(u) {
        let v = u.take(u.len() - 3);
        lemma_codes_trimmed(v);
        assert(v.take(trim_codes(v).len() as int) =~= u.take(trim_codes(v).len() as int));
    } else {
        assert(u.take(u.len() as int) =~= u);
    }
}

proof fn lemma_codes_end_in_one(t: Seq<u8>, i: int)
    requires
        0 <= i <= t.len(),
        start_code_len(t, i) > 0,
    ensures
        ({
            let e = codes_end(t, i);
            i + 3 <= e && t[e - 3] == 0 && t[e - 2] == 0 && t[e - 1] == 1
        }),
    decreases t.len() - i,
{
    let j = i + start_code_len(t, i);
    assert(codes_end(t, i) == codes_end(t, j));
    if start_code_len(t, j) > 0 {
        lemma_codes_end_in_one(t, j);
    } else {
        assert(codes_end(t, j) == j);
    }
}

proof fn lemma_units_follow(all: Seq<u8>, at: int)
    requires
        3 <= at <= all.len(),
        all[at - 3] == 0 && all[at - 2] == 0 && all[at - 1] == 1,
    ensures
        forall|i: int|
            0 <= i < units_after_code(all.skip(at)).len() ==> is_unit_in(
                all,
                #[trigger] units_after_code(all.skip(at))[i],
            ),
    decreases all.len() - at,
{
    let t = all.skip(at);
    let units = units_after_code(t);
    lemma_next_code(t, 0);
    match next_code(t, 0) {
        Some(n) => {
            lemma_codes_end(t, n);
            lemma_codes_end_in_one(t, n);
            let e = codes_end(t, n);
            let u = trim_zeros(t.take(n));
            lemma_trimmed(t.take(n));
            assert(t.skip(e) =~= all.skip(at + e));
            lemma_units_follow(all, at + e);
            let rest = units_after_code(t.skip(e));
            assert(all.subrange(at, at + u.len()) =~= u);
            assert(follows_code(all, u, at));
            assert forall|i: int| 0 <= i < units.len() implies is_unit_in(
                all,
                #[trigger] units[i],
            ) by {
                if i >= if_any(u).len() {
                    assert(units[i] == rest[i - if_any(u).len()]);
                } else {
                    assert(units[i] == u);
                }
            }
        },
        None => {
            let u = trim_codes(trim_zeros(t));
            lemma_trimmed(t);
            lemma_codes_trimmed(trim_zeros(t));
            assert(all.subrange(at, at + u.len()) =~= u);
            assert(follows_code(all, u, at));
        },
    }
}

/// Every NAL unit is a part of the stream that stands right behind a start code.
pub proof fn units_are_parts(t: Seq<u8>)
    ensures
        forall|i: int|
            0 <= i < annex_b_units(t).len() ==> is_unit_in(t, #[trigger] annex_b_units(t)[i]),
        forall|i: int|
            0 <= i < annex_b_units(t).len() ==> (#[trigger] annex_b_units(t)[i]).len() <= t.len(),
{
    lemma_next_code(t, 0);
    if let Some(n) = next_code(t, 0) {
        lemma_codes_end(t, n);
        lemma_codes_end_in_one(t, n);
        lemma_units_follow(t, codes_end(t, n));
        let units = annex_b_units(t);
        assert forall|i: int| 0 <= i < units.len() implies (#[trigger] units[i]).len()
            <= t.len() by {
            assert(is_unit_in(t, units[i]));
        }
    }
}

fn code_at(t: &[u8], i: usize) -> (n: usize)
    requires
        i <= t@.len(),
    ensures
        n == start_code_len(t@, i as int),
{
    if t.len() - i > 3 && t[i] == 0 && t[i + 1] == 0 {
        if t[i + 2] == 1 {
            3
        } else if t[i + 2] == 0 && t[i + 3] == 1 {
            4
        } else {
            0
        }
    } else {
        0
    }
}

/// Find the first run of start codes: where it begins and where it ends.
fn find_codes(t: &[u8]) -> (run: Option<(usize, usize)>)
    ensures
        match run {
            Some((n, e)) => next_code(t@, 0) == Some(n as int) && e == codes_end(t@, n as int) && n < e
                <= t@.len(),
            None => next_code(t@, 0) is None,
        },
{
    let len: usize = t.len();
    let mut i: usize = 0;
    while len - i > 3
        invariant
            len == t@.len(),
            i <= len,
            next_code(t@, 0) == next_code(t@, i as int),
        decreases t@.len() - i,
    {
        let first: usize = code_at(t, i);
        if first > 0 {
            proof {
                lemma_codes_end(t@, i as int);
            }
            let mut j: usize = i + first;
            let mut step: usize = code_at(t, j);
            while step > 0
                invariant
                    len == t@.len(),
                    i < j <= len,
                    step == start_code_len(t@, j as int),
                    codes_end(t@, i as int) == codes_end(t@, j as int),
                decreases t@.len() - j,
            {
                j = j + step;
                step = code_at(t, j);
            }
            return Some((i, j));
        }
        i = i + 1;
    }
    None
}

fn without_zeros(u: &[u8]) -> (r: &[u8])
    ensures
        r@ == trim_zeros(u@),
{
    let mut end: usize = u.len();
    assert(u@.take(end as int) =~= u@);
    while end > 0 && u[end - 1] == 0
        invariant
            end <= u@.len(),
            trim_zeros(u@) == trim_zeros(u@.take(end as int)),
        decreases end,
    {
        assert(u@.take(end as int).drop_last() =~= u@.take(end - 1));
        end = end - 1;
    }
    bytes::take(u, end)
}

fn without_codes(u: &[u8]) -> (r: &[u8])
    ensures
        r@ == trim_codes(u@),
{
    let mut end: usize = u.len();
    assert(u@.take(end as int) =~= u@);
    while end >= 3 && u[end - 3] == 0 && u[end - 2] == 0 && u[end - 1] == 1
        invariant
            end <= u@.len(),
            trim_codes(u@) == trim_codes(u@.take(end as int)),
        decreases end,
    {
        assert(u@.take(end as int).take(end - 3) =~= u@.take(end - 3));
        end = end - 3;
    }
    bytes::take(u, end)
}

/// Split an Annex-B stream into NAL units (start codes stripped).
///
/// Handles both 3-byte (`00 00 01`) and 4-byte (`00 00 00 01`) start codes, and
/// **groups of consecutive start codes** (some encoders emit a redundant
/// trailing start code before the real one). NAL payloads run between a start
/// code group's end and the next group's start.
pub fn split_annex_b<'a>(data: &'a [u8]) -> (nals: Vec<&'a [u8]>)
    ensures
        contents(nals@) == annex_b_units(data@),
        forall|i: int| 0 <= i < nals@.len() ==> (#[trigger] nals@[i])@.len() > 0,
{
    let mut nals: Vec<&'a [u8]> = Vec::new();
    let mut rest: &'a [u8] = match find_codes(data) {
        Some((_, e)) => bytes::skip(data, e),
        None => {
            assert(contents(nals@) =~= annex_b_units(data@));
            return nals;
        },
    };
    assert(contents(nals@) + units_after_code(rest@) =~= annex_b_units(data@));
    loop
        invariant
            contents(nals@) + units_after_code(rest@) == annex_b_units(data@),
            forall|i: int| 0 <= i < nals@.len() ==> (#[trigger] nals@[i])@.len() > 0,
        decreases rest@.len(),
    {
        let ghost before = nals@;
        match find_codes(rest) {
            Some((n, e)) => {
                let unit: &'a [u8] = without_zeros(bytes::take(rest, n));
                if unit.len() > 0 {
                    nals.push(unit);
                }
                assert(contents(nals@) =~= contents(before) + if_any(unit@));
                let next: &'a [u8] = bytes::skip(rest, e);
                assert(contents(nals@) + units_after_code(next@) =~= contents(before)
                    + units_after_code(rest@));
                rest = next;
            },
            None => {
                let unit: &'a [u8] = without_codes(without_zeros(rest));
                if unit.len() > 0 {
                    nals.push(unit);
                }
                assert(contents(nals@) =~= contents(before) + if_any(unit@));
                return nals;
            },
        }
    }
}

/// NAL units in one Annex-B packet, each behind a 4-byte start code.
pub open spec fn annex_b(units: Seq<Seq<u8>>) -> Seq<u8>
    decreases units.len(),
{
    if units.len() == 0 {
        Seq::empty()
    } else {
        seq![0u8, 0, 0, 1] + units.first() + annex_b(units.drop_first())
    }
}

/// One more unit at the end of an Annex-B packet.
proof fn lemma_annex_b_push(units: Seq<Seq<u8>>, u: Seq<u8>)
    ensures
        annex_b(units.push(u)) == annex_b(units) + seq![0u8, 0, 0, 1] + u,
    decreases units.len(),
{
    let more = units.push(u);
    if units.len() == 0 {
        assert(annex_b(more.drop_first()) == Seq::<u8>::empty());
        assert(annex_b(more) == seq![0u8, 0, 0, 1] + u + Seq::<u8>::empty());
        assert(annex_b(more) =~= annex_b(units) + seq![0u8, 0, 0, 1] + u);
    } else {
        assert(more.first() == units.first());
        assert(more.drop_first() =~= units.drop_first().push(u));
        lemma_annex_b_push(units.drop_first(), u);
        let code = seq![0u8, 0, 0, 1];
        let head = code + units.first();
        let tail = annex_b(units.drop_first());
        assert(annex_b(more) == head + (tail + code + u));
        assert(head + (tail + code + u) =~= (head + tail) + code + u);
    }
}

/// Assemble NAL units (without start codes) into one Annex-B packet with
/// 4-byte start codes — the inverse of [`split_annex_b`].
pub fn to_annex_b(nals: &[&[u8]]) -> (out: Vec<u8>)
    ensures
        out@ == annex_b(contents(nals@)),
{
    let mut out: Vec<u8> = Vec::new();
    let mut i: usize = 0;
    assert(contents(nals@).take(0) =~= Seq::empty());
    while i < nals.len()
        invariant
            i <= nals@.len(),
            out@ == annex_b(contents(nals@).take(i as int)),
        decreases nals@.len() - i,
    {
        proof {
            lemma_annex_b_push(contents(nals@).take(i as int), nals@[i as int]@);
            assert(contents(nals@).take(i + 1) =~= contents(nals@).take(i as int).push(
                nals@[i as int]@,
            ));
        }
        out.push(0);
        out.push(0);
        out.push(0);
        out.push(1);
        bytes::append(&mut out, nals[i]);
        assert(out@ =~= annex_b(contents(nals@).take(i as int)) + seq![0u8, 0, 0, 1]
            + nals@[i as int]@);
        i = i + 1;
    }
    assert(contents(nals@).take(i as int) =~= contents(nals@));
    out
}

/// A NAL unit as encoders emit it: not empty, not ending in a zero byte, and
/// without a start code inside (emulation prevention sees to that).
pub open spec fn is_escaped_unit(u: Seq<u8>) -> bool {
    &&& u.len() > 0
    &&& u.last() != 0
    &&& forall|i: int|
        0 <= i && i + 2 < u.len() ==> !(#[trigger] u[i] == 0 && u[i + 1] == 0 && u[i + 2] == 1)
}

proof fn lemma_units_after_code(u: Seq<u8>, units: Seq<Seq<u8>>)
    requires
        is_escaped_unit(u),
        forall|i: int| 0 <= i < units.len() ==> is_escaped_unit(#[trigger] units[i]),
    ensures
        units_after_code(u + annex_b(units)) == seq![u] + units,
        start_code_len(u + annex_b(units), 0) == 0,
    decreases units.len(),
{
    let t = u + annex_b(units);
    if units.len() == 0 {
        assert(t =~= u);
        assert forall|j: int| 0 <= j < t.len() implies start_code_len(t, j) == 0 by {
            if start_code_len(t, j) == 4 {
                assert(u[j + 1] == 0 && u[j + 2] == 0 && u[j + 3] == 1);
            }
        }
        lemma_next_code_from(t, 0, t.len() as int);
        assert(next_code(t, 0) is None);
        assert(seq![u] + units =~= if_any(u));
    } else {
        let v = units.first();
        let rest = units.drop_first();
        let tail = v + annex_b(rest);
        let n = u.len() as int;
        assert(is_escaped_unit(v));
        assert(annex_b(units) =~= seq![0u8, 0, 0, 1] + tail);
        assert(t.len() == n + 4 + tail.len());
        assert(forall|j: int| 0 <= j < n ==> t[j] == u[j]);
        assert(t[n] == 0 && t[n + 1] == 0 && t[n + 2] == 0 && t[n + 3] == 1);
        assert forall|j: int| 0 <= j < n implies start_code_len(t, j) == 0 by {
            if start_code_len(t, j) > 0 {
                assert(t[n - 1] == u.last());
                if start_code_len(t, j) == 3 {
                    assert(j + 2 < n);
                    assert(u[j] == 0 && u[j + 1] == 0 && u[j + 2] == 1);
                } else {
                    assert(j + 3 < n);
                    assert(u[j + 1] == 0 && u[j + 2] == 0 && u[j + 3] == 1);
                }
            }
        }
        lemma_next_code_from(t, 0, n);
        assert(start_code_len(t, n) == 4);
        assert(next_code(t, 0) == Some(n));
        lemma_units_after_code(v, rest);
        assert(t.skip(n + 4) =~= tail);
        assert(start_code_len(t, n + 4) == start_code_len(tail, 0)) by {
            assert(forall|j: int| 0 <= j < tail.len() ==> #[trigger] tail[j] == t[n + 4 + j]);
        }
        assert(codes_end(t, n + 4) == n + 4);
        assert(codes_end(t, n) == n + 4);
        assert(t.take(n) =~= u);
        assert(trim_zeros(u) == u);
        assert(seq![u] + units =~= if_any(u) + (seq![v] + rest));
    }
}

/// Splitting gives back what assembling put together, for every list of units
/// that are escaped as H.264 wants them.
pub proof fn annex_b_round_trip(units: Seq<Seq<u8>>)
    requires
        forall|i: int| 0 <= i < units.len() ==> is_escaped_unit(#[trigger] units[i]),
    ensures
        annex_b_units(annex_b(units)) == units,
{
    let t = annex_b(units);
    if units.len() == 0 {
        assert(annex_b_units(t) =~= units);
    } else {
        let u = units.first();
        let rest = units.drop_first();
        let tail = u + annex_b(rest);
        assert(is_escaped_unit(u));
        assert(t =~= seq![0u8, 0, 0, 1] + tail);
        lemma_units_after_code(u, rest);
        assert(start_code_len(t, 0) == 4);
        assert(t.skip(4) =~= tail);
        assert(start_code_len(t, 4) == start_code_len(tail, 0)) by {
            assert(forall|j: int| 0 <= j < tail.len() ==> #[trigger] tail[j] == t[4 + j]);
        }
        assert(codes_end(t, 4) == 4);
        assert(codes_end(t, 0) == 4);
        assert(seq![u] + rest =~= units);
    }
}

// ---------------------------------------------------------------------------
// Parameter sets and the decoder configuration record
// ---------------------------------------------------------------------------

/// The SPS and PPS that stand in a list of units: reading from the front until
/// one of each has been seen, the latest of each. `sps` and `pps` are those
/// already seen.
pub open spec fn parameter_sets(
    units: Seq<Seq<u8>>,
    sps: Option<Seq<u8>>,
    pps: Option<Seq<u8>>,
) -> Option<(Seq<u8>, Seq<u8>)>
    decreases units.len(),
{
    if units.len() == 0 {
        None
    } else {
        let u = units.first();
        let sps_now = if unit_type(u[0]) == 7 {
            Some(u)
        } else {
            sps
        };
        let pps_now = if unit_type(u[0]) == 8 {
            Some(u)
        } else {
            pps
        };
        if sps_now is Some && pps_now is Some {
            Some((sps_now->0, pps_now->0))
        } else {
            parameter_sets(units.drop_first(), sps_now, pps_now)
        }
    }
}

/// The content of an optional byte vector.
pub open spec fn opt_bytes(v: Option<Vec<u8>>) -> Option<Seq<u8>> {
    match v {
        Some(b) => Some(b@),
        None => None,
    }
}

/// The contents of an optional pair of byte vectors.
pub open spec fn opt_pair(v: Option<(Vec<u8>, Vec<u8>)>) -> Option<(Seq<u8>, Seq<u8>)> {
    match v {
        Some((a, b)) => Some((a@, b@)),
        None => None,
    }
}

/// Pull the SPS and PPS from a stream. Returns `(sps, pps)` if both found.
pub fn extract_sps_pps(data: &[u8]) -> (sets: Option<(Vec<u8>, Vec<u8>)>)
    ensures
        opt_pair(sets) == parameter_sets(annex_b_units(data@), None, None),
{
    let nals: Vec<&[u8]> = split_annex_b(data);
    let ghost units = annex_b_units(data@);
    let mut sps: Option<Vec<u8>> = None;
    let mut pps: Option<Vec<u8>> = None;
    let mut i: usize = 0;
    assert(units.skip(0) =~= units);
    while i < nals.len()
        invariant
            i <= nals@.len(),
            units == contents(nals@),
            units == annex_b_units(data@),
            forall|k: int| 0 <= k < nals@.len() ==> (#[trigger] nals@[k])@.len() > 0,
            parameter_sets(units, None, None) == parameter_sets(
                units.skip(i as int),
                opt_bytes(sps),
                opt_bytes(pps),
            ),
            !(sps is Some && pps is Some),
        decreases nals@.len() - i,
    {
        let nal: &[u8] = nals[i];
        assert(units.skip(i as int).first() == nal@);
        assert(units.skip(i as int).drop_first() =~= units.skip(i + 1));
        let t: u8 = nal_type(nal[0]);
        if t == NAL_SPS {
            sps = Some(bytes::copy_of(nal));
        } else if t == NAL_PPS {
            pps = Some(bytes::copy_of(nal));
        }
        i = i + 1;
        if sps.is_some() && pps.is_some() {
            match (sps, pps) {
                (Some(s), Some(p)) => {
                    return Some((s, p));
                },
                _ => {
                    return None;
                },
            }
        }
    }
    None
}

/// True if an Annex-B packet contains an IDR slice (i.e., is a keyframe).
/// Scans all NALs because the config packet carries SPS/PPS before the IDR.
pub fn contains_keyframe(data: &[u8]) -> (key: bool)
    ensures
        key == exists|i: int|
            0 <= i < annex_b_units(data@).len() && unit_type(#[trigger] annex_b_units(data@)[i][0])
                == 5,
{
    let nals: Vec<&[u8]> = split_annex_b(data);
    let ghost units = annex_b_units(data@);
    let mut i: usize = 0;
    while i < nals.len()
        invariant
            i <= nals@.len(),
            units == contents(nals@),
            units == annex_b_units(data@),
            forall|k: int| 0 <= k < nals@.len() ==> (#[trigger] nals@[k])@.len() > 0,
            forall|k: int| 0 <= k < i ==> unit_type(#[trigger] units[k][0]) != 5,
        decreases nals@.len() - i,
    {
        if nal_type(nals[i][0]) == NAL_IDR {
            assert(unit_type(units[i as int][0]) == 5);
            return true;
        }
        i = i + 1;
    }
    false
}

/// The fixed part of an `AVCDecoderConfigurationRecord`: version, then
/// profile, compatibility and level out of the SPS, four-byte NAL lengths, one
/// SPS.
pub open spec fn avcc_head(sps: Seq<u8>) -> Seq<u8> {
    seq![
        0x01u8,
        if sps.len() > 1 {
            sps[1]
        } else {
            0x64
        },
        if sps.len() > 2 {
            sps[2]
        } else {
            0
        },
        if sps.len() > 3 {
            sps[3]
        } else {
            0x1F
        },
        0xFF,
        0xE1,
    ]
}

/// The `AVCDecoderConfigurationRecord` for one SPS and one PPS. The lengths
/// are sixteen-bit fields.
pub open spec fn avcc_record(sps: Seq<u8>, pps: Seq<u8>) -> Seq<u8> {
    avcc_head(sps) + be16(sps.len() as int) + sps + seq![0x01u8] + be16(pps.len() as int) + pps
}

/// Build an `AVCDecoderConfigurationRecord` from SPS/PPS. This is what goes in
/// the FLV video-sequence header and tells every player how to decode. Profile
/// and level are read from the SPS so the record always matches the stream.
pub fn build_avcc(sps: &[u8], pps: &[u8]) -> (out: Vec<u8>)
    ensures
        out@ == avcc_record(sps@, pps@),
{
    let profile: u8 = if sps.len() > 1 {
        sps[1]
    } else {
        0x64
    };
    let compatibility: u8 = if sps.len() > 2 {
        sps[2]
    } else {
        0
    };
    let level: u8 = if sps.len() > 3 {
        sps[3]
    } else {
        0x1F
    };
    let mut out: Vec<u8> = Vec::new();
    out.push(0x01);  // configurationVersion
    out.push(profile);
    out.push(compatibility);
    out.push(level);
    out.push(0xFF);  // lengthSizeMinusOne = 3 -> 4-byte NAL lengths
    out.push(0xE1);  // numOfSequenceParameterSets
    let ghost head = out@;
    assert(head =~= avcc_head(sps@));
    let sps_len: u16 = (sps.len() % 0x1_0000) as u16;
    proof {
        bytes::lemma_be16_low(sps@.len() as int);
        bytes::lemma_be16_low(pps@.len() as int);
    }
    bytes::append_be16(&mut out, sps_len);
    bytes::append(&mut out, sps);
    let ghost part = out@;
    out.push(0x01);  // numOfPictureParameterSets
    assert(out@ =~= part + seq![0x01u8]);
    let pps_len: u16 = (pps.len() % 0x1_0000) as u16;
    bytes::append_be16(&mut out, pps_len);
    bytes::append(&mut out, pps);
    out
}

/// The parameter sets stored at `pos`, `count` of them, each behind a
/// sixteen-bit length; and where the last one ends. `None` when one of them
/// runs past the end of `d`.
pub open spec fn stored_sets(d: Seq<u8>, pos: int, count: nat) -> Option<(Seq<Seq<u8>>, int)>
    decreases count,
{
    if count == 0 {
        Some((Seq::empty(), pos))
    } else if pos + 2 > d.len() {
        None
    } else {
        let end = pos + 2 + from_be16(d.skip(pos));
        if end > d.len() {
            None
        } else {
            match stored_sets(d, end, (count - 1) as nat) {
                Some((sets, last)) => Some((seq![d.subrange(pos + 2, end)] + sets, last)),
                None => None,
            }
        }
    }
}

/// The first SPS and the first PPS of an `AVCDecoderConfigurationRecord`.
pub open spec fn avcc_sets(d: Seq<u8>) -> Option<(Seq<u8>, Seq<u8>)> {
    if d.len() < 7 || d[0] != 1 {
        None
    } else {
        match stored_sets(d, 6, (d[5] % 32) as nat) {
            Some((sps, p)) => if p < d.len() {
                match stored_sets(d, p + 1, d[p] as nat) {
                    Some((pps, _)) => if sps.len() > 0 && pps.len() > 0 {
                        Some((sps[0], pps[0]))
                    } else {
                        None
                    },
                    None => None,
                }
            } else {
                None
            },
            None => None,
        }
    }
}

/// Read `count` stored parameter sets at `pos`; keeps the first one.
fn read_sets(d: &[u8], pos: usize, count: u8) -> (r: Option<(Option<Vec<u8>>, usize)>)
    requires
        pos <= d@.len(),
    ensures
        match r {
            Some((first, end)) => stored_sets(d@, pos as int, count as nat) matches Some((sets, last))
                && last == end && end <= d@.len() && opt_bytes(first) == (if sets.len() > 0 {
                Some(sets[0])
            } else {
                None
            }),
            None => stored_sets(d@, pos as int, count as nat) is None,
        },
{
    let mut first: Option<Vec<u8>> = None;
    let mut at: usize = pos;
    let mut left: u8 = count;
    let ghost mut seen: Seq<Seq<u8>> = Seq::empty();
    proof {
        if let Some((sets, last)) = stored_sets(d@, pos as int, count as nat) {
            assert(seen + sets =~= sets);
        }
    }
    while left > 0
        invariant
            at <= d@.len(),
            stored_sets(d@, pos as int, count as nat) == (match stored_sets(
                d@,
                at as int,
                left as nat,
            ) {
                Some((sets, last)) => Some((seen + sets, last)),
                None => None,
            }),
            opt_bytes(first) == (if seen.len() > 0 {
                Some(seen[0])
            } else {
                None
            }),
        decreases left,
    {
        if d.len() - at < 2 {
            return None;
        }
        let len: usize = bytes::read_be16(d, at) as usize;
        if d.len() - at - 2 < len {
            return None;
        }
        let end: usize = at + 2 + len;
        let set: &[u8] = bytes::take(bytes::skip(d, at + 2), len);
        assert(set@ =~= d@.subrange(at + 2, end as int));
        if first.is_none() {
            first = Some(bytes::copy_of(set));
        }
        proof {
            if let Some((sets, last)) = stored_sets(d@, end as int, (left - 1) as nat) {
                assert(seen + (seq![set@] + sets) =~= seen.push(set@) + sets);
            }
            seen = seen.push(set@);
        }
        at = end;
        left = left - 1;
    }
    assert(seen + Seq::<Seq<u8>>::empty() =~= seen);
    Some((first, at))
}

/// Parse an `AVCDecoderConfigurationRecord`, returning the first SPS and PPS
/// it carries. Returns `None` on any truncation or structural violation.
pub fn extract_sps_pps_from_avcc(avcc: &[u8]) -> (sets: Option<(Vec<u8>, Vec<u8>)>)
    ensures
        opt_pair(sets) == avcc_sets(avcc@),
{
    if avcc.len() < 7 || avcc[0] != 1 {
        return None;
    }
    let (sps, pos): (Option<Vec<u8>>, usize) = match read_sets(avcc, 6, avcc[5] % 32) {
        Some(r) => r,
        None => {
            return None;
        },
    };
    if pos >= avcc.len() {
        return None;
    }
    let (pps, _): (Option<Vec<u8>>, usize) = match read_sets(avcc, pos + 1, avcc[pos]) {
        Some(r) => r,
        None => {
            return None;
        },
    };
    match (sps, pps) {
        (Some(s), Some(p)) => Some((s, p)),
        _ => None,
    }
}

/// A record gives back the parameter sets it was built from, as long as their
/// lengths fit the record's sixteen-bit fields.
pub proof fn avcc_round_trip(sps: Seq<u8>, pps: Seq<u8>)
    requires
        sps.len() < 0x1_0000,
        pps.len() < 0x1_0000,
    ensures
        avcc_sets(avcc_record(sps, pps)) == Some((sps, pps)),
{
    let d = avcc_record(sps, pps);
    let p: int = 8 + sps.len() as int;
    assert(d.len() == 6 + 2 + sps.len() + 1 + 2 + pps.len());
    assert(d[0] == 1 && d[5] == 0xE1);
    assert(d.skip(6)[0] == be16(sps.len() as int)[0]);
    assert(d.skip(6)[1] == be16(sps.len() as int)[1]);
    assert(d.subrange(8, p) =~= sps);
    assert(d[p] == 1);
    assert(d.skip(p + 1)[0] == be16(pps.len() as int)[0]);
    assert(d.skip(p + 1)[1] == be16(pps.len() as int)[1]);
    assert(d.subrange(p + 3, d.len() as int) =~= pps);
    assert(stored_sets(d, p, 0) == Some((Seq::<Seq<u8>>::empty(), p)));
    assert((stored_sets(d, 6, 1)->0).0 =~= seq![sps]);
    assert(stored_sets(d, d.len() as int, 0) == Some((Seq::<Seq<u8>>::empty(), d.len() as int)));
    assert((stored_sets(d, p + 1, 1)->0).0 =~= seq![pps]);
}

/// No strict prefix of a record is taken for a record.
pub proof fn truncated_records_are_refused(sps: Seq<u8>, pps: Seq<u8>, n: int)
    requires
        sps.len() < 0x1_0000,
        pps.len() < 0x1_0000,
        0 <= n < avcc_record(sps, pps).len(),
    ensures
        avcc_sets(avcc_record(sps, pps).take(n)) is None,
{
    let d = avcc_record(sps, pps);
    let c = d.take(n);
    let p: int = 8 + sps.len() as int;
    assert(d.len() == p + 3 + pps.len());
    assert(d[5] == 0xE1);
    if n >= 8 {
        assert(c.skip(6)[0] == be16(sps.len() as int)[0]);
        assert(c.skip(6)[1] == be16(sps.len() as int)[1]);
        assert(from_be16(c.skip(6)) == sps.len());
        assert(stored_sets(c, p, 0) == Some((Seq::<Seq<u8>>::empty(), p)));
        if n > p {
            assert((stored_sets(c, 6, 1)->0).1 == p);
            assert(c[p] == 1);
            if n >= p + 3 {
                assert(c.skip(p + 1)[0] == be16(pps.len() as int)[0]);
                assert(c.skip(p + 1)[1] == be16(pps.len() as int)[1]);
                assert(from_be16(c.skip(p + 1)) == pps.len());
            }
            assert(stored_sets(c, p + 1, 1) is None);
        }
    } else if n >= 7 {
        assert(stored_sets(c, 6, 1) is None);
    }
}

/// One-shot helper: extract SPS/PPS from an Annex-B packet and build the AVCC
/// record. Returns `None` when the packet lacks SPS or PPS.
pub fn annexb_to_avcc(data: &[u8]) -> (avcc: Option<Vec<u8>>)
    ensures
        opt_bytes(avcc) == (match parameter_sets(annex_b_units(data@), None, None) {
            Some((sps, pps)) => Some(avcc_record(sps, pps)),
            None => None,
        }),
{
    match extract_sps_pps(data) {
        Some((sps, pps)) => Some(build_avcc(sps.as_slice(), pps.as_slice())),
        None => None,
    }
}

// ---------------------------------------------------------------------------
// Length-prefixed units
// ---------------------------------------------------------------------------

/// Units in FLV's form: each behind its length in four big-endian bytes.
pub open spec fn length_prefixed(units: Seq<Seq<u8>>) -> Seq<u8>
    decreases units.len(),
{
    if units.len() == 0 {
        Seq::empty()
    } else {
        be32(units.first().len() as int) + units.first() + length_prefixed(units.drop_first())
    }
}

proof fn lemma_length_prefixed_push(units: Seq<Seq<u8>>, u: Seq<u8>)
    ensures
        length_prefixed(units.push(u)) == length_prefixed(units) + be32(u.len() as int) + u,
    decreases units.len(),
{
    let more = units.push(u);
    if units.len() == 0 {
        assert(length_prefixed(more.drop_first()) == Seq::<u8>::empty());
        assert(length_prefixed(more) == be32(u.len() as int) + u + Seq::<u8>::empty());
        assert(length_prefixed(more) =~= length_prefixed(units) + be32(u.len() as int) + u);
    } else {
        assert(more.first() == units.first());
        assert(more.drop_first() =~= units.drop_first().push(u));
        lemma_length_prefixed_push(units.drop_first(), u);
        let len = be32(u.len() as int);
        let head = be32(units.first().len() as int) + units.first();
        let tail = length_prefixed(units.drop_first());
        assert(length_prefixed(more) == head + (tail + len + u));
        assert(head + (tail + len + u) =~= (head + tail) + len + u);
    }
}

/// Convert NAL units to FLV's length-prefixed form (4-byte big-endian length
/// then the unit). NALs must not include start codes.
pub fn to_length_prefixed(nals: &[&[u8]]) -> (out: Vec<u8>)
    ensures
        out@ == length_prefixed(contents(nals@)),
{
    let mut out: Vec<u8> = Vec::new();
    let mut i: usize = 0;
    assert(contents(nals@).take(0) =~= Seq::empty());
    while i < nals.len()
        invariant
            i <= nals@.len(),
            out@ == length_prefixed(contents(nals@).take(i as int)),
        decreases nals@.len() - i,
    {
        proof {
            lemma_length_prefixed_push(contents(nals@).take(i as int), nals@[i as int]@);
            assert(contents(nals@).take(i + 1) =~= contents(nals@).take(i as int).push(
                nals@[i as int]@,
            ));
        }
        let len: u32 = (nals[i].len() as u64 % 0x1_0000_0000) as u32;
        proof {
            bytes::lemma_be32_low(nals@[i as int]@.len() as int);
        }
        bytes::append_be32(&mut out, len);
        bytes::append(&mut out, nals[i]);
        i = i + 1;
    }
    assert(contents(nals@).take(i as int) =~= contents(nals@));
    out
}

/// Reshape an entire Annex-B packet into one length-prefixed FLV payload.
pub fn annexb_to_length_prefixed(data: &[u8]) -> (out: Vec<u8>)
    ensures
        out@ == length_prefixed(annex_b_units(data@)),
{
    let nals: Vec<&[u8]> = split_annex_b(data);
    to_length_prefixed(nals.as_slice())
}

/// The units of a length-prefixed payload. `None` when a length is missing, is
/// zero, or runs past the end.
pub open spec fn prefixed_units(d: Seq<u8>) -> Option<Seq<Seq<u8>>>
    decreases d.len(),
{
    if d.len() == 0 {
        Some(Seq::empty())
    } else if d.len() < 4 {
        None
    } else {
        let len = from_be32(d);
        if len == 0 || 4 + len > d.len() {
            None
        } else {
            match prefixed_units(d.skip(4 + len)) {
                Some(units) => Some(seq![d.subrange(4, 4 + len)] + units),
                None => None,
            }
        }
    }
}

/// Parse length-prefixed NAL units (FLV's wire form) back into NAL slices.
/// Returns `None` when the buffer is truncated, a length field overruns the
/// buffer, or a NAL length is zero (malformed). Never panics on any input.
pub fn from_length_prefixed<'a>(data: &'a [u8]) -> (nals: Option<Vec<&'a [u8]>>)
    ensures
        match nals {
            Some(v) => prefixed_units(data@) == Some(contents(v@)),
            None => prefixed_units(data@) is None,
        },
{
    let mut out: Vec<&'a [u8]> = Vec::new();
    let mut rest: &'a [u8] = data;
    proof {
        if let Some(units) = prefixed_units(data@) {
            assert(contents(out@) + units =~= units);
        }
    }
    while rest.len() > 0
        invariant
            prefixed_units(data@) == (match prefixed_units(rest@) {
                Some(units) => Some(contents(out@) + units),
                None => None,
            }),
        decreases rest@.len(),
    {
        if rest.len() < 4 {
            return None;
        }
        let len: u32 = bytes::read_be32(rest, 0);
        assert(rest@.skip(0) =~= rest@);
        if len == 0 || (rest.len() - 4) as u64 <= len as u64 - 1 {
            return None;
        }
        let n: usize = len as usize;
        let nal: &'a [u8] = bytes::take(bytes::skip(rest, 4), n);
        let next: &'a [u8] = bytes::skip(rest, 4 + n);
        let ghost before = out@;
        out.push(nal);
        proof {
            assert(nal@ =~= rest@.subrange(4, 4 + len));
            assert(contents(out@) =~= contents(before).push(nal@));
            if let Some(units) = prefixed_units(next@) {
                assert(contents(before) + (seq![nal@] + units) =~= contents(out@) + units);
            }
        }
        rest = next;
    }
    assert(contents(out@) + Seq::<Seq<u8>>::empty() =~= contents(out@));
    Some(out)
}

proof fn lemma_framed_unit(head: Seq<u8>, u: Seq<u8>, rest: Seq<u8>, units: Seq<Seq<u8>>)
    requires
        head.len() == 4,
        u.len() > 0,
        from_be32(head + (u + rest)) == u.len(),
        prefixed_units(rest) == Some(units),
    ensures
        prefixed_units(head + (u + rest)) == Some(seq![u] + units),
{
    let d = head + (u + rest);
    assert(d.subrange(4, 4 + u.len() as int) =~= u);
    assert(d.skip(4 + u.len() as int) =~= rest);
}

proof fn lemma_prefixed_first(u: Seq<u8>, tail: Seq<u8>, units: Seq<Seq<u8>>)
    requires
        0 < u.len() < 0x1_0000_0000,
        prefixed_units(tail) == Some(units),
    ensures
        prefixed_units(be32(u.len() as int) + u + tail) == Some(seq![u] + units),
{
    let head = be32(u.len() as int);
    bytes::lemma_front_be32(u.len() as int, u + tail);
    lemma_framed_unit(head, u, tail, units);
    bytes::lemma_concat(head, u, tail);
}

/// What is accepted as length-prefixed units is rebuilt from them, byte for
/// byte.
#[verifier::rlimit(40)]
pub proof fn accepted_units_are_rebuilt(d: Seq<u8>)
    ensures
        prefixed_units(d) matches Some(units) ==> length_prefixed(units) == d,
    decreases d.len(),
{
    if d.len() == 0 {
        assert(length_prefixed(Seq::empty()) =~= d);
    } else if prefixed_units(d) is Some {
        let len = from_be32(d);
        let rest = d.skip(4 + len);
        let u = d.subrange(4, 4 + len);
        accepted_units_are_rebuilt(rest);
        let units = prefixed_units(rest)->0;
        let all = seq![u] + units;
        assert(all.first() == u);
        assert(all.drop_first() =~= units);
        bytes::lemma_be32_back(d);
        assert(be32(len) + u + rest =~= d);
    }
}

/// Length-prefixed units read back as they were written. A unit must not be
/// empty and its length must fit the four-byte field.
pub proof fn length_prefixed_round_trip(units: Seq<Seq<u8>>)
    requires
        forall|i: int|
            0 <= i < units.len() ==> 0 < (#[trigger] units[i]).len() < 0x1_0000_0000,
    ensures
        prefixed_units(length_prefixed(units)) == Some(units),
    decreases units.len(),
{
    let d = length_prefixed(units);
    if units.len() == 0 {
        assert(d =~= Seq::empty());
    } else {
        let u = units.first();
        let rest = units.drop_first();
        assert forall|i: int| 0 <= i < rest.len() implies 0 < (#[trigger] rest[i]).len()
            < 0x1_0000_0000 by {
            assert(rest[i] == units[i + 1]);
        }
        length_prefixed_round_trip(rest);
        assert(u == units[0]);
        lemma_prefixed_first(u, length_prefixed(rest), rest);
        assert(seq![u] + rest =~= units);
    }
}

// ---------------------------------------------------------------------------
// Sequence parameter set
// ---------------------------------------------------------------------------

/// Profiles that carry the extra chroma/bit-depth/scaling fields in the SPS.
pub open spec fn has_chroma_fields(profile: int) -> bool {
    profile == 100 || profile == 110 || profile == 122 || profile == 244 || profile == 44
        || profile == 83 || profile == 86 || profile == 118 || profile == 128
}

fn is_high_profile(profile: u8) -> (high: bool)
    ensures
        high == has_chroma_fields(profile as int),
{
    profile == 100 || profile == 110 || profile == 122 || profile == 244 || profile == 44
        || profile == 83 || profile == 86 || profile == 118 || profile == 128
}

/// The position behind what is left of a scaling list: `left` entries, the
/// last scale in force, and the next one. Once a scale is zero, nothing more
/// of the list is coded (H.264 7.3.2.1.1.1).
pub open spec fn skip_scaling_list(
    d: Seq<u8>,
    p: Option<int>,
    left: nat,
    last: int,
    next: int,
) -> Option<int>
    decreases left,
{
    if p is None || left == 0 || next == 0 {
        p
    } else {
        let scale = (last + se_at(d, p->0)) % 256;
        skip_scaling_list(
            d,
            skip_ue(d, p),
            (left - 1) as nat,
            if scale == 0 {
                last
            } else {
                scale
            },
            scale,
        )
    }
}

/// The position behind scaling lists `i` to `count`, each behind a flag that
/// says whether it is there. The first six have 16 entries, the others 64.
pub open spec fn skip_scaling_lists(d: Seq<u8>, p: Option<int>, i: nat, count: nat) -> Option<int>
    decreases count - i,
{
    if p is None || i >= count {
        p
    } else {
        let list = skip_bits(d, p, 1);
        skip_scaling_lists(
            d,
            if bit_at(d, p->0) == 1 {
                skip_scaling_list(
                    d,
                    list,
                    if i < 6 {
                        16
                    } else {
                        64
                    },
                    8,
                    8,
                )
            } else {
                list
            },
            i + 1,
            count,
        )
    }
}

/// The position behind the fields of the high profiles, which start at `p`
/// with chroma_format_idc.
pub open spec fn skip_chroma_fields(d: Seq<u8>, p: Option<int>) -> Option<int> {
    let chroma = ue_at(d, p->0);
    let after_idc = skip_ue(d, p);
    let depths = if chroma == 3 {
        skip_bits(d, after_idc, 1)  // separate_colour_plane_flag
    } else {
        after_idc
    };
    let bypass = skip_ue(d, skip_ue(d, depths));  // bit depths
    let scaling = skip_bits(d, bypass, 1);
    let lists = skip_bits(d, scaling, 1);
    if bit_at(d, scaling->0) == 1 {
        skip_scaling_lists(
            d,
            lists,
            0,
            if chroma == 3 {
                12
            } else {
                6
            },
        )
    } else {
        lists
    }
}

/// The position behind the picture-order-count fields, which start at `p` with
/// their type. A cycle of more than 255 entries is not accepted.
pub open spec fn skip_order_fields(d: Seq<u8>, p: Option<int>) -> Option<int> {
    let kind = ue_at(d, p->0);
    let q = skip_ue(d, p);
    if kind == 0 {
        skip_ue(d, q)
    } else if kind == 1 {
        let cycle = skip_ues(d, skip_bits(d, q, 1), 2);
        if ue_at(d, cycle->0) > 255 {
            None
        } else {
            skip_ues(d, skip_ue(d, cycle), ue_at(d, cycle->0) as nat)
        }
    } else {
        q
    }
}

/// chroma_format_idc of a sequence parameter set; 1 (4:2:0) where the profile
/// does not code it.
pub open spec fn chroma_format(d: Seq<u8>) -> int {
    if has_chroma_fields(d[1] as int) {
        ue_at(d, skip_ue(d, Some(32))->0)
    } else {
        1
    }
}

/// Where a sequence parameter set codes its width: behind 32 bits of header,
/// the set's id, the fields of the high profiles, log2_max_frame_num_minus4,
/// the picture-order-count fields, max_num_ref_frames and
/// gaps_in_frame_num_value_allowed_flag.
pub open spec fn width_position(d: Seq<u8>) -> Option<int> {
    let id = skip_bits(d, Some(0), 32);
    let chroma = skip_ue(d, id);
    let frame_num = if has_chroma_fields(d[1] as int) {
        skip_chroma_fields(d, chroma)
    } else {
        chroma
    };
    let references = skip_order_fields(d, skip_ue(d, frame_num));
    skip_bits(d, skip_ue(d, references), 1)
}

/// Width and height out of the coded fields: macroblocks across, map units
/// down, whether frames are coded whole, and the cropping in units that depend
/// on the chroma format (H.264 7.4.2.1.1). `None` when the size is not
/// positive or does not fit 32 bits.
pub open spec fn cropped_size(
    width_mbs: int,
    height_units: int,
    frame_only: int,
    chroma: int,
    crop_x: int,
    crop_y: int,
) -> Option<(u32, u32)> {
    let fields = 2 - frame_only;
    let unit_x = if chroma == 1 || chroma == 2 {
        2int
    } else {
        1
    };
    let unit_y = if chroma == 1 {
        2 * fields
    } else {
        fields
    };
    let width = width_mbs * 16 - crop_x * unit_x;
    let height = fields * height_units * 16 - crop_y * unit_y;
    if 0 < width <= u32::MAX && 0 < height <= u32::MAX {
        Some((width as u32, height as u32))
    } else {
        None
    }
}

/// The picture size coded at `p`.
pub open spec fn size_at(d: Seq<u8>, p: Option<int>, chroma: int) -> Option<(u32, u32)> {
    let height = skip_ue(d, p);
    let frame_only_at = skip_ue(d, height);
    let frame_only = bit_at(d, frame_only_at->0);
    // frame_mbs_only_flag, mb_adaptive_frame_field_flag, direct_8x8_inference_flag
    let crop = skip_bits(
        d,
        frame_only_at,
        if frame_only == 0 {
            3
        } else {
            2
        },
    );
    let left = skip_bits(d, crop, 1);
    let right = skip_ue(d, left);
    let top = skip_ue(d, right);
    let bottom = skip_ue(d, top);
    let width_mbs = ue_at(d, p->0) + 1;
    let height_units = ue_at(d, height->0) + 1;
    if left is None {
        None
    } else if bit_at(d, crop->0) == 0 {
        cropped_size(width_mbs, height_units, frame_only, chroma, 0, 0)
    } else if skip_ue(d, bottom) is None {
        None
    } else {
        cropped_size(
            width_mbs,
            height_units,
            frame_only,
            chroma,
            ue_at(d, left->0) + ue_at(d, right->0),
            ue_at(d, top->0) + ue_at(d, bottom->0),
        )
    }
}

/// The picture size that a sequence parameter set (header byte included)
/// codes; `None` for another NAL type, a field past the end of the data, and a
/// size that is not positive or does not fit 32 bits.
pub open spec fn sps_dimensions(d: Seq<u8>) -> Option<(u32, u32)> {
    if width_position(d) is None || unit_type(d[0]) != 7 {
        None
    } else {
        size_at(d, width_position(d), chroma_format(d))
    }
}

/// Skip one scaling list of `size` entries.
fn read_scaling_list(r: &mut BitReader<'_>, size: u32) -> (ok: Option<()>)
    requires
        old(r).valid(),
    ensures
        final(r).valid(),
        final(r).bytes() == old(r).bytes(),
        skip_scaling_list(old(r).bytes(), Some(old(r).pos()), size as nat, 8, 8) == (
        if ok is Some {
            Some(final(r).pos())
        } else {
            None
        }),
{
    let mut last: i64 = 8;
    let mut next: i64 = 8;
    let mut left: u32 = size;
    while left > 0 && next != 0
        invariant
            r.valid(),
            r.bytes() == old(r).bytes(),
            0 <= last < 256,
            0 <= next < 256,
            skip_scaling_list(old(r).bytes(), Some(old(r).pos()), size as nat, 8, 8)
                == skip_scaling_list(
                r.bytes(),
                Some(r.pos()),
                left as nat,
                last as int,
                next as int,
            ),
        decreases left,
    {
        proof {
            assert(skip_scaling_list(
                r.bytes(),
                None,
                (left - 1) as nat,
                if (last + se_at(r.bytes(), r.pos())) % 256 == 0 {
                    last as int
                } else {
                    (last + se_at(r.bytes(), r.pos())) % 256
                },
                (last + se_at(r.bytes(), r.pos())) % 256,
            ) is None);
        }
        let delta: i64 = match r.se() {
            Some(v) => v as i64,
            None => {
                return None;
            },
        };
        proof {
            vstd::arithmetic::div_mod::lemma_mod_multiples_vanish(0x80_0000, last + delta, 256);
        }
        // 2^31 is a multiple of 256: adding it keeps the dividend positive.
        next = (0x8000_0000 + (last + delta)) % 256;
        if next != 0 {
            last = next;
        }
        left = left - 1;
    }
    Some(())
}

/// Skip the fields of the high profiles; returns chroma_format_idc.
fn read_chroma_fields(r: &mut BitReader<'_>) -> (chroma: Option<u32>)
    requires
        old(r).valid(),
    ensures
        final(r).valid(),
        final(r).bytes() == old(r).bytes(),
        match chroma {
            Some(c) => skip_chroma_fields(old(r).bytes(), Some(old(r).pos())) == Some(
                final(r).pos(),
            ) && c == ue_at(old(r).bytes(), old(r).pos()),
            None => skip_chroma_fields(old(r).bytes(), Some(old(r).pos())) is None,
        },
{
    let chroma: u32 = r.ue()?;
    if chroma == 3 {
        let _flag: u32 = r.bit()?;  // separate_colour_plane_flag
    }
    let _luma: u32 = r.ue()?;  // bit_depth_luma_minus8
    let _depth: u32 = r.ue()?;  // bit_depth_chroma_minus8
    let _bypass: u32 = r.bit()?;  // qpprime_y_zero_transform_bypass_flag
    let scaling_present: u32 = r.bit()?;
    if scaling_present == 1 {
        let count: u32 = if chroma == 3 {
            12
        } else {
            6
        };
        let mut i: u32 = 0;
        let ghost start = r.pos();
        while i < count
            invariant
                r.valid(),
                r.bytes() == old(r).bytes(),
                i <= count,
                skip_scaling_lists(old(r).bytes(), Some(start), 0, count as nat)
                    == skip_scaling_lists(old(r).bytes(), Some(r.pos()), i as nat, count as nat),
                skip_chroma_fields(old(r).bytes(), Some(old(r).pos())) == skip_scaling_lists(
                    old(r).bytes(),
                    Some(start),
                    0,
                    count as nat,
                ),
            decreases count - i,
        {
            assert(skip_scaling_list(r.bytes(), None, 16, 8, 8) is None);
            assert(skip_scaling_list(r.bytes(), None, 64, 8, 8) is None);
            assert(skip_scaling_lists(r.bytes(), None, (i + 1) as nat, count as nat) is None);
            let present: u32 = r.bit()?;
            if present == 1 {
                let size: u32 = if i < 6 {
                    16
                } else {
                    64
                };
                read_scaling_list(r, size)?;
            }
            i = i + 1;
        }
    }
    Some(chroma)
}

/// Skip `n` Exp-Golomb codes.
fn read_ues(r: &mut BitReader<'_>, n: u32) -> (ok: Option<()>)
    requires
        old(r).valid(),
    ensures
        final(r).valid(),
        final(r).bytes() == old(r).bytes(),
        skip_ues(old(r).bytes(), Some(old(r).pos()), n as nat) == (if ok is Some {
            Some(final(r).pos())
        } else {
            None
        }),
{
    let mut left: u32 = n;
    while left > 0
        invariant
            r.valid(),
            r.bytes() == old(r).bytes(),
            skip_ues(old(r).bytes(), Some(old(r).pos()), n as nat) == skip_ues(
                old(r).bytes(),
                Some(r.pos()),
                left as nat,
            ),
        decreases left,
    {
        assert(skip_ues(r.bytes(), None, (left - 1) as nat) is None);
        let _code: u32 = r.ue()?;
        left = left - 1;
    }
    Some(())
}

/// Skip the picture-order-count fields.
fn read_order_fields(r: &mut BitReader<'_>) -> (ok: Option<()>)
    requires
        old(r).valid(),
    ensures
        final(r).valid(),
        final(r).bytes() == old(r).bytes(),
        skip_order_fields(old(r).bytes(), Some(old(r).pos())) == (if ok is Some {
            Some(final(r).pos())
        } else {
            None
        }),
{
    let kind: u32 = r.ue()?;
    if kind == 0 {
        let _lsb: u32 = r.ue()?;  // log2_max_pic_order_cnt_lsb_minus4
    } else if kind == 1 {
        let _zero: u32 = r.bit()?;  // delta_pic_order_always_zero_flag
        read_ues(r, 2)?;  // offset_for_non_ref_pic, offset_for_top_to_bottom_field
        let cycle: u32 = r.ue()?;
        if cycle > 255 {
            return None;
        }
        read_ues(r, cycle)?;
    }
    Some(())
}

/// Apply the cropping.
fn crop_size(
    width_mbs: u64,
    height_units: u64,
    frame_mbs_only: u32,
    chroma: u32,
    crop_x: u64,
    crop_y: u64,
) -> (size: Option<(u32, u32)>)
    requires
        width_mbs <= 0x1_0000_0000,
        height_units <= 0x1_0000_0000,
        frame_mbs_only <= 1,
        crop_x <= 0x2_0000_0000,
        crop_y <= 0x2_0000_0000,
    ensures
        size == cropped_size(
            width_mbs as int,
            height_units as int,
            frame_mbs_only as int,
            chroma as int,
            crop_x as int,
            crop_y as int,
        ),
{
    let fields: u64 = 2 - frame_mbs_only as u64;
    let unit_x: u64 = if chroma == 1 || chroma == 2 {
        2
    } else {
        1
    };
    let unit_y: u64 = if chroma == 1 {
        2 * fields
    } else {
        fields
    };
    assert(crop_x * unit_x <= 0x4_0000_0000) by (nonlinear_arith)
        requires
            crop_x <= 0x2_0000_0000,
            unit_x <= 2,
    ;
    assert(crop_y * unit_y <= 0x8_0000_0000) by (nonlinear_arith)
        requires
            crop_y <= 0x2_0000_0000,
            unit_y <= 4,
    ;
    assert(fields * height_units <= 0x2_0000_0000) by (nonlinear_arith)
        requires
            fields <= 2,
            height_units <= 0x1_0000_0000,
    ;
    let full_width: u64 = width_mbs * 16;
    let full_height: u64 = fields * height_units * 16;
    let cut_x: u64 = crop_x * unit_x;
    let cut_y: u64 = crop_y * unit_y;
    if full_width <= cut_x || full_height <= cut_y {
        return None;
    }
    let width: u64 = full_width - cut_x;
    let height: u64 = full_height - cut_y;
    if width > 0xFFFF_FFFF || height > 0xFFFF_FFFF {
        return None;
    }
    Some((width as u32, height as u32))
}

/// Read from the end of the header to the coded width; returns
/// chroma_format_idc.
fn read_to_width(r: &mut BitReader<'_>, profile: u8) -> (chroma: Option<u32>)
    requires
        old(r).valid(),
        old(r).pos() == 32,
        old(r).bytes().len() >= 4,
        profile == old(r).bytes()[1],
    ensures
        final(r).valid(),
        final(r).bytes() == old(r).bytes(),
        match chroma {
            Some(c) => width_position(old(r).bytes()) == Some(final(r).pos()) && c == chroma_format(
                old(r).bytes(),
            ),
            None => width_position(old(r).bytes()) is None,
        },
{
    let _id: u32 = r.ue()?;  // seq_parameter_set_id
    let chroma: u32 = if is_high_profile(profile) {
        read_chroma_fields(r)?
    } else {
        1
    };
    let _frame_num: u32 = r.ue()?;  // log2_max_frame_num_minus4
    read_order_fields(r)?;
    let _refs: u32 = r.ue()?;  // max_num_ref_frames
    let _gaps: u32 = r.bit()?;  // gaps_in_frame_num_value_allowed_flag
    Some(chroma)
}

/// Read the coded size.
fn read_size(r: &mut BitReader<'_>, chroma: u32) -> (size: Option<(u32, u32)>)
    requires
        old(r).valid(),
    ensures
        size == size_at(old(r).bytes(), Some(old(r).pos()), chroma as int),
{
    let width_mbs: u64 = r.ue()? as u64 + 1;
    let height_units: u64 = r.ue()? as u64 + 1;
    let frame_mbs_only: u32 = r.bit()?;
    if frame_mbs_only == 0 {
        let _adaptive: u32 = r.bit()?;  // mb_adaptive_frame_field_flag
    }
    let _inference: u32 = r.bit()?;  // direct_8x8_inference_flag
    let cropped: u32 = r.bit()?;
    if cropped == 0 {
        return crop_size(width_mbs, height_units, frame_mbs_only, chroma, 0, 0);
    }
    let left: u32 = r.ue()?;
    let right: u32 = r.ue()?;
    let top: u32 = r.ue()?;
    let bottom: u32 = r.ue()?;
    crop_size(
        width_mbs,
        height_units,
        frame_mbs_only,
        chroma,
        left as u64 + right as u64,
        top as u64 + bottom as u64,
    )
}

/// Parse the coded width and height out of a sequence parameter set (SPS NAL
/// payload, header byte included). Returns `None` on any truncation or
/// syntactic surprise — dimensions are informational, never worth a panic.
pub fn parse_sps_dimensions(sps: &[u8]) -> (size: Option<(u32, u32)>)
    ensures
        size == sps_dimensions(sps@),
{
    let mut r: BitReader<'_> = BitReader::new(sps);
    // NAL header, profile, constraint flags, level.
    if r.bits(32).is_none() {
        assert(skip_order_fields(sps@, None) is None);
        assert(skip_chroma_fields(sps@, None) is None);
        return None;
    }
    if nal_type(sps[0]) != NAL_SPS {
        return None;
    }
    let chroma: u32 = read_to_width(&mut r, sps[1])?;
    read_size(&mut r, chroma)
}

} // verus!
