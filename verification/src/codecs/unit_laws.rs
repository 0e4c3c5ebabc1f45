//! Laws of NAL units and AAC frames, from the side of whoever wrote them.

use vstd::prelude::*;

use crate::codecs::aac::{adts_fields, adts_payload, asc_bytes, is_adts};
use crate::codecs::h264::{
    annex_b_units, avcc_record, codes_end, if_any, is_escaped_unit, lemma_next_code_from,
    next_code, parameter_sets, start_code_len, trim_codes, trim_zeros, unit_type, units_after_code,
};
use crate::bytes;

verus! {

// ---------------------------------------------------------------------------
// Start codes
// ---------------------------------------------------------------------------

/// Units behind start codes of any length: in front of each stand so many zeros,
/// and a one.
pub open spec fn coded(zeros: Seq<nat>, units: Seq<Seq<u8>>) -> Seq<u8>
    decreases units.len(),
{
    if units.len() == 0 {
        Seq::empty()
    } else {
        Seq::new(zeros.first(), |i: int| 0u8) + seq![1u8] + units.first() + coded(
            zeros.drop_first(),
            units.drop_first(),
        )
    }
}

/// True of codes and units that a stream is made of: a code has two zeros or
/// more.
pub open spec fn codable_units(zeros: Seq<nat>, units: Seq<Seq<u8>>) -> bool {
    &&& zeros.len() == units.len()
    &&& forall|i: int| 0 <= i < zeros.len() ==> #[trigger] zeros[i] >= 2
    &&& forall|i: int| 0 <= i < units.len() ==> is_escaped_unit(#[trigger] units[i])
}

proof fn lemma_rest(zeros: Seq<nat>, units: Seq<Seq<u8>>)
    requires
        codable_units(zeros, units),
        units.len() > 0,
    ensures
        codable_units(zeros.drop_first(), units.drop_first()),
        zeros.first() >= 2,
        is_escaped_unit(units.first()),
{
    assert(zeros[0] >= 2 && is_escaped_unit(units[0]));
    let z = zeros.drop_first();
    let u = units.drop_first();
    assert forall|i: int| 0 <= i < z.len() implies #[trigger] z[i] >= 2 by {
        assert(z[i] == zeros[i + 1]);
    }
    assert forall|i: int| 0 <= i < u.len() implies is_escaped_unit(#[trigger] u[i]) by {
        assert(u[i] == units[i + 1]);
    }
}

proof fn lemma_trimmed(t: Seq<u8>, n: int, c: int)
    requires
        0 <= n <= c <= t.len(),
        n > 0 ==> t[n - 1] != 0,
        forall|j: int| n <= j < c ==> t[j] == 0,
    ensures
        trim_zeros(t.take(c)) == t.take(n),
    decreases c - n,
{
    if c > n {
        assert(t.take(c).drop_last() =~= t.take(c - 1));
        lemma_trimmed(t, n, c - 1);
    } else if n > 0 {
        assert(t.take(n).last() == t[n - 1]);
    }
}

/// A code of `g` zeros at `n`, with a unit in front of it and one behind it.
proof fn lemma_code(t: Seq<u8>, n: int, g: int, tail: Seq<u8>)
    requires
        0 <= n,
        g >= 2,
        t.len() == n + g + 1 + tail.len(),
        tail.len() > 0,
        n > 0 ==> t[n - 1] != 0,
        forall|j: int| n <= j < n + g ==> t[j] == 0,
        t[n + g] == 1,
        t.skip(n + g + 1) == tail,
        start_code_len(tail, 0) == 0,
        forall|i: int|
            0 <= i && i + 2 < n ==> !(#[trigger] t[i] == 0 && t[i + 1] == 0 && t[i + 2] == 1),
    ensures
        next_code(t, 0) matches Some(c) && {
            &&& n <= c < codes_end(t, c)
            &&& codes_end(t, c) == n + g + 1
            &&& trim_zeros(t.take(c)) == t.take(n)
        },
{
    let c = if g == 2 {
        n
    } else {
        n + g - 3
    };
    assert forall|j: int| 0 <= j < c implies start_code_len(t, j) == 0 by {
        if start_code_len(t, j) > 0 {
            if j >= n {
                assert(t[j + 2] == 0 && t[j + 3] == 0);
            } else if start_code_len(t, j) == 3 {
                assert(j + 2 < n);
                assert(t[j] == 0 && t[j + 1] == 0 && t[j + 2] == 1);
            } else {
                assert(j + 3 < n);
                assert(t[j + 1] == 0 && t[j + 2] == 0 && t[j + 3] == 1);
            }
        }
    }
    let e = n + g + 1;
    assert(start_code_len(t, c) == e - c);
    lemma_next_code_from(t, 0, c);
    assert(next_code(t, 0) == Some(c));
    assert(start_code_len(t, e) == start_code_len(tail, 0)) by {
        assert(forall|j: int| 0 <= j < tail.len() ==> #[trigger] tail[j] == t[e + j]);
    }
    assert(codes_end(t, e) == e);
    assert(codes_end(t, c) == e);
    lemma_trimmed(t, n, c);
}

proof fn lemma_coded_after(u: Seq<u8>, zeros: Seq<nat>, units: Seq<Seq<u8>>)
    requires
        is_escaped_unit(u),
        codable_units(zeros, units),
    ensures
        units_after_code(u + coded(zeros, units)) == seq![u] + units,
        start_code_len(u + coded(zeros, units), 0) == 0,
    decreases units.len(),
{
    let t = u + coded(zeros, units);
    let n = u.len() as int;
    assert(t[n - 1] == u.last());
    if units.len() == 0 {
        assert(t =~= u);
        assert forall|j: int| 0 <= j < t.len() implies start_code_len(t, j) == 0 by {
            if start_code_len(t, j) == 4 {
                assert(u[j + 1] == 0 && u[j + 2] == 0 && u[j + 3] == 1);
            }
        }
        lemma_next_code_from(t, 0, t.len() as int);
        assert(next_code(t, 0) is None);
        assert(trim_zeros(u) == u && trim_codes(u) == u);
        assert(seq![u] + units =~= if_any(u));
    } else {
        lemma_rest(zeros, units);
        let g = zeros.first();
        let v = units.first();
        let rest = units.drop_first();
        let tail = v + coded(zeros.drop_first(), rest);
        lemma_coded_after(v, zeros.drop_first(), rest);
        assert(t =~= u + Seq::new(g, |i: int| 0u8) + seq![1u8] + tail);
        assert(t.skip(n + g + 1) =~= tail);
        assert(forall|j: int| 0 <= j < n ==> t[j] == u[j]);
        assert forall|i: int| 0 <= i && i + 2 < n implies !(#[trigger] t[i] == 0 && t[i + 1] == 0
            && t[i + 2] == 1) by {
            assert(t[i] == u[i] && t[i + 1] == u[i + 1] && t[i + 2] == u[i + 2]);
        }
        lemma_code(t, n, g as int, tail);
        assert(t.take(n) =~= u);
        assert(start_code_len(t, 0) == 0) by {
            if start_code_len(t, 0) > 0 {
                if start_code_len(t, 0) == 3 {
                    assert(u[0] == 0 && u[1] == 0 && u[2] == 1);
                } else {
                    assert(u[1] == 0 && u[2] == 0 && u[3] == 1);
                }
            }
        }
        assert(seq![u] + units =~= if_any(u) + (seq![v] + rest));
    }
}

/// Whatever the length of the start codes, the units between them are read, each
/// byte for byte and in order.
pub proof fn any_start_codes_are_read(zeros: Seq<nat>, units: Seq<Seq<u8>>)
    requires
        codable_units(zeros, units),
    ensures
        annex_b_units(coded(zeros, units)) == units,
{
    let t = coded(zeros, units);
    if units.len() == 0 {
        assert(annex_b_units(t) =~= units);
    } else {
        lemma_rest(zeros, units);
        let g = zeros.first();
        let u = units.first();
        let rest = units.drop_first();
        let tail = u + coded(zeros.drop_first(), rest);
        lemma_coded_after(u, zeros.drop_first(), rest);
        assert(t =~= Seq::new(g, |i: int| 0u8) + seq![1u8] + tail);
        assert(t.skip(g as int + 1) =~= tail);
        lemma_code(t, 0, g as int, tail);
        assert(seq![u] + rest =~= units);
    }
}

/// The type of a unit is the low five bits of its first byte, whatever the
/// forbidden bit and the reference bits above it are.
pub proof fn unit_types_are_read(forbidden: u8, reference: u8, kind: u8)
    requires
        forbidden < 2,
        reference < 4,
        kind < 32,
    ensures
        unit_type((forbidden * 128 + reference * 32 + kind) as u8) == kind,
{
}

// ---------------------------------------------------------------------------
// Parameter sets
// ---------------------------------------------------------------------------

/// True if `u` is one of the units, and of this type.
pub open spec fn is_among(units: Seq<Seq<u8>>, u: Seq<u8>, kind: u8) -> bool {
    exists|i: int| 0 <= i < units.len() && #[trigger] units[i] == u && unit_type(u[0]) == kind
}

/// True if one of the units is of this type.
pub open spec fn has_kind(units: Seq<Seq<u8>>, kind: u8) -> bool {
    exists|i: int| 0 <= i < units.len() && unit_type((#[trigger] units[i])[0]) == kind
}

proof fn lemma_sets(units: Seq<Seq<u8>>, sps: Option<Seq<u8>>, pps: Option<Seq<u8>>)
    requires
        sps is None || pps is None,
    ensures
        parameter_sets(units, sps, pps) is Some <==> units.len() > 0 && (has_kind(units, 7)
            || sps is Some) && (has_kind(units, 8) || pps is Some),
        parameter_sets(units, sps, pps) matches Some((s, p)) ==> {
            &&& is_among(units, s, 7) || sps == Some(s)
            &&& is_among(units, p, 8) || pps == Some(p)
        },
    decreases units.len(),
{
    if units.len() > 0 {
        let u = units.first();
        let rest = units.drop_first();
        assert(units[0] == u);
        let s = if unit_type(u[0]) == 7 {
            Some(u)
        } else {
            sps
        };
        let p = if unit_type(u[0]) == 8 {
            Some(u)
        } else {
            pps
        };
        if s is None || p is None {
            lemma_sets(rest, s, p);
            lemma_kinds(units, 7);
            lemma_kinds(units, 8);
            if let Some((a, b)) = parameter_sets(rest, s, p) {
                lemma_among(units, a, 7);
                lemma_among(units, b, 8);
            }
            if rest.len() == 0 {
                assert(!has_kind(rest, 7) && !has_kind(rest, 8));
            }
        }
    }
}

proof fn lemma_kinds(units: Seq<Seq<u8>>, kind: u8)
    requires
        units.len() > 0,
    ensures
        has_kind(units, kind) <==> unit_type(units[0][0]) == kind || has_kind(
            units.drop_first(),
            kind,
        ),
{
    let rest = units.drop_first();
    if has_kind(units, kind) && unit_type(units[0][0]) != kind {
        let i = choose|i: int|
            0 <= i < units.len() && unit_type((#[trigger] units[i])[0]) == kind;
        assert(rest[i - 1] == units[i]);
    }
    if has_kind(rest, kind) {
        let i = choose|i: int| 0 <= i < rest.len() && unit_type((#[trigger] rest[i])[0]) == kind;
        assert(units[i + 1] == rest[i]);
    }
}

proof fn lemma_among(units: Seq<Seq<u8>>, u: Seq<u8>, kind: u8)
    requires
        units.len() > 0,
    ensures
        is_among(units.drop_first(), u, kind) ==> is_among(units, u, kind),
        units[0] == u && unit_type(u[0]) == kind ==> is_among(units, u, kind),
{
    let rest = units.drop_first();
    if is_among(rest, u, kind) {
        let i = choose|i: int|
            0 <= i < rest.len() && #[trigger] rest[i] == u && unit_type(u[0]) == kind;
        assert(units[i + 1] == u);
    }
}

/// Parameter sets are found if and only if there is one of each among the units,
/// and what is found are units of these two types.
pub proof fn parameter_sets_are_found(units: Seq<Seq<u8>>)
    ensures
        parameter_sets(units, None, None) is Some <==> has_kind(units, 7) && has_kind(units, 8),
        parameter_sets(units, None, None) matches Some((s, p)) ==> is_among(units, s, 7)
            && is_among(units, p, 8),
{
    lemma_sets(units, None, None);
}

/// A decoder configuration record: version 1; profile, compatibility and level as
/// the SPS has them; lengths of four bytes; then one SPS and one PPS, each behind
/// its length.
pub proof fn records_are_laid_out(sps: Seq<u8>, pps: Seq<u8>)
    requires
        4 <= sps.len() < 0x1_0000,
        pps.len() < 0x1_0000,
    ensures
        ({
            let d = avcc_record(sps, pps);
            let n = sps.len() as int;
            &&& d.len() == 11 + n + pps.len()
            &&& d[0] == 1
            &&& d[1] == sps[1] && d[2] == sps[2] && d[3] == sps[3]
            &&& d[4] % 4 + 1 == 4
            &&& d[5] % 32 == 1
            &&& d[6] * 0x100 + d[7] == n
            &&& d.subrange(8, 8 + n) == sps
            &&& d[8 + n] == 1
            &&& d[9 + n] * 0x100 + d[10 + n] == pps.len()
            &&& d.skip(11 + n) == pps
        }),
{
    let d = avcc_record(sps, pps);
    let n = sps.len() as int;
    bytes::bytes_are_in_order(n);
    bytes::bytes_are_in_order(pps.len() as int);
    assert(d.subrange(8, 8 + n) =~= sps);
    assert(d.skip(11 + n) =~= pps);
}

// ---------------------------------------------------------------------------
// AAC
// ---------------------------------------------------------------------------

/// The fields of an ADTS header, as an encoder sets them.
pub struct AdtsFields {
    /// Four bits: the version and the layer, and whether there is no checksum in
    /// the lowest.
    pub kind: int,
    /// The object type less one, two bits.
    pub profile: int,
    /// Four bits.
    pub frequency: int,
    /// Three bits.
    pub channels: int,
    /// Header and payload, thirteen bits.
    pub length: int,
    /// The private bit.
    pub private: int,
    /// The four bits between channels and length.
    pub marks: int,
    /// The five bits of the buffer's fullness behind the length.
    pub fullness: int,
}

/// True of fields that fit their bits.
pub open spec fn fits_adts(f: AdtsFields) -> bool {
    &&& 0 <= f.kind < 16
    &&& 0 <= f.profile < 4
    &&& 0 <= f.frequency < 16
    &&& 0 <= f.channels < 8
    &&& 0 <= f.length < 0x2000
    &&& 0 <= f.private < 2
    &&& 0 <= f.marks < 16
    &&& 0 <= f.fullness < 32
}

/// The first six bytes of an ADTS header.
pub open spec fn adts_start(f: AdtsFields) -> Seq<u8> {
    let top = ((((f.profile * 16 + f.frequency) * 2 + f.private) * 8 + f.channels) * 16 + f.marks)
        * 0x2000 + f.length;
    let all = top * 32 + f.fullness;
    seq![
        0xFFu8,
        (0xF0 + f.kind) as u8,
        (all / 0x100_0000) as u8,
        (all / 0x1_0000 % 0x100) as u8,
        (all / 0x100 % 0x100) as u8,
        (all % 0x100) as u8,
    ]
}

/// An ADTS header tells what the encoder put into it, and the frame is what
/// stands behind it: behind seven bytes, or behind nine with a checksum.
#[verifier::rlimit(40)]
pub proof fn adts_headers_are_read(f: AdtsFields, rest: Seq<u8>)
    requires
        fits_adts(f),
        rest.len() >= if f.kind % 2 == 1 {
            1int
        } else {
            3
        },
    ensures
        ({
            let d = adts_start(f) + rest;
            let h = adts_fields(d);
            &&& is_adts(d)
            &&& h.object_type == f.profile + 1
            &&& h.sampling_frequency_index == f.frequency
            &&& h.channel_config == f.channels
            &&& h.frame_length == f.length
            &&& h.header_length == if f.kind % 2 == 1 {
                7int
            } else {
                9
            }
            &&& adts_payload(d) == rest.skip(h.header_length - 6)
        }),
{
    let d = adts_start(f) + rest;
    let top = ((((f.profile * 16 + f.frequency) * 2 + f.private) * 8 + f.channels) * 16 + f.marks)
        * 0x2000 + f.length;
    let all = top * 32 + f.fullness;
    assert(d[0] == 0xFF && d[1] == 0xF0 + f.kind);
    lemma_adts_bytes(f, all);
    assert(d[2] == adts_start(f)[2] && d[3] == adts_start(f)[3] && d[4] == adts_start(f)[4] && d[5]
        == adts_start(f)[5]);
    assert(adts_payload(d) =~= rest.skip(adts_fields(d).header_length - 6));
}

proof fn lemma_adts_bytes(f: AdtsFields, all: int)
    requires
        fits_adts(f),
        all == (((((f.profile * 16 + f.frequency) * 2 + f.private) * 8 + f.channels) * 16
            + f.marks) * 0x2000 + f.length) * 32 + f.fullness,
    ensures
        all / 0x100_0000 == f.profile * 64 + f.frequency * 4 + f.private * 2 + f.channels / 4,
        all / 0x1_0000 % 0x100 == f.channels % 4 * 64 + f.marks * 4 + f.length / 0x800,
        all / 0x100 % 0x100 == f.length / 8 % 0x100,
        all % 0x100 == f.length % 8 * 32 + f.fullness,
{
    let a = f.profile * 64 + f.frequency * 4 + f.private * 2 + f.channels / 4;
    let b = f.channels % 4 * 64 + f.marks * 4 + f.length / 0x800;
    let c = f.length / 8 % 0x100;
    let d = f.length % 8 * 32 + f.fullness;
    lemma_parts(f.length, f.channels);
    assert(0 <= b < 0x100 && 0 <= d < 0x100);
    lemma_four_bytes(all, a, b, c, d);
}

proof fn lemma_parts(length: int, channels: int)
    requires
        0 <= length < 0x2000,
        0 <= channels < 8,
    ensures
        length == length / 0x800 * 0x800 + length / 8 % 0x100 * 8 + length % 8,
        channels == channels / 4 * 4 + channels % 4,
        0 <= length / 0x800 < 4,
        0 <= length / 8 % 0x100 < 0x100,
        0 <= length % 8 < 8,
        0 <= channels % 4 < 4,
{
    let h = length / 8;
    assert(length / 0x800 == h / 0x100);
    assert(h == h / 0x100 * 0x100 + h % 0x100);
}

proof fn lemma_four_bytes(all: int, a: int, b: int, c: int, d: int)
    requires
        all == a * 0x100_0000 + b * 0x1_0000 + c * 0x100 + d,
        0 <= a,
        0 <= b < 0x100,
        0 <= c < 0x100,
        0 <= d < 0x100,
    ensures
        all / 0x100_0000 == a,
        all / 0x1_0000 % 0x100 == b,
        all / 0x100 % 0x100 == c,
        all % 0x100 == d,
{
    assert(all / 0x100 == a * 0x1_0000 + b * 0x100 + c);
    assert(all / 0x1_0000 == a * 0x100 + b);
}

/// An `AudioSpecificConfig` is two bytes: five bits of object type less one, four
/// of frequency, four of channels, and three zeros.
pub proof fn audio_configurations_are_laid_out(object_type: int, frequency: int, channels: int)
    requires
        1 <= object_type <= 32,
        0 <= frequency < 16,
        0 <= channels < 16,
    ensures
        ({
            let d = asc_bytes(object_type, frequency, channels);
            &&& d.len() == 2
            &&& d[0] * 0x100 + d[1] == (object_type - 1) * 0x800 + frequency * 0x80 + channels * 8
        }),
{
}

} // verus!
