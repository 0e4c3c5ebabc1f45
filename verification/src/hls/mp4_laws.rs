//! ISO base media files from the reader's side: what a player finds in an
//! initialization segment and in a media segment.

use vstd::prelude::*;

use crate::bytes;
use crate::bytes::{be16, be24, be32, zeros};
use crate::hls::mp4::{
    audio_trak, avc1, decoder_config, descriptor, dinf, empty_table, es_descriptor, ftyp,
    full_box, hdlr, init_bytes, low16, mdhd, mdia, media_data, minf, moof, moof_len, mp4_box,
    mp4a, mvhd, run_entries, run_entry, runs_point_at_their_samples, sample_data, segment_bytes,
    smhd, stsd, stsz, styp, tkhd, traf, trafs, trex, trun, unity_matrix, video_trak, vmhd,
    AudioTrackView, FragmentView, SampleView, VideoTrackView,
};

verus! {

// ---------------------------------------------------------------------------
// Reading boxes
// ---------------------------------------------------------------------------

/// The number in the two bytes at `p`.
#[verifier::opaque]
pub open spec fn half(d: Seq<u8>, p: int) -> int {
    d[p] * 0x100 + d[p + 1]
}

/// The number in the four bytes at `p`.
#[verifier::opaque]
pub open spec fn word(d: Seq<u8>, p: int) -> int {
    d[p] * 0x100_0000 + d[p + 1] * 0x1_0000 + d[p + 2] * 0x100 + d[p + 3]
}

/// The boxes in `d`: the kind and the contents of each. A box begins with its
/// length, these four bytes and the four of its kind included.
#[verifier::opaque]
pub open spec fn boxes(d: Seq<u8>) -> Seq<(int, Seq<u8>)>
    decreases d.len(),
{
    if d.len() >= 8 && 8 <= word(d, 0) <= d.len() {
        seq![(word(d, 4), d.subrange(8, word(d, 0)))] + boxes(d.skip(word(d, 0)))
    } else {
        Seq::empty()
    }
}

proof fn lemma_word(x: int, d: Seq<u8>, p: int)
    requires
        0 <= p,
        p + 4 <= d.len(),
        d.subrange(p, p + 4) == be32(x),
    ensures
        word(d, p) == x % 0x1_0000_0000,
{
    reveal(word);
    let y = x % 0x1_0000_0000;
    let s = d.subrange(p, p + 4);
    assert(s[0] == d[p] && s[1] == d[p + 1] && s[2] == d[p + 2] && s[3] == d[p + 3]);
    bytes::bytes_are_in_order(y);
    lemma_be32_any(x);
}

proof fn lemma_be32_any(x: int)
    ensures
        be32(x % 0x1_0000_0000) == be32(x),
{
    if x >= 0 {
        bytes::lemma_be32_low(x);
    } else {
        let y = x % 0x1_0000_0000;
        let q = x / 0x1_0000_0000;
        assert(x == 0x1_0000_0000 * q + y);
        assert(x / 0x100_0000 == 0x100 * q + y / 0x100_0000);
        assert(x / 0x1_0000 == 0x1_0000 * q + y / 0x1_0000);
        assert(x / 0x100 == 0x100_0000 * q + y / 0x100);
        assert(be32(y) =~= be32(x));
    }
}

proof fn lemma_half(x: int, d: Seq<u8>, p: int)
    requires
        0 <= p,
        p + 2 <= d.len(),
        0 <= x < 0x1_0000,
        d.subrange(p, p + 2) == be16(x),
    ensures
        half(d, p) == x,
{
    reveal(half);
    let s = d.subrange(p, p + 2);
    assert(s[0] == d[p] && s[1] == d[p + 1]);
    bytes::bytes_are_in_order(x);
}

/// `part` stands in `d` at `p`.
#[verifier::opaque]
spec fn stands(d: Seq<u8>, p: int, part: Seq<u8>) -> bool {
    0 <= p && p + part.len() <= d.len() && d.subrange(p, p + part.len()) == part
}

proof fn lemma_stands(a: Seq<u8>, b: Seq<u8>, c: Seq<u8>)
    ensures
        stands(a + b + c, a.len() as int, b),
        stands(a + b, a.len() as int, b),
        stands(a + b, 0, a),
{
    reveal(stands);
    assert((a + b + c).subrange(a.len() as int, (a.len() + b.len()) as int) =~= b);
    assert((a + b).subrange(a.len() as int, (a.len() + b.len()) as int) =~= b);
    assert((a + b).subrange(0, a.len() as int) =~= a);
}

proof fn lemma_stands_in(d: Seq<u8>, p: int, part: Seq<u8>, q: int, small: Seq<u8>)
    requires
        stands(d, p, part),
        stands(part, q, small),
    ensures
        stands(d, p + q, small),
{
    reveal(stands);
    assert(d.subrange(p + q, p + q + small.len()) =~= part.subrange(q, q + small.len()));
}

/// A track fragment.
#[verifier::opaque]
spec fn tr(f: FragmentView, offset: int) -> Seq<u8> {
    traf(f, offset)
}

/// The track fragments.
#[verifier::opaque]
spec fn trs(f: Seq<FragmentView>, start: int) -> Seq<u8> {
    trafs(f, start)
}

proof fn lemma_trs(f: Seq<FragmentView>, start: int)
    ensures
        f.len() == 0 ==> trs(f, start) == Seq::<u8>::empty(),
        f.len() > 0 ==> trs(f, start) == trs(f.drop_last(), start) + tr(
            f.last(),
            start + media_data(f.drop_last()).len(),
        ),
{
    reveal(tr);
    reveal(trs);
}

/// A number in four bytes.
#[verifier::opaque]
spec fn num(x: int) -> Seq<u8> {
    be32(x)
}

/// A box.
#[verifier::opaque]
spec fn bx(kind: u32, payload: Seq<u8>) -> Seq<u8> {
    mp4_box(kind, payload)
}

/// A box with a version and flags.
#[verifier::opaque]
spec fn fbx(kind: u32, version: u8, flags: u32, payload: Seq<u8>) -> Seq<u8> {
    full_box(kind, version, flags, payload)
}

proof fn lemma_num(x: int)
    ensures
        num(x).len() == 4,
{
    reveal(num);
    bytes::bytes_are_in_order(x);
}

/// The number that stands at `p`.
proof fn lemma_number(d: Seq<u8>, p: int, part: Seq<u8>, x: int)
    requires
        stands(d, p, part),
        part == num(x),
    ensures
        word(d, p) == x % 0x1_0000_0000,
{
    reveal(num);
    reveal(stands);
    bytes::bytes_are_in_order(x);
    lemma_word(x, d, p);
}

proof fn lemma_four(a: Seq<u8>, b: Seq<u8>, c: Seq<u8>, e: Seq<u8>)
    requires
        a.len() == 4 && b.len() == 4 && c.len() == 4,
    ensures
        stands(a + b + c + e, 0, a),
        stands(a + b + c + e, 4, b),
        stands(a + b + c + e, 8, c),
        stands(a + b + c + e, 12, e),
{
    reveal(stands);
    let d = a + b + c + e;
    assert(d.subrange(0, 4) =~= a);
    assert(d.subrange(4, 8) =~= b);
    assert(d.subrange(8, 12) =~= c);
    assert(d.subrange(12, 12 + e.len() as int) =~= e);
}

/// True if `d` is a box of this kind and with these contents.
#[verifier::opaque]
spec fn is_box(d: Seq<u8>, kind: int, payload: Seq<u8>) -> bool {
    &&& 0 <= kind < 0x1_0000_0000
    &&& 8 + payload.len() < 0x1_0000_0000
    &&& d.len() == 8 + payload.len()
    &&& stands(d, 0, num(8 + payload.len() as int))
    &&& stands(d, 4, num(kind))
    &&& stands(d, 8, payload)
}

proof fn lemma_is_box(kind: u32, payload: Seq<u8>)
    requires
        8 + payload.len() < 0x1_0000_0000,
    ensures
        is_box(bx(kind, payload), kind as int, payload),
        bx(kind, payload).len() == 8 + payload.len(),
{
    let a = num(8 + payload.len() as int);
    let b = num(kind as int);
    assert(bx(kind, payload) == a + b + payload) by {
        reveal(bx);
        reveal(num);
    }
    lemma_num(8 + payload.len() as int);
    lemma_num(kind as int);
    lemma_parts_make_a_box(kind as int, a, b, payload);
}

proof fn lemma_parts_make_a_box(kind: int, a: Seq<u8>, b: Seq<u8>, payload: Seq<u8>)
    requires
        0 <= kind < 0x1_0000_0000,
        8 + payload.len() < 0x1_0000_0000,
        a == num(8 + payload.len() as int),
        b == num(kind),
        a.len() == 4,
        b.len() == 4,
    ensures
        is_box(a + b + payload, kind, payload),
{
    reveal(is_box);
    lemma_stands(a, b, payload);
    lemma_stands(a + b, payload, Seq::empty());
    lemma_stands(a, b + payload, Seq::empty());
    bytes::lemma_concat(a, b, payload);
}

proof fn lemma_box_front(d: Seq<u8>, kind: int, payload: Seq<u8>, rest: Seq<u8>)
    requires
        is_box(d, kind, payload),
    ensures
        boxes(d + rest) == seq![(kind, payload)] + boxes(rest),
        d.len() == 8 + payload.len(),
{
    reveal(stands);
    lemma_num(8 + payload.len() as int);
    lemma_num(kind);
    reveal(is_box);
    reveal(boxes);
    let n = 8 + payload.len() as int;
    let all = d + rest;
    lemma_stands(d, rest, Seq::empty());
    lemma_stands_in(all, 0, d, 0, num(n));
    lemma_stands_in(all, 0, d, 4, num(kind));
    lemma_stands_in(all, 0, d, 8, payload);
    lemma_number(all, 0, num(n), n);
    lemma_number(all, 4, num(kind), kind);
    assert(all.skip(n) =~= rest);
}

proof fn lemma_no_boxes()
    ensures
        boxes(Seq::empty()) == Seq::<(int, Seq<u8>)>::empty(),
{
    reveal(boxes);
}

proof fn lemma_one_box(d: Seq<u8>, kind: int, payload: Seq<u8>)
    requires
        is_box(d, kind, payload),
    ensures
        boxes(d) == seq![(kind, payload)],
        d.len() == 8 + payload.len(),
{
    let none = Seq::<u8>::empty();
    lemma_box_front(d, kind, payload, none);
    lemma_no_boxes();
    assert(d + none =~= d);
    assert(seq![(kind, payload)] + Seq::<(int, Seq<u8>)>::empty() =~= seq![(kind, payload)]);
}

/// Two boxes, one behind the other.
proof fn lemma_two_boxes(a: Seq<u8>, x: (int, Seq<u8>), b: Seq<u8>, y: (int, Seq<u8>))
    requires
        is_box(a, x.0, x.1),
        is_box(b, y.0, y.1),
    ensures
        boxes(a + b) == seq![x, y],
{
    lemma_box_front(a, x.0, x.1, b);
    lemma_one_box(b, y.0, y.1);
    assert(seq![x] + seq![y] =~= seq![x, y]);
}

/// Three boxes, one behind the other.
proof fn lemma_three_boxes(
    a: Seq<u8>,
    x: (int, Seq<u8>),
    b: Seq<u8>,
    y: (int, Seq<u8>),
    c: Seq<u8>,
    z: (int, Seq<u8>),
)
    requires
        is_box(a, x.0, x.1),
        is_box(b, y.0, y.1),
        is_box(c, z.0, z.1),
    ensures
        boxes(a + b + c) == seq![x, y, z],
{
    bytes::lemma_concat(a, b, c);
    lemma_box_front(a, x.0, x.1, b + c);
    lemma_two_boxes(b, y, c, z);
    assert(seq![x] + seq![y, z] =~= seq![x, y, z]);
}

/// The contents of a box that states a version and flags.
#[verifier::opaque]
spec fn full(version: u8, flags: u32, payload: Seq<u8>) -> Seq<u8> {
    seq![version] + be24(flags as int) + payload
}

proof fn lemma_full(kind: u32, version: u8, flags: u32, payload: Seq<u8>)
    requires
        flags < 0x100_0000,
        12 + payload.len() < 0x1_0000_0000,
    ensures
        is_box(fbx(kind, version, flags, payload), kind as int, full(version, flags, payload)),
        fbx(kind, version, flags, payload).len() == 12 + payload.len(),
        word(full(version, flags, payload), 0) == version * 0x100_0000 + flags,
        stands(full(version, flags, payload), 4, payload),
        full(version, flags, payload).len() == 4 + payload.len(),
{
    lemma_full_parts(version, flags, payload);
    lemma_is_box(kind, full(version, flags, payload));
    assert(fbx(kind, version, flags, payload) == bx(kind, full(version, flags, payload))) by {
        reveal(fbx);
        reveal(bx);
        reveal(full);
    }
}

proof fn lemma_full_parts(version: u8, flags: u32, payload: Seq<u8>)
    requires
        flags < 0x100_0000,
    ensures
        word(full(version, flags, payload), 0) == version * 0x100_0000 + flags,
        stands(full(version, flags, payload), 4, payload),
        full(version, flags, payload).len() == 4 + payload.len(),
{
    reveal(full);
    reveal(word);
    let d = full(version, flags, payload);
    bytes::bytes_are_in_order(flags as int);
    let b = be24(flags as int);
    lemma_stands(seq![version] + b, payload, Seq::empty());
    assert(d[0] == version && d[1] == b[0] && d[2] == b[1] && d[3] == b[2]);
}

// ---------------------------------------------------------------------------
// Media segments
// ---------------------------------------------------------------------------

/// True if the contents of a track fragment tell of `f`, whose bytes begin
/// `offset` bytes behind the start of the movie fragment: the track, with offsets
/// counted from the movie fragment; the 64-bit decode time of the first sample;
/// and for each sample duration, size, flags and signed composition offset.
#[verifier::opaque]
pub open spec fn tells_fragment(d: Seq<u8>, f: FragmentView, offset: int) -> bool {
    let parts = boxes(d);
    let n = f.samples.len();
    &&& parts.len() == 3
    // tfhd
    &&& parts[0].0 == 0x7466_6864
    &&& word(parts[0].1, 0) == 0x2_0000
    &&& word(parts[0].1, 4) == f.track_id
    // tfdt
    &&& parts[1].0 == 0x7466_6474
    &&& word(parts[1].1, 0) == 0x100_0000
    &&& word(parts[1].1, 4) * 0x1_0000_0000 + word(parts[1].1, 8) == f.base_decode_time
    // trun
    &&& parts[2].0 == 0x7472_756E
    &&& word(parts[2].1, 0) == 0x100_0F01
    &&& word(parts[2].1, 4) == n
    &&& word(parts[2].1, 8) == offset
    &&& parts[2].1.len() == 12 + 16 * n
    &&& forall|i: int|
        0 <= i < n ==> {
            let s = #[trigger] f.samples[i];
            &&& word(parts[2].1, 12 + 16 * i) == s.duration
            &&& word(parts[2].1, 16 + 16 * i) == s.payload.len()
            &&& word(parts[2].1, 20 + 16 * i) == s.flags
            &&& word(parts[2].1, 24 + 16 * i) == s.composition_offset
        }
}

proof fn lemma_entries(s: Seq<SampleView>, i: int)
    requires
        0 <= i < s.len(),
    ensures
        stands(run_entries(s), 16 * i, run_entry(s[i])),
    decreases s.len(),
{
    let rest = s.drop_last();
    lemma_entries_len(rest);
    lemma_stands(run_entries(rest), run_entry(s.last()), Seq::empty());
    if i < rest.len() {
        lemma_entries(rest, i);
        lemma_stands_in(run_entries(s), 0, run_entries(rest), 16 * i, run_entry(s[i]));
    }
}

proof fn lemma_entry_len(s: SampleView)
    ensures
        run_entry(s).len() == 16,
{
}

proof fn lemma_entries_len(s: Seq<SampleView>)
    ensures
        run_entries(s).len() == 16 * s.len(),
    decreases s.len(),
{
    if s.len() > 0 {
        lemma_entries_len(s.drop_last());
        lemma_entry_len(s.last());
    }
}

proof fn lemma_entry_words(d: Seq<u8>, p: int, s: SampleView)
    requires
        stands(d, p, run_entry(s)),
        s.payload.len() < 0x1_0000_0000,
    ensures
        word(d, p) == s.duration,
        word(d, p + 4) == s.payload.len(),
        word(d, p + 8) == s.flags,
        word(d, p + 12) == s.composition_offset,
{
    let a = num(s.duration as int);
    let b = num(s.payload.len() as int);
    let c = num(s.flags as int);
    let e = num(s.composition_offset as int);
    lemma_num(s.duration as int);
    lemma_num(s.payload.len() as int);
    lemma_num(s.flags as int);
    lemma_num(s.composition_offset as int);
    assert(run_entry(s) == a + b + c + e) by {
        reveal(num);
    }
    lemma_four(a, b, c, e);
    lemma_entry_parts(d, p, run_entry(s), a, b, c, e);
    lemma_number(d, p, a, s.duration as int);
    lemma_number(d, p + 4, b, s.payload.len() as int);
    lemma_number(d, p + 8, c, s.flags as int);
    lemma_number(d, p + 12, e, s.composition_offset as int);
}

proof fn lemma_entry_parts(
    d: Seq<u8>,
    p: int,
    entry: Seq<u8>,
    a: Seq<u8>,
    b: Seq<u8>,
    c: Seq<u8>,
    e: Seq<u8>,
)
    requires
        stands(d, p, entry),
        stands(entry, 0, a) && stands(entry, 4, b) && stands(entry, 8, c) && stands(entry, 12, e),
    ensures
        stands(d, p, a) && stands(d, p + 4, b) && stands(d, p + 8, c) && stands(d, p + 12, e),
{
    lemma_stands_in(d, p, entry, 0, a);
    lemma_stands_in(d, p, entry, 4, b);
    lemma_stands_in(d, p, entry, 8, c);
    lemma_stands_in(d, p, entry, 12, e);
}

proof fn lemma_traf_is(f: FragmentView, offset: int)
    ensures
        tr(f, offset) == bx(
            0x7472_6166,
            fbx(0x7466_6864, 0, 0x2_0000, num(f.track_id as int)) + fbx(
                0x7466_6474,
                1,
                0,
                num(f.base_decode_time as int / 0x1_0000_0000) + num(f.base_decode_time as int),
            ) + fbx(
                0x7472_756E,
                1,
                0xF01,
                num(f.samples.len() as int) + num(offset) + run_entries(f.samples),
            ),
        ),
{
    reveal(tr);
    reveal(bx);
    reveal(fbx);
    reveal(num);
}

/// The contents of the three boxes in a track fragment.
spec fn traf_parts(f: FragmentView, offset: int) -> (Seq<u8>, Seq<u8>, Seq<u8>) {
    (
        full(0, 0x2_0000, num(f.track_id as int)),
        full(
            1,
            0,
            num(f.base_decode_time as int / 0x1_0000_0000) + num(f.base_decode_time as int),
        ),
        full(1, 0xF01, num(f.samples.len() as int) + num(offset) + run_entries(f.samples)),
    )
}

proof fn lemma_traf_numbers(f: FragmentView, offset: int)
    requires
        100 + 16 * f.samples.len() < 0x1_0000_0000,
        0 <= offset < 0x1_0000_0000,
    ensures
        ({
            let (a, b, c) = traf_parts(f, offset);
            &&& word(a, 0) == 0x2_0000
            &&& word(a, 4) == f.track_id
            &&& word(b, 0) == 0x100_0000
            &&& word(b, 4) * 0x1_0000_0000 + word(b, 8) == f.base_decode_time
            &&& word(c, 0) == 0x100_0F01
            &&& word(c, 4) == f.samples.len()
            &&& word(c, 8) == offset
            &&& c.len() == 12 + 16 * f.samples.len()
            &&& stands(c, 12, run_entries(f.samples))
        }),
{
    let n = f.samples.len() as int;
    let none = Seq::<u8>::empty();
    let (a, b, c) = traf_parts(f, offset);
    let track = num(f.track_id as int);
    let high = num(f.base_decode_time as int / 0x1_0000_0000);
    let low = num(f.base_decode_time as int);
    let run = num(n) + num(offset) + run_entries(f.samples);
    lemma_entries_len(f.samples);
    lemma_num(f.track_id as int);
    lemma_num(f.base_decode_time as int / 0x1_0000_0000);
    lemma_num(f.base_decode_time as int);
    lemma_num(f.samples.len() as int);
    lemma_num(offset);
    lemma_full(0x7466_6864, 0, 0x2_0000, track);
    lemma_full(0x7466_6474, 1, 0, high + low);
    lemma_full(0x7472_756E, 1, 0xF01, run);
    lemma_number(a, 4, track, f.track_id as int);
    lemma_stands(high, low, none);
    lemma_stands_in(b, 4, high + low, 0, high);
    lemma_stands_in(b, 4, high + low, 4, low);
    lemma_number(b, 4, high, f.base_decode_time as int / 0x1_0000_0000);
    lemma_number(b, 8, low, f.base_decode_time as int);
    lemma_stands(num(n), num(offset), run_entries(f.samples));
    lemma_stands(num(n) + num(offset), run_entries(f.samples), none);
    bytes::lemma_concat(num(n), num(offset), run_entries(f.samples));
    lemma_stands(num(n), num(offset) + run_entries(f.samples), none);
    lemma_stands_in(c, 4, run, 0, num(n));
    lemma_stands_in(c, 4, run, 4, num(offset));
    lemma_stands_in(c, 4, run, 8, run_entries(f.samples));
    lemma_number(c, 4, num(n), n);
    lemma_number(c, 8, num(offset), offset);
}

proof fn lemma_traf_boxes(f: FragmentView, offset: int)
    requires
        100 + 16 * f.samples.len() < 0x1_0000_0000,
    ensures
        ({
            let (a, b, c) = traf_parts(f, offset);
            exists|inner: Seq<u8>|
                {
                    &&& #[trigger] is_box(tr(f, offset), 0x7472_6166, inner)
                    &&& boxes(inner) == seq![
                        (0x7466_6864int, a),
                        (0x7466_6474int, b),
                        (0x7472_756Eint, c),
                    ]
                }
        }),
        tr(f, offset).len() == 64 + 16 * f.samples.len(),
{
    lemma_traf_size(f, offset);
    let (a, b, c) = traf_parts(f, offset);
    let track = num(f.track_id as int);
    let both = num(f.base_decode_time as int / 0x1_0000_0000) + num(f.base_decode_time as int);
    let run = num(f.samples.len() as int) + num(offset) + run_entries(f.samples);
    lemma_entries_len(f.samples);
    lemma_num(f.track_id as int);
    lemma_num(f.base_decode_time as int / 0x1_0000_0000);
    lemma_num(f.base_decode_time as int);
    lemma_num(f.samples.len() as int);
    lemma_num(offset);
    lemma_full(0x7466_6864, 0, 0x2_0000, track);
    lemma_full(0x7466_6474, 1, 0, both);
    lemma_full(0x7472_756E, 1, 0xF01, run);
    lemma_traf_is(f, offset);
    lemma_traf_inner(
        fbx(0x7466_6864, 0, 0x2_0000, track),
        fbx(0x7466_6474, 1, 0, both),
        fbx(0x7472_756E, 1, 0xF01, run),
        a,
        b,
        c,
    );
}

proof fn lemma_traf_inner(
    x: Seq<u8>,
    y: Seq<u8>,
    z: Seq<u8>,
    a: Seq<u8>,
    b: Seq<u8>,
    c: Seq<u8>,
)
    requires
        is_box(x, 0x7466_6864, a),
        is_box(y, 0x7466_6474, b),
        is_box(z, 0x7472_756E, c),
        x.len() + y.len() + z.len() + 8 < 0x1_0000_0000,
    ensures
        is_box(bx(0x7472_6166, x + y + z), 0x7472_6166, x + y + z),
        boxes(x + y + z) == seq![(0x7466_6864int, a), (0x7466_6474int, b), (0x7472_756Eint, c)],
{
    lemma_three_boxes(x, (0x7466_6864, a), y, (0x7466_6474, b), z, (0x7472_756E, c));
    lemma_is_box(0x7472_6166, x + y + z);
}

proof fn lemma_traf(f: FragmentView, offset: int, inner: Seq<u8>)
    requires
        100 + 16 * f.samples.len() < 0x1_0000_0000,
        0 <= offset < 0x1_0000_0000,
        forall|i: int|
            0 <= i < f.samples.len() ==> (#[trigger] f.samples[i]).payload.len() < 0x1_0000_0000,
        ({
            let (a, b, c) = traf_parts(f, offset);
            boxes(inner) == seq![(0x7466_6864int, a), (0x7466_6474int, b), (0x7472_756Eint, c)]
        }),
    ensures
        tells_fragment(inner, f, offset),
{
    reveal(tells_fragment);
    let (a, b, c) = traf_parts(f, offset);
    lemma_traf_numbers(f, offset);
    assert forall|i: int| 0 <= i < f.samples.len() implies {
        let s = #[trigger] f.samples[i];
        &&& word(c, 12 + 16 * i) == s.duration
        &&& word(c, 16 + 16 * i) == s.payload.len()
        &&& word(c, 20 + 16 * i) == s.flags
        &&& word(c, 24 + 16 * i) == s.composition_offset
    } by {
        lemma_entries(f.samples, i);
        lemma_stands_in(c, 12, run_entries(f.samples), 16 * i, run_entry(f.samples[i]));
        lemma_entry_words(c, 12 + 16 * i, f.samples[i]);
    }
}

proof fn lemma_trafs(f: Seq<FragmentView>, start: int, rest: Seq<u8>)
    requires
        0 <= start,
        100 + start + media_data(f).len() < 0x1_0000_0000,
        100 + trs(f, start).len() < 0x1_0000_0000,
    ensures
        ({
    let all = boxes(trs(f, start) + rest);
            &&& all.len() == f.len() + boxes(rest).len()
            &&& forall|k: int|
                0 <= k < f.len() ==> (#[trigger] all[k]).0 == 0x7472_6166 && tells_fragment(
                    all[k].1,
                    f[k],
                    start + media_data(f.take(k)).len(),
                )
            &&& all.skip(f.len() as int) == boxes(rest)
        }),
    decreases f.len(),
{
    lemma_trs(f, start);
    let all = boxes(trs(f, start) + rest);
    if f.len() > 0 {
        let less = f.drop_last();
        let last = f.last();
        let offset = start + media_data(less).len();
        let one = tr(last, offset);
        lemma_traf_size(last, offset);
        lemma_traf_boxes(last, offset);
        lemma_payloads(last.samples);
        let (a, b, c) = traf_parts(last, offset);
        let inner = choose|inner: Seq<u8>|
            {
                &&& #[trigger] is_box(one, 0x7472_6166, inner)
                &&& boxes(inner) == seq![
                    (0x7466_6864int, a),
                    (0x7466_6474int, b),
                    (0x7472_756Eint, c),
                ]
            };
        lemma_traf(last, offset, inner);
        bytes::lemma_concat(trs(less, start), one, rest);
        lemma_box_front(one, 0x7472_6166, inner, rest);
        lemma_trafs(less, start, one + rest);
        let tail = boxes(one + rest);
        assert(tail == seq![(0x7472_6166int, inner)] + boxes(rest));
        assert(all.skip(less.len() as int) == tail);
        assert forall|k: int| 0 <= k < f.len() implies (#[trigger] all[k]).0 == 0x7472_6166
            && tells_fragment(all[k].1, f[k], start + media_data(f.take(k)).len()) by {
            if k < less.len() {
                assert(less.take(k) =~= f.take(k));
                assert(less[k] == f[k]);
            } else {
                assert(f.take(k) =~= less);
                assert(all.skip(less.len() as int)[0] == all[k]);
            }
        }
        assert(all.skip(f.len() as int) =~= tail.skip(1)) by {
            assert(all.skip(less.len() as int).skip(1) =~= all.skip(f.len() as int));
        }
        assert(tail.skip(1) =~= boxes(rest));
    } else {
        assert(trs(f, start) + rest =~= rest);
        assert(all.skip(0) =~= all);
    }
}

proof fn lemma_traf_size(f: FragmentView, offset: int)
    ensures
        tr(f, offset).len() == 64 + 16 * f.samples.len(),
{
    reveal(tr);
    lemma_entries_len(f.samples);
}

proof fn lemma_payloads(s: Seq<SampleView>)
    ensures
        forall|i: int|
            0 <= i < s.len() ==> (#[trigger] s[i]).payload.len() <= sample_data(s).len(),
    decreases s.len(),
{
    if s.len() > 0 {
        let rest = s.drop_last();
        lemma_payloads(rest);
        assert forall|i: int| 0 <= i < s.len() implies (#[trigger] s[i]).payload.len()
            <= sample_data(s).len() by {
            if i < rest.len() {
                assert(rest[i] == s[i]);
            }
        }
    }
}

/// How many bytes the samples before the `i`-th have.
pub open spec fn bytes_before(s: Seq<SampleView>, i: int) -> int
    decreases i,
{
    if i <= 0 {
        0
    } else {
        bytes_before(s, i - 1) + s[i - 1].payload.len()
    }
}

proof fn lemma_sample_at(s: Seq<SampleView>, i: int)
    requires
        0 <= i < s.len(),
    ensures
        0 <= bytes_before(s, i),
        bytes_before(s, i) + s[i].payload.len() <= sample_data(s).len(),
        sample_data(s).subrange(bytes_before(s, i), bytes_before(s, i) + s[i].payload.len())
            == s[i].payload,
        bytes_before(s, s.len() as int) == sample_data(s).len(),
    decreases s.len(),
{
    let rest = s.drop_last();
    lemma_before(rest, s, rest.len() as int);
    if rest.len() > 0 {
        lemma_sample_at(rest, 0);
    }
    let all = sample_data(s);
    assert(bytes_before(s, s.len() as int) == bytes_before(s, s.len() - 1) + s.last().payload.len());
    if i < rest.len() {
        lemma_sample_at(rest, i);
        lemma_before(rest, s, i);
        let a = bytes_before(s, i);
        assert(all.subrange(a, a + s[i].payload.len()) =~= sample_data(rest).subrange(
            a,
            a + s[i].payload.len(),
        ));
    } else {
        let a = bytes_before(s, i);
        assert(all.subrange(a, a + s[i].payload.len()) =~= s.last().payload);
    }
}

proof fn lemma_before(rest: Seq<SampleView>, s: Seq<SampleView>, i: int)
    requires
        s.len() > 0,
        rest == s.drop_last(),
        0 <= i <= rest.len(),
    ensures
        bytes_before(rest, i) == bytes_before(s, i),
        rest.len() == 0 ==> sample_data(rest).len() == 0,
    decreases i,
{
    if i > 0 {
        lemma_before(rest, s, i - 1);
    }
}

/// What a player finds in a media segment: a type box, a movie fragment, and the
/// media data. The movie fragment has its sequence number, and for each track a
/// track fragment that tells of it. Counted from the start of the movie fragment,
/// the bytes of each sample lie at the offset that the track states, behind those
/// of the samples before it.
pub proof fn segments_read_back(sequence: u32, f: Seq<FragmentView>, k: int, i: int)
    requires
        200 + segment_bytes(sequence, f).len() < 0x1_0000_0000,
        0 <= k < f.len(),
        0 <= i < f[k].samples.len(),
    ensures
        ({
            let d = segment_bytes(sequence, f);
            let top = boxes(d);
            let parts = boxes(top[1].1);
            let start = 8 + top[0].1.len();
            let offset = moof_len(f) + 8 + media_data(f.take(k)).len();
            let at = start + offset + bytes_before(f[k].samples, i);
            &&& top.len() == 3
            &&& top[0].0 == 0x7374_7970
            &&& top[1].0 == 0x6D6F_6F66
            &&& top[2].0 == 0x6D64_6174
            &&& parts.len() == 1 + f.len()
            &&& parts[0].0 == 0x6D66_6864
            &&& word(parts[0].1, 4) == sequence
            &&& parts[k + 1].0 == 0x7472_6166
            &&& tells_fragment(parts[k + 1].1, f[k], offset as int)
            &&& at + f[k].samples[i].payload.len() <= d.len()
            &&& d.subrange(at, at + f[k].samples[i].payload.len()) == f[k].samples[i].payload
        }),
{
    let d = segment_bytes(sequence, f);
    let first = moof_len(f) as int + 8;
    let offset = first + media_data(f.take(k)).len();
    lemma_segment_boxes(sequence, f);
    lemma_moof_boxes(sequence, f);
    let parts = boxes(moof_contents(sequence, f));
    assert(parts[k + 1] == parts.skip(1)[k]);
    lemma_sample_stands(sequence, f, k, i);
}

proof fn lemma_sample_stands(sequence: u32, f: Seq<FragmentView>, k: int, i: int)
    requires
        0 <= k < f.len(),
        0 <= i < f[k].samples.len(),
    ensures
        ({
            let d = segment_bytes(sequence, f);
            let at = styp().len() + (moof_len(f) + 8 + media_data(f.take(k)).len())
                + bytes_before(f[k].samples, i);
            &&& at + f[k].samples[i].payload.len() <= d.len()
            &&& d.subrange(at, at + f[k].samples[i].payload.len()) == f[k].samples[i].payload
        }),
{
    reveal(stands);
    let d = segment_bytes(sequence, f);
    runs_point_at_their_samples(sequence, f, k);
    lemma_sample_at(f[k].samples, i);
    let own = sample_data(f[k].samples);
    let b = bytes_before(f[k].samples, i);
    let from = styp().len() + (moof_len(f) + 8 + media_data(f.take(k)).len());
    lemma_stands_in(d, from as int, own, b, f[k].samples[i].payload);
}

/// What stands in the movie fragment box.
spec fn moof_contents(sequence: u32, f: Seq<FragmentView>) -> Seq<u8> {
    fbx(0x6D66_6864, 0, 0, num(sequence as int)) + trs(f, moof_len(f) as int + 8)
}

proof fn lemma_segment_is(sequence: u32, f: Seq<FragmentView>)
    ensures
        segment_bytes(sequence, f) == styp() + bx(0x6D6F_6F66, moof_contents(sequence, f)) + bx(
            0x6D64_6174,
            media_data(f),
        ),
        moof(sequence, f) == bx(0x6D6F_6F66, moof_contents(sequence, f)),
        styp() == bx(0x7374_7970, num(0x6D73_6468) + num(0) + num(0x6D73_6468) + num(0x6D73_6978)),
{
    reveal(segment_bytes);
    reveal(trs);
    reveal(bx);
    reveal(fbx);
    reveal(num);
}

proof fn lemma_segment_boxes(sequence: u32, f: Seq<FragmentView>)
    requires
        200 + segment_bytes(sequence, f).len() < 0x1_0000_0000,
    ensures
        ({
            let top = boxes(segment_bytes(sequence, f));
            &&& top.len() == 3
            &&& top[0].0 == 0x7374_7970
            &&& top[0].1.len() + 8 == styp().len()
            &&& top[1].0 == 0x6D6F_6F66
            &&& top[1].1 == moof_contents(sequence, f)
            &&& top[2].0 == 0x6D64_6174
            &&& segment_bytes(sequence, f).len() >= 16 + moof_contents(sequence, f).len()
                + media_data(f).len()
        }),
{
    let data = media_data(f);
    let inner = moof_contents(sequence, f);
    let brand = num(0x6D73_6468) + num(0) + num(0x6D73_6468) + num(0x6D73_6978);
    let a = bx(0x7374_7970, brand);
    let b = bx(0x6D6F_6F66, inner);
    let c = bx(0x6D64_6174, data);
    lemma_num(0x6D73_6468);
    lemma_num(0);
    lemma_num(0x6D73_6978);
    lemma_segment_is(sequence, f);
    lemma_sizes(a + b, c);
    lemma_sizes(a, b);
    lemma_box_size(0x6D6F_6F66, inner);
    lemma_box_size(0x6D64_6174, data);
    lemma_is_box(0x7374_7970, brand);
    lemma_is_box(0x6D6F_6F66, inner);
    lemma_is_box(0x6D64_6174, data);
    lemma_three_boxes(a, (0x7374_7970, brand), b, (0x6D6F_6F66, inner), c, (0x6D64_6174, data));
}

proof fn lemma_sizes(a: Seq<u8>, b: Seq<u8>)
    ensures
        (a + b).len() == a.len() + b.len(),
{
}

proof fn lemma_box_size(kind: u32, payload: Seq<u8>)
    ensures
        bx(kind, payload).len() == 8 + payload.len(),
{
    reveal(bx);
}

proof fn lemma_moof_boxes(sequence: u32, f: Seq<FragmentView>)
    requires
        200 + segment_bytes(sequence, f).len() < 0x1_0000_0000,
    ensures
        ({
            let parts = boxes(moof_contents(sequence, f));
            let first = moof_len(f) as int + 8;
            &&& parts.len() == 1 + f.len()
            &&& parts[0].0 == 0x6D66_6864
            &&& word(parts[0].1, 4) == sequence
            &&& forall|k: int|
                0 <= k < f.len() ==> (#[trigger] parts.skip(1)[k]).0 == 0x7472_6166
                    && tells_fragment(
                    parts.skip(1)[k].1,
                    f[k],
                    first + media_data(f.take(k)).len(),
                )
        }),
{
    let first = moof_len(f) as int + 8;
    let none = Seq::<u8>::empty();
    let number = num(sequence as int);
    let head = fbx(0x6D66_6864, 0, 0, number);
    let tail = trs(f, first);
    lemma_segment_boxes(sequence, f);
    lemma_sizes(head, tail);
    lemma_num(sequence as int);
    lemma_full(0x6D66_6864, 0, 0, number);
    lemma_number(full(0, 0, number), 4, number, sequence as int);
    lemma_moof_size(sequence, f);
    lemma_trafs(f, first, none);
    lemma_no_boxes();
    assert(tail + none =~= tail);
    lemma_box_front(head, 0x6D66_6864, full(0, 0, number), tail);
    let parts = boxes(moof_contents(sequence, f));
    assert(parts.skip(1) =~= boxes(tail));
}

proof fn lemma_moof_size(sequence: u32, f: Seq<FragmentView>)
    requires
        200 + segment_bytes(sequence, f).len() < 0x1_0000_0000,
    ensures
        moof_len(f) == 8 + moof_contents(sequence, f).len(),
        trs(f, moof_len(f) as int + 8).len() + 24 == moof_len(f),
        200 + moof_len(f) + media_data(f).len() < 0x1_0000_0000,
{
    if f.len() > 0 {
        runs_point_at_their_samples(sequence, f, 0);
    }
    lemma_segment_boxes(sequence, f);
    lemma_segment_is(sequence, f);
    let inner = moof_contents(sequence, f);
    let head = fbx(0x6D66_6864, 0, 0, num(sequence as int));
    lemma_num(sequence as int);
    lemma_full(0x6D66_6864, 0, 0, num(sequence as int));
    lemma_sizes(head, trs(f, moof_len(f) as int + 8));
    lemma_box_size(0x6D6F_6F66, inner);
    lemma_trs(f, moof_len(f) as int + 8);
    if f.len() == 0 {
        assert(trs(f, moof_len(f) as int + 8).len() == 0);
    }
}

// ---------------------------------------------------------------------------
// Initialization segments
// ---------------------------------------------------------------------------

/// A number in two bytes.
#[verifier::opaque]
spec fn num2(x: int) -> Seq<u8> {
    be16(x)
}

/// So many zeros.
#[verifier::opaque]
spec fn nil(n: nat) -> Seq<u8> {
    zeros(n)
}

proof fn lemma_small_parts(x: int, n: nat)
    ensures
        num2(x).len() == 2,
        nil(n).len() == n,
{
    reveal(num2);
    reveal(nil);
}

proof fn lemma_number2(d: Seq<u8>, p: int, part: Seq<u8>, x: int)
    requires
        stands(d, p, part),
        part == num2(x),
        0 <= x < 0x1_0000,
    ensures
        half(d, p) == x,
{
    reveal(stands);
    reveal(num2);
    lemma_half(x, d, p);
}

/// What stands in front stays where it is, whatever is put behind it.
proof fn lemma_front(p: Seq<u8>, a: Seq<u8>, b: Seq<u8>, c: Seq<u8>, d: Seq<u8>)
    ensures
        stands(p + a, 0, p),
        stands(p + a + b, 0, p),
        stands(p + a + b + c, 0, p),
        stands(p + a + b + c + d, 0, p),
{
    reveal(stands);
    assert((p + a).subrange(0, p.len() as int) =~= p);
    assert((p + a + b).subrange(0, p.len() as int) =~= p);
    assert((p + a + b + c).subrange(0, p.len() as int) =~= p);
    assert((p + a + b + c + d).subrange(0, p.len() as int) =~= p);
}

/// True if the contents of a track tell of a track with this number, this size
/// in pixels and this timescale: the header (its flags say that the track is
/// enabled and in use) and the media header.
pub open spec fn tells_track(
    d: Seq<u8>,
    id: int,
    width: int,
    height: int,
    timescale: int,
    handler: int,
) -> bool {
    let parts = boxes(d);
    let media = boxes(parts[1].1);
    &&& parts.len() == 2
    // tkhd
    &&& parts[0].0 == 0x746B_6864
    &&& word(parts[0].1, 0) == 7
    &&& word(parts[0].1, 12) == id
    &&& word(parts[0].1, 76) == width * 0x1_0000
    &&& word(parts[0].1, 80) == height * 0x1_0000
    // mdia
    &&& parts[1].0 == 0x6D64_6961
    &&& media.len() == 3
    // mdhd
    &&& media[0].0 == 0x6D64_6864
    &&& word(media[0].1, 12) == timescale
    // hdlr
    &&& media[1].0 == 0x6864_6C72
    &&& word(media[1].1, 8) == handler
    // minf
    &&& media[2].0 == 0x6D69_6E66
}

/// The one sample entry of a track, found in its sample table.
pub open spec fn entry_of(d: Seq<u8>) -> (int, Seq<u8>) {
    let media = boxes(boxes(d)[1].1);
    let info = boxes(media[2].1);
    let table = boxes(info[2].1);
    boxes(table[0].1.skip(8))[0]
}

/// The contents of a track header behind version and flags.
#[verifier::opaque]
spec fn tk_payload(id: u32, volume: u16, width: u32, height: u32) -> Seq<u8> {
    nil(8) + num(id as int) + nil(20) + num2(volume as int) + nil(2) + matrix() + num(
        width * 0x1_0000,
    ) + num(height * 0x1_0000)
}

#[verifier::opaque]
spec fn matrix() -> Seq<u8> {
    unity_matrix()
}

proof fn lemma_matrix()
    ensures
        matrix().len() == 36,
{
    reveal(matrix);
}

#[verifier::opaque]
spec fn tk(id: u32, volume: u16, width: u32, height: u32) -> Seq<u8> {
    tkhd(id, volume, width, height)
}

proof fn lemma_tk_is(id: u32, volume: u16, width: u32, height: u32)
    ensures
        tk(id, volume, width, height) == fbx(0x746B_6864, 0, 7, tk_payload(
            id,
            volume,
            width,
            height,
        )),
{
    reveal(tk);
    reveal(fbx);
    reveal(tk_payload);
    reveal(nil);
    reveal(num);
    reveal(num2);
    reveal(matrix);
}

proof fn lemma_tk(id: u32, volume: u16, width: u32, height: u32)
    requires
        width < 0x1_0000,
        height < 0x1_0000,
    ensures
        ({
            let c = full(0, 7, tk_payload(id, volume, width, height));
            &&& is_box(tk(id, volume, width, height), 0x746B_6864, c)
            &&& tk(id, volume, width, height).len() == 92
            &&& word(c, 0) == 7
            &&& word(c, 12) == id
            &&& word(c, 76) == width * 0x1_0000
            &&& word(c, 80) == height * 0x1_0000
        }),
{
    let none = Seq::<u8>::empty();
    let t = num(id as int);
    let w = num(width * 0x1_0000);
    let h = num(height * 0x1_0000);
    let p = nil(8) + t;
    let q = p + nil(20) + num2(volume as int) + nil(2) + matrix();
    let all = tk_payload(id, volume, width, height);
    assert(all == q + w + h) by {
        reveal(tk_payload);
    }
    lemma_tk_is(id, volume, width, height);
    lemma_num(id as int);
    lemma_num(width * 0x1_0000);
    lemma_num(height * 0x1_0000);
    lemma_small_parts(volume as int, 8);
    lemma_small_parts(0, 20);
    lemma_small_parts(0, 2);
    lemma_matrix();
    let c = full(0, 7, all);
    lemma_full(0x746B_6864, 0, 7, all);
    lemma_stands(nil(8), t, none);
    lemma_front(p, nil(20), num2(volume as int), nil(2), matrix());
    lemma_front(q, w, h, none, none);
    lemma_stands_in(q, 0, p, 8, t);
    lemma_stands_in(all, 0, q, 8, t);
    lemma_stands(q, w, h);
    lemma_stands(q + w, h, none);
    lemma_stands_in(c, 4, all, 8, t);
    lemma_stands_in(c, 4, all, 72, w);
    lemma_stands_in(c, 4, all, 76, h);
    lemma_number(c, 12, t, id as int);
    lemma_number(c, 76, w, width * 0x1_0000);
    lemma_number(c, 80, h, height * 0x1_0000);
}

#[verifier::opaque]
spec fn md(timescale: u32) -> Seq<u8> {
    mdhd(timescale)
}

#[verifier::opaque]
spec fn hd(handler: u32) -> Seq<u8> {
    hdlr(handler)
}

proof fn lemma_md(timescale: u32)
    ensures
        exists|c: Seq<u8>|
            #[trigger] is_box(md(timescale), 0x6D64_6864, c) && word(c, 12) == timescale,
        md(timescale).len() == 32,
{
    let t = num(timescale as int);
    let all = nil(8) + t + num(0) + num2(0x55C4) + num2(0);
    assert(md(timescale) == fbx(0x6D64_6864, 0, 0, all)) by {
        reveal(md);
        reveal(fbx);
        reveal(nil);
        reveal(num);
        reveal(num2);
    }
    lemma_num(timescale as int);
    lemma_num(0);
    lemma_small_parts(0x55C4, 8);
    lemma_small_parts(0, 8);
    lemma_full(0x6D64_6864, 0, 0, all);
    lemma_stands(nil(8), t, Seq::empty());
    lemma_front(nil(8) + t, num(0), num2(0x55C4), num2(0), Seq::empty());
    lemma_stands_in(all, 0, nil(8) + t, 8, t);
    let c = full(0, 0, all);
    lemma_stands_in(c, 4, all, 8, t);
    lemma_number(c, 12, t, timescale as int);
}

proof fn lemma_hd(handler: u32)
    ensures
        exists|c: Seq<u8>|
            #[trigger] is_box(hd(handler), 0x6864_6C72, c) && word(c, 8) == handler,
        hd(handler).len() == 33,
{
    let t = num(handler as int);
    let all = nil(4) + t + nil(13);
    assert(hd(handler) == fbx(0x6864_6C72, 0, 0, all)) by {
        reveal(hd);
        reveal(fbx);
        reveal(nil);
        reveal(num);
    }
    lemma_num(handler as int);
    lemma_small_parts(0, 4);
    lemma_small_parts(0, 13);
    lemma_full(0x6864_6C72, 0, 0, all);
    lemma_stands(nil(4), t, nil(13));
    let c = full(0, 0, all);
    lemma_stands_in(c, 4, all, 4, t);
    lemma_number(c, 8, t, handler as int);
}

#[verifier::opaque]
spec fn tables() -> Seq<u8> {
    empty_table(0x7374_7473) + empty_table(0x7374_7363) + stsz() + empty_table(0x7374_636F)
}

#[verifier::opaque]
spec fn inf(header: Seq<u8>, entry: Seq<u8>) -> Seq<u8> {
    minf(header, entry)
}

#[verifier::opaque]
spec fn di() -> Seq<u8> {
    dinf()
}

proof fn lemma_di()
    ensures
        exists|c: Seq<u8>| #[trigger] is_box(di(), 0x6469_6E66, c),
        di().len() == 36,
{
    let none = Seq::<u8>::empty();
    let url = fbx(0x7572_6C20, 0, 1, none);
    let refs = fbx(0x6472_6566, 0, 0, num(1) + url);
    lemma_num(1);
    lemma_full(0x7572_6C20, 0, 1, none);
    lemma_full(0x6472_6566, 0, 0, num(1) + url);
    lemma_is_box(0x6469_6E66, refs);
    assert(di() == bx(0x6469_6E66, refs)) by {
        reveal(di);
        reveal(bx);
        reveal(fbx);
        reveal(num);
    }
}

proof fn lemma_tables()
    ensures
        tables().len() == 68,
{
    reveal(tables);
}

/// The sample table is in the media information, and the entry in the table.
proof fn lemma_inf(header: Seq<u8>, head: (int, Seq<u8>), entry: Seq<u8>, e: (int, Seq<u8>))
    requires
        is_box(header, head.0, head.1),
        is_box(entry, e.0, e.1),
        header.len() < 0x1000,
        entry.len() < 0x8000_0000,
    ensures
        exists|c: Seq<u8>|
            {
                &&& #[trigger] is_box(inf(header, entry), 0x6D69_6E66, c)
                &&& boxes(c).len() == 3
                &&& boxes(boxes(c)[2].1)[0].0 == 0x7374_7364
                &&& boxes(boxes(boxes(c)[2].1)[0].1.skip(8)) == seq![e]
            },
        inf(header, entry).len() < 0x9000_0000,
{
    let list = fbx(0x7374_7364, 0, 0, num(1) + entry);
    let table = bx(0x7374_626C, list + tables());
    let c = header + di() + table;
    assert(inf(header, entry) == bx(0x6D69_6E66, c)) by {
        reveal(inf);
        reveal(di);
        reveal(tables);
        reveal(bx);
        reveal(fbx);
        reveal(num);
        assert(stsd(entry) + empty_table(0x7374_7473) + empty_table(0x7374_7363) + stsz()
            + empty_table(0x7374_636F) =~= stsd(entry) + (empty_table(0x7374_7473) + empty_table(
            0x7374_7363,
        ) + stsz() + empty_table(0x7374_636F)));
    }
    lemma_num(1);
    lemma_tables();
    lemma_di();
    let d = choose|d: Seq<u8>| #[trigger] is_box(di(), 0x6469_6E66, d);
    lemma_full(0x7374_7364, 0, 0, num(1) + entry);
    let l = full(0, 0, num(1) + entry);
    lemma_is_box(0x7374_626C, list + tables());
    lemma_three_boxes(header, head, di(), (0x6469_6E66, d), table, (0x7374_626C, list + tables()));
    lemma_box_front(list, 0x7374_7364, l, tables());
    lemma_is_box(0x6D69_6E66, c);
    lemma_one_box(entry, e.0, e.1);
    lemma_skip_two(l, num(1), entry);
}

proof fn lemma_skip_two(l: Seq<u8>, a: Seq<u8>, entry: Seq<u8>)
    requires
        stands(l, 4, a + entry),
        a.len() == 4,
        l.len() == 8 + entry.len(),
    ensures
        l.skip(8) == entry,
{
    reveal(stands);
    let both = l.subrange(4, 8 + entry.len() as int);
    assert(l.skip(8) =~= both.skip(4));
    assert((a + entry).skip(4) =~= entry);
}

#[verifier::opaque]
spec fn media(timescale: u32, handler: u32, header: Seq<u8>, entry: Seq<u8>) -> Seq<u8> {
    mdia(timescale, handler, header, entry)
}

/// A track box, from its header, its media header and its sample entry.
proof fn lemma_track(
    id: u32,
    volume: u16,
    width: u32,
    height: u32,
    timescale: u32,
    handler: u32,
    header: Seq<u8>,
    head: (int, Seq<u8>),
    entry: Seq<u8>,
    e: (int, Seq<u8>),
)
    requires
        width < 0x1_0000,
        height < 0x1_0000,
        is_box(header, head.0, head.1),
        is_box(entry, e.0, e.1),
        header.len() < 0x1000,
        entry.len() < 0x8000_0000,
    ensures
        ({
            let c = tk(id, volume, width, height) + media(timescale, handler, header, entry);
            &&& is_box(bx(0x7472_616B, c), 0x7472_616B, c)
            &&& bx(0x7472_616B, c).len() < 0xB000_0000
            &&& tells_track(
                c,
                id as int,
                width as int,
                height as int,
                timescale as int,
                handler as int,
            )
            &&& entry_of(c) == e
        }),
{
    let t = tk(id, volume, width, height);
    let m = media(timescale, handler, header, entry);
    let inner = md(timescale) + hd(handler) + inf(header, entry);
    assert(m == bx(0x6D64_6961, inner)) by {
        reveal(media);
        reveal(md);
        reveal(hd);
        reveal(inf);
        reveal(bx);
    }
    lemma_tk(id, volume, width, height);
    lemma_md(timescale);
    lemma_hd(handler);
    lemma_inf(header, head, entry, e);
    let a = choose|a: Seq<u8>|
        #[trigger] is_box(md(timescale), 0x6D64_6864, a) && word(a, 12) == timescale;
    let b = choose|b: Seq<u8>|
        #[trigger] is_box(hd(handler), 0x6864_6C72, b) && word(b, 8) == handler;
    let c = choose|c: Seq<u8>|
        {
            &&& #[trigger] is_box(inf(header, entry), 0x6D69_6E66, c)
            &&& boxes(c).len() == 3
            &&& boxes(boxes(c)[2].1)[0].0 == 0x7374_7364
            &&& boxes(boxes(boxes(c)[2].1)[0].1.skip(8)) == seq![e]
        };
    lemma_three_boxes(
        md(timescale),
        (0x6D64_6864, a),
        hd(handler),
        (0x6864_6C72, b),
        inf(header, entry),
        (0x6D69_6E66, c),
    );
    lemma_is_box(0x6D64_6961, inner);
    let h = full(0, 7, tk_payload(id, volume, width, height));
    lemma_two_boxes(t, (0x746B_6864, h), m, (0x6D64_6961, inner));
    lemma_is_box(0x7472_616B, t + m);
}

#[verifier::opaque]
spec fn avc(avcc: Seq<u8>, width: u32, height: u32) -> Seq<u8> {
    avc1(avcc, width, height)
}

/// The contents of a video sample entry.
#[verifier::opaque]
spec fn avc_contents(avcc: Seq<u8>, width: u32, height: u32) -> Seq<u8> {
    nil(6) + num2(1) + nil(16) + num2(width as int) + num2(height as int) + (num(0x0048_0000)
        + num(0x0048_0000) + nil(4) + num2(1) + nil(32) + num2(0x0018) + num2(0xFFFF)) + bx(
        0x6176_6343,
        avcc,
    )
}

proof fn lemma_avc_is(avcc: Seq<u8>, width: u32, height: u32)
    requires
        width < 0x1_0000,
        height < 0x1_0000,
    ensures
        avc(avcc, width, height) == bx(0x6176_6331, avc_contents(avcc, width, height)),
{
    let a = nil(6) + num2(1) + nil(16) + num2(width as int) + num2(height as int);
    let inner = bx(0x6176_6343, avcc);
    assert(low16(width) == be16(width as int) && low16(height) == be16(height as int)) by {
        assert(width % 0x1_0000 == width && height % 0x1_0000 == height);
    }
    assert(avc(avcc, width, height) == bx(
        0x6176_6331,
        a + num(0x0048_0000) + num(0x0048_0000) + nil(4) + num2(1) + nil(32) + num2(0x0018) + num2(
            0xFFFF,
        ) + inner,
    )) by {
        reveal(avc);
        reveal(bx);
        reveal(nil);
        reveal(num);
        reveal(num2);
    }
    lemma_regroup(
        a,
        num(0x0048_0000),
        num(0x0048_0000),
        nil(4),
        num2(1),
        nil(32),
        num2(0x0018),
        num2(0xFFFF),
        inner,
    );
    reveal(avc_contents);
}

proof fn lemma_regroup(
    a: Seq<u8>,
    b: Seq<u8>,
    c: Seq<u8>,
    d: Seq<u8>,
    e: Seq<u8>,
    f: Seq<u8>,
    g: Seq<u8>,
    h: Seq<u8>,
    i: Seq<u8>,
)
    ensures
        a + b + c + d + e + f + g + h + i == a + (b + c + d + e + f + g + h) + i,
{
    assert(a + b + c + d + e + f + g + h + i =~= a + (b + c + d + e + f + g + h) + i);
}

/// True if the contents of a sample entry tell of AVC video in this size, with
/// this decoder configuration.
pub open spec fn tells_video(d: Seq<u8>, width: int, height: int, avcc: Seq<u8>) -> bool {
    &&& half(d, 24) == width
    &&& half(d, 26) == height
    &&& boxes(d.skip(78)) == seq![(0x6176_6343int, avcc)]
}

proof fn lemma_avc(avcc: Seq<u8>, width: u32, height: u32)
    requires
        width < 0x1_0000,
        height < 0x1_0000,
        avcc.len() < 0x1000_0000,
    ensures
        is_box(avc(avcc, width, height), 0x6176_6331, avc_contents(avcc, width, height)),
        avc(avcc, width, height).len() == 94 + avcc.len(),
        tells_video(avc_contents(avcc, width, height), width as int, height as int, avcc),
{
    let none = Seq::<u8>::empty();
    let w = num2(width as int);
    let h = num2(height as int);
    let p = nil(6) + num2(1) + nil(16);
    let q = p + w + h;
    let r = num(0x0048_0000) + num(0x0048_0000) + nil(4) + num2(1) + nil(32) + num2(0x0018) + num2(
        0xFFFF,
    );
    let inner = bx(0x6176_6343, avcc);
    let all = avc_contents(avcc, width, height);
    assert(all == q + r + inner) by {
        reveal(avc_contents);
    }
    lemma_small_parts(1, 6);
    lemma_small_parts(width as int, 16);
    lemma_small_parts(height as int, 4);
    lemma_small_parts(0x0018, 32);
    lemma_small_parts(0xFFFF, 32);
    lemma_num(0x0048_0000);
    lemma_is_box(0x6176_6343, avcc);
    lemma_one_box(inner, 0x6176_6343, avcc);
    lemma_avc_is(avcc, width, height);
    lemma_is_box(0x6176_6331, all);
    lemma_stands(p, w, h);
    lemma_stands(p + w, h, none);
    lemma_front(q, r, inner, none, none);
    lemma_stands_in(all, 0, q, 24, w);
    lemma_stands_in(all, 0, q, 26, h);
    lemma_number2(all, 24, w, width as int);
    lemma_number2(all, 26, h, height as int);
    assert(all.skip(78) =~= inner);
}

/// The tag, the contents and what follows of a descriptor; its length is in
/// groups of seven bits, the most significant first, each but the last marked.
pub open spec fn described(d: Seq<u8>) -> (int, Seq<u8>, Seq<u8>) {
    let n = (d[1] % 0x80) * 0x20_0000 + (d[2] % 0x80) * 0x4000 + (d[3] % 0x80) * 0x80 + d[4] as int;
    (d[0] as int, d.subrange(5, 5 + n), d.skip(5 + n))
}

/// A descriptor reads back.
pub proof fn descriptors_read_back(tag: u8, body: Seq<u8>, rest: Seq<u8>)
    requires
        body.len() < 0x1000_0000,
    ensures
        described(descriptor(tag, body) + rest) == (tag as int, body, rest),
        descriptor(tag, body).len() == 5 + body.len(),
{
    let d = descriptor(tag, body) + rest;
    let n = body.len() as int;
    let a = n / 0x20_0000;
    let b = n / 0x4000;
    let c = n / 0x80;
    assert(a < 0x80);
    assert(b == a * 0x80 + b % 0x80 && c == b * 0x80 + c % 0x80 && n == c * 0x80 + n % 0x80);
    assert(d[1] % 0x80 == a % 0x80 && d[2] % 0x80 == b % 0x80 && d[3] % 0x80 == c % 0x80);
    assert(d[4] == n % 0x80);
    assert(d.subrange(5, 5 + n) =~= body);
    assert(d.skip(5 + n) =~= rest);
}

/// True if the contents of a sample entry tell of AAC audio at this rate, with
/// so many channels and this decoder configuration.
pub open spec fn tells_audio(d: Seq<u8>, rate: int, channels: int, bitrate: int, asc: Seq<u8>) -> bool {
    let stream = boxes(d.skip(28));
    let es = described(stream[0].1.skip(4));
    let decoder = described(es.1.skip(3));
    let specific = described(decoder.1.skip(13));
    &&& half(d, 16) == channels
    &&& word(d, 24) == rate * 0x1_0000
    &&& stream.len() == 1
    &&& stream[0].0 == 0x6573_6473
    &&& es.0 == 3
    &&& decoder.0 == 4
    &&& decoder.1[0] == 0x40
    &&& word(decoder.1, 5) == bitrate
    &&& word(decoder.1, 9) == bitrate
    &&& specific.0 == 5
    &&& specific.1 == asc
}

#[verifier::opaque]
spec fn aac(asc: Seq<u8>, rate: u32, channels: u8, bitrate: u32) -> Seq<u8> {
    mp4a(asc, rate, channels, bitrate)
}

#[verifier::opaque]
spec fn aac_contents(asc: Seq<u8>, rate: u32, channels: u8, bitrate: u32) -> Seq<u8> {
    nil(6) + num2(1) + nil(8) + num2(channels as int) + num2(16) + nil(4) + num(rate * 0x1_0000)
        + fbx(0x6573_6473, 0, 0, descriptor(0x03, es_descriptor(asc, bitrate)))
}

proof fn lemma_aac_is(asc: Seq<u8>, rate: u32, channels: u8, bitrate: u32)
    ensures
        aac(asc, rate, channels, bitrate) == bx(
            0x6D70_3461,
            aac_contents(asc, rate, channels, bitrate),
        ),
{
    reveal(aac);
    reveal(aac_contents);
    reveal(bx);
    reveal(fbx);
    reveal(nil);
    reveal(num);
    reveal(num2);
    assert(low16(channels as u32) == be16(channels as int));
}

/// The configuration lies in the descriptors.
proof fn lemma_descriptors(asc: Seq<u8>, bitrate: u32)
    requires
        asc.len() < 0x100_0000,
    ensures
        ({
            let d = descriptor(0x03, es_descriptor(asc, bitrate));
            let es = described(d);
            let decoder = described(es.1.skip(3));
            let specific = described(decoder.1.skip(13));
            &&& d.len() < 0x200_0000
            &&& es.0 == 3
            &&& decoder.0 == 4
            &&& decoder.1 == decoder_config(asc, bitrate)
            &&& specific.0 == 5
            &&& specific.1 == asc
        }),
{
    let none = Seq::<u8>::empty();
    let config = decoder_config(asc, bitrate);
    let es = es_descriptor(asc, bitrate);
    descriptors_read_back(0x05, asc, none);
    assert(descriptor(0x05, asc) + none =~= descriptor(0x05, asc));
    lemma_config(asc, bitrate);
    descriptors_read_back(0x04, config, descriptor(0x06, seq![2u8]));
    descriptors_read_back(0x06, seq![2u8], none);
    assert(es.skip(3) =~= descriptor(0x04, config) + descriptor(0x06, seq![2u8]));
    descriptors_read_back(0x03, es, none);
    assert(descriptor(0x03, es) + none =~= descriptor(0x03, es));
}

proof fn lemma_config(asc: Seq<u8>, bitrate: u32)
    requires
        asc.len() < 0x100_0000,
    ensures
        ({
            let c = decoder_config(asc, bitrate);
            &&& c.len() == 18 + asc.len()
            &&& c[0] == 0x40
            &&& c.skip(13) == descriptor(0x05, asc)
            &&& word(c, 5) == bitrate
            &&& word(c, 9) == bitrate
        }),
{
    let c = decoder_config(asc, bitrate);
    let b = be32(bitrate as int);
    assert(c.subrange(5, 9) =~= b);
    assert(c.subrange(9, 13) =~= b);
    lemma_word(bitrate as int, c, 5);
    lemma_word(bitrate as int, c, 9);
    assert(c.skip(13) =~= descriptor(0x05, asc));
}

proof fn lemma_aac(asc: Seq<u8>, rate: u32, channels: u8, bitrate: u32)
    requires
        rate < 0x1_0000,
        asc.len() < 0x100_0000,
    ensures
        ({
            let c = aac_contents(asc, rate, channels, bitrate);
            &&& is_box(aac(asc, rate, channels, bitrate), 0x6D70_3461, c)
            &&& aac(asc, rate, channels, bitrate).len() < 0x1000_0000
            &&& tells_audio(c, rate as int, channels as int, bitrate as int, asc)
        }),
{
    let none = Seq::<u8>::empty();
    let n = num2(channels as int);
    let r = num(rate * 0x1_0000);
    let p = nil(6) + num2(1) + nil(8);
    let q = p + n + num2(16) + nil(4);
    let inner = descriptor(0x03, es_descriptor(asc, bitrate));
    let stream = fbx(0x6573_6473, 0, 0, inner);
    let all = aac_contents(asc, rate, channels, bitrate);
    assert(all == q + r + stream) by {
        reveal(aac_contents);
    }
    lemma_descriptors(asc, bitrate);
    lemma_config(asc, bitrate);
    lemma_small_parts(1, 6);
    lemma_small_parts(channels as int, 8);
    lemma_small_parts(16, 4);
    lemma_num(rate * 0x1_0000);
    lemma_full(0x6573_6473, 0, 0, inner);
    lemma_one_box(stream, 0x6573_6473, full(0, 0, inner));
    lemma_aac_is(asc, rate, channels, bitrate);
    lemma_is_box(0x6D70_3461, all);
    lemma_stands(p, n, none);
    lemma_front(p + n, num2(16), nil(4), none, none);
    lemma_stands_in(q, 0, p + n, 16, n);
    lemma_front(q, r, stream, none, none);
    lemma_stands_in(all, 0, q, 16, n);
    lemma_number2(all, 16, n, channels as int);
    lemma_stands(q, r, stream);
    lemma_number(all, 24, r, rate * 0x1_0000);
    assert(all.skip(28) =~= stream);
    lemma_tail(full(0, 0, inner), inner);
}

proof fn lemma_tail(l: Seq<u8>, payload: Seq<u8>)
    requires
        stands(l, 4, payload),
        l.len() == 4 + payload.len(),
    ensures
        l.skip(4) == payload,
{
    reveal(stands);
    assert(l.skip(4) =~= l.subrange(4, l.len() as int));
}

/// What a player finds in an initialization segment: the type, and a movie with
/// a header, the tracks there are, and their defaults. The video track has
/// number 1, its size in pixels in the header and in the sample entry, 90000
/// ticks a second, and the decoder configuration; the audio track has number 2,
/// as many ticks a second as samples, the channels, and its configuration.
pub proof fn tracks_read_back(video: Option<VideoTrackView>, audio: Option<AudioTrackView>)
    requires
        video matches Some(v) ==> v.width < 0x1_0000 && v.height < 0x1_0000 && v.avcc.len()
            < 0x100_0000,
        audio matches Some(a) ==> a.sample_rate < 0x1_0000 && a.asc.len() < 0x100_0000,
    ensures
        ({
            let top = boxes(init_bytes(video, audio));
            let parts = boxes(top[1].1);
            let first = if video is Some {
                1int
            } else {
                0
            };
            let second = if audio is Some {
                1int
            } else {
                0
            };
            &&& top.len() == 2
            &&& top[0].0 == 0x6674_7970
            &&& top[1].0 == 0x6D6F_6F76
            &&& parts.len() == 2 + first + second
            &&& parts[0].0 == 0x6D76_6864
            &&& video matches Some(v) ==> {
                let trak = parts[1];
                &&& trak.0 == 0x7472_616B
                &&& tells_track(
                    trak.1,
                    1,
                    v.width as int,
                    v.height as int,
                    90_000,
                    0x7669_6465,
                )
                &&& entry_of(trak.1).0 == 0x6176_6331
                &&& tells_video(entry_of(trak.1).1, v.width as int, v.height as int, v.avcc)
            }
            &&& audio matches Some(a) ==> {
                let trak = parts[1 + first];
                &&& trak.0 == 0x7472_616B
                &&& tells_track(trak.1, 2, 0, 0, a.sample_rate as int, 0x736F_756E)
                &&& entry_of(trak.1).0 == 0x6D70_3461
                &&& tells_audio(
                    entry_of(trak.1).1,
                    a.sample_rate as int,
                    a.channels as int,
                    a.bitrate as int,
                    a.asc,
                )
            }
        }),
{
    let none = Seq::<u8>::empty();
    let v = match video {
        Some(t) => vtrak(t),
        None => none,
    };
    let a = match audio {
        Some(t) => atrak(t),
        None => none,
    };
    let head = mv();
    let tail = ex(video is Some, audio is Some);
    lemma_init_is(video, audio);
    lemma_ends(video is Some, audio is Some);
    let mh = choose|c: Seq<u8>| #[trigger] is_box(head, 0x6D76_6864, c);
    let mt = choose|c: Seq<u8>| #[trigger] is_box(tail, 0x6D76_6578, c);
    lemma_one_box(tail, 0x6D76_6578, mt);
    if let Some(t) = video {
        lemma_video_trak(t);
    }
    if let Some(t) = audio {
        lemma_audio_trak(t);
    }
    let inner = head + v + a + tail;
    let movie = bx(0x6D6F_6F76, inner);
    lemma_is_box(0x6D6F_6F76, inner);
    let ft = choose|c: Seq<u8>| #[trigger] is_box(ty(), 0x6674_7970, c);
    lemma_two_boxes(ty(), (0x6674_7970, ft), movie, (0x6D6F_6F76, inner));
    assert(inner =~= head + (v + (a + tail)));
    lemma_box_front(head, 0x6D76_6864, mh, v + (a + tail));
    if let Some(t) = video {
        let c = vtrak_contents(t);
        lemma_box_front(v, 0x7472_616B, c, a + tail);
    } else {
        assert(v + (a + tail) =~= a + tail);
    }
    if let Some(t) = audio {
        let c = atrak_contents(t);
        lemma_box_front(a, 0x7472_616B, c, tail);
    } else {
        assert(a + tail =~= tail);
    }
}

#[verifier::opaque]
spec fn mv() -> Seq<u8> {
    mvhd()
}

#[verifier::opaque]
spec fn ty() -> Seq<u8> {
    ftyp()
}

#[verifier::opaque]
spec fn ex(video: bool, audio: bool) -> Seq<u8> {
    mp4_box(
        0x6D76_6578,
        (if video {
            trex(1)
        } else {
            Seq::empty()
        }) + (if audio {
            trex(2)
        } else {
            Seq::empty()
        }),
    )
}

#[verifier::opaque]
spec fn vtrak(t: VideoTrackView) -> Seq<u8> {
    video_trak(t)
}

#[verifier::opaque]
spec fn atrak(t: AudioTrackView) -> Seq<u8> {
    audio_trak(t)
}

#[verifier::opaque]
spec fn vh() -> Seq<u8> {
    vmhd()
}

#[verifier::opaque]
spec fn sh() -> Seq<u8> {
    smhd()
}

#[verifier::opaque]
spec fn vtrak_contents(t: VideoTrackView) -> Seq<u8> {
    tk(1, 0, t.width, t.height) + media(90_000, 0x7669_6465, vh(), avc(t.avcc, t.width, t.height))
}

#[verifier::opaque]
spec fn atrak_contents(t: AudioTrackView) -> Seq<u8> {
    tk(2, 0x0100, 0, 0) + media(
        t.sample_rate,
        0x736F_756E,
        sh(),
        aac(t.asc, t.sample_rate, t.channels, t.bitrate),
    )
}

proof fn lemma_init_is(video: Option<VideoTrackView>, audio: Option<AudioTrackView>)
    ensures
        init_bytes(video, audio) == ty() + bx(
            0x6D6F_6F76,
            mv() + match video {
                Some(t) => vtrak(t),
                None => Seq::empty(),
            } + match audio {
                Some(t) => atrak(t),
                None => Seq::empty(),
            } + ex(video is Some, audio is Some),
        ),
{
    reveal(init_bytes);
    reveal(ty);
    reveal(mv);
    reveal(ex);
    reveal(vtrak);
    reveal(atrak);
    reveal(bx);
}

proof fn lemma_ends(video: bool, audio: bool)
    ensures
        exists|c: Seq<u8>| #[trigger] is_box(mv(), 0x6D76_6864, c),
        mv().len() == 108,
        exists|c: Seq<u8>| #[trigger] is_box(ex(video, audio), 0x6D76_6578, c),
        ex(video, audio).len() < 100,
        exists|c: Seq<u8>| #[trigger] is_box(ty(), 0x6674_7970, c),
{
    let p = nil(8) + num(1000) + num(0) + num(0x0001_0000) + num2(0x0100) + nil(10) + matrix()
        + nil(24) + num(3);
    assert(mv() == fbx(0x6D76_6864, 0, 0, p)) by {
        reveal(mv);
        reveal(fbx);
        reveal(nil);
        reveal(num);
        reveal(num2);
        reveal(matrix);
    }
    lemma_num(1000);
    lemma_num(0);
    lemma_num(0x0001_0000);
    lemma_num(3);
    lemma_small_parts(0x0100, 8);
    lemma_small_parts(0, 10);
    lemma_small_parts(0, 24);
    lemma_matrix();
    lemma_full(0x6D76_6864, 0, 0, p);
    let d = tx(1);
    let e = tx(2);
    lemma_tx(1);
    lemma_tx(2);
    let none = Seq::<u8>::empty();
    let both = (if video {
        d
    } else {
        none
    }) + (if audio {
        e
    } else {
        none
    });
    assert(ex(video, audio) == bx(0x6D76_6578, both)) by {
        reveal(ex);
        reveal(tx);
        reveal(bx);
    }
    lemma_is_box(0x6D76_6578, both);
    let b = num(0x6973_6F36) + num(0) + num(0x6973_6F36) + num(0x636D_6663) + num(0x6D70_3431);
    lemma_num(0x6973_6F36);
    lemma_num(0x636D_6663);
    lemma_num(0x6D70_3431);
    assert(ty() == bx(0x6674_7970, b)) by {
        reveal(ty);
        reveal(bx);
        reveal(num);
    }
    lemma_is_box(0x6674_7970, b);
}

#[verifier::opaque]
spec fn tx(id: u32) -> Seq<u8> {
    trex(id)
}

proof fn lemma_tx(id: u32)
    ensures
        tx(id).len() == 32,
{
    reveal(tx);
}

proof fn lemma_video_trak(t: VideoTrackView)
    requires
        t.width < 0x1_0000 && t.height < 0x1_0000 && t.avcc.len() < 0x100_0000,
    ensures
        ({
            let c = vtrak_contents(t);
            &&& is_box(vtrak(t), 0x7472_616B, c)
            &&& vtrak(t).len() < 0x4000_0000
            &&& tells_track(c, 1, t.width as int, t.height as int, 90_000, 0x7669_6465)
            &&& entry_of(c).0 == 0x6176_6331
            &&& tells_video(entry_of(c).1, t.width as int, t.height as int, t.avcc)
        }),
{
    let entry = avc(t.avcc, t.width, t.height);
    let e = avc_contents(t.avcc, t.width, t.height);
    let c = vtrak_contents(t);
    assert(c == tk(1, 0, t.width, t.height) + media(90_000, 0x7669_6465, vh(), entry)) by {
        reveal(vtrak_contents);
    }
    assert(vtrak(t) == bx(0x7472_616B, c)) by {
        reveal(vtrak);
        reveal(bx);
        reveal(tk);
        reveal(media);
        reveal(vh);
        reveal(avc);
    }
    assert(vh() == fbx(0x766D_6864, 0, 1, nil(8))) by {
        reveal(vh);
        reveal(fbx);
        reveal(nil);
    }
    lemma_small_parts(0, 8);
    lemma_full(0x766D_6864, 0, 1, nil(8));
    lemma_avc(t.avcc, t.width, t.height);
    lemma_track(
        1,
        0,
        t.width,
        t.height,
        90_000,
        0x7669_6465,
        vh(),
        (0x766D_6864, full(0, 1, nil(8))),
        entry,
        (0x6176_6331, e),
    );
    lemma_track_size(1, 0, t.width, t.height, 90_000, 0x7669_6465, vh(), entry);
}

proof fn lemma_track_size(
    id: u32,
    volume: u16,
    width: u32,
    height: u32,
    timescale: u32,
    handler: u32,
    header: Seq<u8>,
    entry: Seq<u8>,
)
    requires
        width < 0x1_0000,
        height < 0x1_0000,
    ensures
        bx(
            0x7472_616B,
            tk(id, volume, width, height) + media(timescale, handler, header, entry),
        ).len() == 8 + 92 + (8 + 32 + 33 + (8 + header.len() + 36 + (8 + (16 + entry.len()) + 68))),
{
    lemma_tk(id, volume, width, height);
    lemma_md(timescale);
    lemma_hd(handler);
    lemma_di();
    lemma_tables();
    assert(media(timescale, handler, header, entry) == bx(
        0x6D64_6961,
        md(timescale) + hd(handler) + inf(header, entry),
    )) by {
        reveal(media);
        reveal(md);
        reveal(hd);
        reveal(inf);
        reveal(bx);
    }
    lemma_inf_size(header, entry);
    lemma_box_size(0x6D64_6961, md(timescale) + hd(handler) + inf(header, entry));
    lemma_box_size(
        0x7472_616B,
        tk(id, volume, width, height) + media(timescale, handler, header, entry),
    );
}

proof fn lemma_inf_size(header: Seq<u8>, entry: Seq<u8>)
    ensures
        inf(header, entry).len() == 8 + header.len() + 36 + (8 + (16 + entry.len()) + 68),
{
    reveal(inf);
}

proof fn lemma_audio_trak(t: AudioTrackView)
    requires
        t.sample_rate < 0x1_0000 && t.asc.len() < 0x100_0000,
    ensures
        ({
            let c = atrak_contents(t);
            &&& is_box(atrak(t), 0x7472_616B, c)
            &&& atrak(t).len() < 0x4000_0000
            &&& tells_track(c, 2, 0, 0, t.sample_rate as int, 0x736F_756E)
            &&& entry_of(c).0 == 0x6D70_3461
            &&& tells_audio(
                entry_of(c).1,
                t.sample_rate as int,
                t.channels as int,
                t.bitrate as int,
                t.asc,
            )
        }),
{
    let entry = aac(t.asc, t.sample_rate, t.channels, t.bitrate);
    let e = aac_contents(t.asc, t.sample_rate, t.channels, t.bitrate);
    let c = atrak_contents(t);
    assert(c == tk(2, 0x0100, 0, 0) + media(t.sample_rate, 0x736F_756E, sh(), entry)) by {
        reveal(atrak_contents);
    }
    assert(atrak(t) == bx(0x7472_616B, c)) by {
        reveal(atrak);
        reveal(bx);
        reveal(tk);
        reveal(media);
        reveal(sh);
        reveal(aac);
    }
    assert(sh() == fbx(0x736D_6864, 0, 0, nil(4))) by {
        reveal(sh);
        reveal(fbx);
        reveal(nil);
    }
    lemma_small_parts(0, 4);
    lemma_full(0x736D_6864, 0, 0, nil(4));
    lemma_aac(t.asc, t.sample_rate, t.channels, t.bitrate);
    lemma_track(
        2,
        0x0100,
        0,
        0,
        t.sample_rate,
        0x736F_756E,
        sh(),
        (0x736D_6864, full(0, 0, nil(4))),
        entry,
        (0x6D70_3461, e),
    );
    lemma_track_size(2, 0x0100, 0, 0, t.sample_rate, 0x736F_756E, sh(), entry);
}

} // verus!
