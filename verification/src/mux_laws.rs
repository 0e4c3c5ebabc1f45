//! What holds of everything the FLV muxer writes: timestamps never go back, a
//! resumed stream goes on where the broken one stopped, a clock jump is
//! absorbed, and every frame decodes to what was put in.

use vstd::arithmetic::power2::{lemma_pow2_pos, pow2};
use vstd::prelude::*;
use vstd::string::*;

use crate::bytes;
use crate::bytes::be24;
use crate::codecs::aac::adts_payload;
use crate::codecs::h264::{
    annex_b, annex_b_units, length_prefixed, length_prefixed_round_trip, prefixed_units,
    units_are_not_empty, units_are_parts,
};
use crate::flv::{
    flv_header, lemma_tags_concat, signed_be24, tag_body, tag_bytes, tags_bytes, DecodedView,
    TagView, TAG_AUDIO, TAG_VIDEO,
};
use crate::models::{MediaKind, PacketView, StreamConfig};
use crate::mux::{
    audio_frame_body, audio_sequence_body, clamp_offset, flv_ts, metadata_fields,
    video_frame_body, video_sequence_body, MuxView, Refusal,
};
use crate::rounding::{small_wholes_are_exact, units};
use crate::rtmp::amf0::{ecma_array_bytes, is_field, scalar_bytes, values_at, ValView};
use crate::rtmp::amf0_laws::{
    lemma_last_array, lemma_one_scalar, lemma_utf8_len, lemma_value_of, scalars_are_laid_out,
    value_of,
};
use crate::rtmp::client::tag_message;
use crate::rtmp::tags::{parse_tags, written_streams_parse, FlvPhase, Parsed};

verus! {

/// True if the timestamps of `tags` never go back, start at `low` or later and
/// end at `high` or earlier.
pub open spec fn in_order(tags: Seq<TagView>, low: u32, high: u32) -> bool {
    &&& low <= high
    &&& forall|i: int| 0 <= i < tags.len() ==> low <= (#[trigger] tags[i]).ts <= high
    &&& forall|i: int, j: int|
        0 <= i <= j < tags.len() ==> (#[trigger] tags[i]).ts <= (#[trigger] tags[j]).ts
}

/// Two runs of tags in order, the second starting where the first may end.
pub proof fn lemma_in_order_concat(a: Seq<TagView>, b: Seq<TagView>, x: u32, y: u32, z: u32)
    requires
        in_order(a, x, y),
        in_order(b, y, z),
    ensures
        in_order(a + b, x, z),
{
    let c = a + b;
    assert forall|i: int| 0 <= i < c.len() implies x <= (#[trigger] c[i]).ts <= z by {
        if i < a.len() {
            assert(c[i] == a[i]);
        } else {
            assert(c[i] == b[i - a.len()]);
        }
    }
    assert forall|i: int, j: int| 0 <= i <= j < c.len() implies (#[trigger] c[i]).ts <= (
    #[trigger] c[j]).ts by {
        if j < a.len() {
            assert(c[i] == a[i] && c[j] == a[j]);
        } else if i < a.len() {
            assert(c[i] == a[i] && c[j] == b[j - a.len()]);
        } else {
            assert(c[i] == b[i - a.len()] && c[j] == b[j - a.len()]);
        }
    }
}

/// What one packet adds never goes back behind what was there, refused or not.
pub proof fn packets_keep_order(s: MuxView, p: PacketView)
    ensures
        in_order(
            s.packet_tags(p),
            flv_ts(s.header_ts()),
            flv_ts(s.with_packet(p).header_ts()),
        ),
{
}

/// Metadata and sequence headers are stamped with the point the stream has
/// reached and do not move it.
pub proof fn headers_keep_order(
    s: MuxView,
    config: StreamConfig,
    avcc: Option<Seq<u8>>,
    asc: Option<Seq<u8>>,
)
    ensures
        s.begun().header_ts() == s.header_ts(),
        s.with_codecs(avcc, asc).header_ts() == s.header_ts(),
        in_order(s.metadata_tags(config), flv_ts(s.header_ts()), flv_ts(s.header_ts())),
        in_order(s.codec_tags(avcc, asc), flv_ts(s.header_ts()), flv_ts(s.header_ts())),
{
}

/// The tags for a run of packets.
pub open spec fn run_tags(s: MuxView, packets: Seq<PacketView>) -> Seq<TagView>
    decreases packets.len(),
{
    if packets.len() == 0 {
        Seq::empty()
    } else {
        s.packet_tags(packets.first()) + run_tags(
            s.with_packet(packets.first()),
            packets.drop_first(),
        )
    }
}

/// The state behind a run of packets.
pub open spec fn run_state(s: MuxView, packets: Seq<PacketView>) -> MuxView
    decreases packets.len(),
{
    if packets.len() == 0 {
        s
    } else {
        run_state(s.with_packet(packets.first()), packets.drop_first())
    }
}

/// Whatever packets come in, in whatever order, the timestamps that go out
/// never go back.
pub proof fn timestamps_never_go_back(s: MuxView, packets: Seq<PacketView>)
    ensures
        in_order(
            run_tags(s, packets),
            flv_ts(s.header_ts()),
            flv_ts(run_state(s, packets).header_ts()),
        ),
    decreases packets.len(),
{
    if packets.len() > 0 {
        let p = packets.first();
        let next = s.with_packet(p);
        let rest = packets.drop_first();
        packets_keep_order(s, p);
        timestamps_never_go_back(next, rest);
        lemma_in_order_concat(
            s.packet_tags(p),
            run_tags(next, rest),
            flv_ts(s.header_ts()),
            flv_ts(next.header_ts()),
            flv_ts(run_state(next, rest).header_ts()),
        );
    }
}

/// A muxer that takes over another one's origin and high-water mark gives a
/// packet the timestamp that the other one would have given it, and refuses it
/// for its time exactly when the other one would have.
pub proof fn resumed_streams_go_on(before: MuxView, fresh: MuxView, p: PacketView)
    requires
        fresh.origin == before.origin,
        fresh.last_dts == before.last_dts,
    ensures
        fresh.muxed_dts(p) == before.muxed_dts(p),
        fresh.offset_of(p) == before.offset_of(p),
        fresh.too_late(p) == before.too_late(p),
        fresh.header_ts() == before.header_ts(),
        fresh.frame_tag(p) == before.frame_tag(p),
{
}

/// After a rebase on its decode timestamp a packet is not late, and goes out
/// exactly at the point the stream has reached. (The distance to that point
/// must fit the clock.)
pub proof fn rebasing_absorbs_clock_jumps(s: MuxView, p: PacketView)
    requires
        i64::MIN <= s.last_dts <= i64::MAX,
        i64::MIN <= p.dts - s.header_ts() <= i64::MAX,
    ensures
        !s.rebased(p.dts).too_late(p),
        s.rebased(p.dts).muxed_dts(p) == s.header_ts(),
        s.rebased(p.dts).header_ts() == s.header_ts(),
{
}

proof fn lemma_offset_bytes(c: int, rest: Seq<u8>)
    requires
        -0x80_0000 <= c <= 0x7F_FFFF,
    ensures
        signed_be24(be24(c) + rest) == c,
        be24(c).len() == 3,
{
    if c < 0 {
        bytes::lemma_be24_shift(c);
        bytes::lemma_front_be24(c + 0x100_0000, rest);
    } else {
        bytes::lemma_front_be24(c, rest);
    }
}

/// A muxed video frame decodes to its timestamps, its key flag and its NAL
/// units. (Their lengths must fit the four-byte field; a frame without any
/// unit is no frame.)
pub proof fn video_frames_decode(ts: u32, is_key: bool, cts: int, data: Seq<u8>)
    requires
        annex_b_units(data).len() > 0,
        forall|i: int|
            0 <= i < annex_b_units(data).len() ==> (#[trigger] annex_b_units(data)[i]).len()
                < 0x1_0000_0000,
    ensures
        tag_body(TAG_VIDEO, ts as int, video_frame_body(is_key, cts, data)) == Some(
            DecodedView::Packet(
                PacketView {
                    kind: MediaKind::Video,
                    pts: ts + clamp_offset(cts),
                    dts: ts as int,
                    is_key,
                    data: annex_b(annex_b_units(data)),
                },
            ),
        ),
{
    let units = annex_b_units(data);
    let body = video_frame_body(is_key, cts, data);
    let c = clamp_offset(cts);
    let payload = length_prefixed(units);
    units_are_not_empty(data);
    length_prefixed_round_trip(units);
    lemma_offset_bytes(c, payload);
    assert(body.skip(2) =~= be24(c) + payload);
    assert(body.skip(5) =~= payload);
    assert(body[1] == 1);
}

/// A muxed audio frame decodes to its timestamp and its raw AAC payload.
pub proof fn audio_frames_decode(ts: u32, data: Seq<u8>)
    ensures
        tag_body(TAG_AUDIO, ts as int, audio_frame_body(data)) == Some(
            DecodedView::Packet(
                PacketView {
                    kind: MediaKind::Audio,
                    pts: ts as int,
                    dts: ts as int,
                    is_key: false,
                    data: adts_payload(data),
                },
            ),
        ),
{
    assert(audio_frame_body(data).skip(2) =~= adts_payload(data));
}

/// Sequence headers decode to the configurations they were made from. (An
/// empty configuration is none.)
pub proof fn sequence_headers_decode(ts: u32, config: Seq<u8>)
    requires
        config.len() > 0,
    ensures
        tag_body(TAG_VIDEO, ts as int, video_sequence_body(config)) == Some(
            DecodedView::VideoConfig(config),
        ),
        tag_body(TAG_AUDIO, ts as int, audio_sequence_body(config)) == Some(
            DecodedView::AudioConfig(config),
        ),
{
    assert(video_sequence_body(config).skip(5) =~= config);
    assert(audio_sequence_body(config).skip(2) =~= config);
}

/// One thing that is asked of a muxer.
pub enum MuxStep {
    /// Metadata.
    Metadata(StreamConfig),
    /// A video sequence header.
    Video(Seq<u8>),
    /// An audio sequence header.
    Audio(Seq<u8>),
    /// The sequence headers for the configurations that are given.
    Codecs(Option<Seq<u8>>, Option<Seq<u8>>),
    /// A packet.
    Packet(PacketView),
    /// A rebase on this decode timestamp.
    Rebase(int),
}

impl MuxStep {
    /// The tags that the step adds.
    pub open spec fn tags(self, s: MuxView) -> Seq<TagView> {
        match self {
            MuxStep::Metadata(config) => s.metadata_tags(config),
            MuxStep::Video(avcc) => s.video_sequence_tags(avcc),
            MuxStep::Audio(asc) => s.audio_sequence_tags(asc),
            MuxStep::Codecs(avcc, asc) => s.codec_tags(avcc, asc),
            MuxStep::Packet(p) => s.packet_tags(p),
            MuxStep::Rebase(_) => Seq::empty(),
        }
    }

    /// The state behind the step.
    pub open spec fn next(self, s: MuxView) -> MuxView {
        match self {
            MuxStep::Metadata(_) => s.begun(),
            MuxStep::Video(avcc) => s.with_video_sequence(avcc),
            MuxStep::Audio(asc) => s.with_audio_sequence(asc),
            MuxStep::Codecs(avcc, asc) => s.with_codecs(avcc, asc),
            MuxStep::Packet(p) => s.with_packet(p),
            MuxStep::Rebase(dts) => s.rebased(dts),
        }
    }

    /// The bytes that the step writes: the FLV header where it is the first to
    /// write, and its tags.
    pub open spec fn out(self, s: MuxView) -> Seq<u8> {
        let silent = match self {
            MuxStep::Codecs(avcc, asc) => avcc is None && asc is None,
            MuxStep::Rebase(_) => true,
            _ => false,
        };
        (if silent {
            Seq::empty()
        } else {
            s.preamble()
        }) + tags_bytes(self.tags(s))
    }
}

/// The tags that a run of steps adds.
pub open spec fn mixed_tags(s: MuxView, steps: Seq<MuxStep>) -> Seq<TagView>
    decreases steps.len(),
{
    if steps.len() == 0 {
        Seq::empty()
    } else {
        steps.first().tags(s) + mixed_tags(steps.first().next(s), steps.drop_first())
    }
}

/// The state behind a run of steps.
pub open spec fn mixed_state(s: MuxView, steps: Seq<MuxStep>) -> MuxView
    decreases steps.len(),
{
    if steps.len() == 0 {
        s
    } else {
        mixed_state(steps.first().next(s), steps.drop_first())
    }
}

/// The bytes that a run of steps writes.
pub open spec fn mixed_out(s: MuxView, steps: Seq<MuxStep>) -> Seq<u8>
    decreases steps.len(),
{
    if steps.len() == 0 {
        Seq::empty()
    } else {
        steps.first().out(s) + mixed_out(steps.first().next(s), steps.drop_first())
    }
}

/// How long some tags are on the wire: fifteen bytes and the body each.
pub open spec fn wire_len(tags: Seq<TagView>) -> nat
    decreases tags.len(),
{
    if tags.len() == 0 {
        0
    } else {
        15 + tags.first().body.len() + wire_len(tags.drop_first())
    }
}

proof fn lemma_wire_len(tags: Seq<TagView>)
    ensures
        tags_bytes(tags).len() == wire_len(tags),
    decreases tags.len(),
{
    if tags.len() > 0 {
        lemma_wire_len(tags.drop_first());
        assert(tag_bytes(tags.first()).len() == 15 + tags.first().body.len());
    }
}

/// One step moves the state on and never back, and writes what its tags are.
proof fn lemma_step(s: MuxView, step: MuxStep)
    ensures
        s.started ==> step.next(s).started,
        !step.next(s).started ==> step.tags(s).len() == 0,
        step.out(s) == (if !s.started && step.next(s).started {
            flv_header()
        } else {
            Seq::empty()
        }) + tags_bytes(step.tags(s)),
        in_order(step.tags(s), flv_ts(s.header_ts()), flv_ts(step.next(s).header_ts())),
{
    match step {
        MuxStep::Metadata(config) => {
            headers_keep_order(s, config, None, None);
        },
        MuxStep::Packet(p) => {
            packets_keep_order(s, p);
        },
        _ => {},
    }
}

proof fn lemma_mixed(s: MuxView, steps: Seq<MuxStep>)
    ensures
        s.started ==> mixed_state(s, steps).started,
        !mixed_state(s, steps).started ==> mixed_tags(s, steps).len() == 0,
        mixed_out(s, steps) == (if !s.started && mixed_state(s, steps).started {
            flv_header()
        } else {
            Seq::empty()
        }) + tags_bytes(mixed_tags(s, steps)),
        in_order(
            mixed_tags(s, steps),
            flv_ts(s.header_ts()),
            flv_ts(mixed_state(s, steps).header_ts()),
        ),
    decreases steps.len(),
{
    if steps.len() == 0 {
        assert(mixed_out(s, steps) =~= Seq::<u8>::empty() + tags_bytes(Seq::empty()));
    } else {
        let step = steps.first();
        let next = step.next(s);
        let rest = steps.drop_first();
        lemma_step(s, step);
        lemma_mixed(next, rest);
        lemma_in_order_concat(
            step.tags(s),
            mixed_tags(next, rest),
            flv_ts(s.header_ts()),
            flv_ts(next.header_ts()),
            flv_ts(mixed_state(next, rest).header_ts()),
        );
        lemma_tags_concat(step.tags(s), mixed_tags(next, rest));
        let none = Seq::<u8>::empty();
        let a = tags_bytes(step.tags(s));
        let b = tags_bytes(mixed_tags(next, rest));
        if next.started {
            assert(mixed_out(next, rest) =~= b);
            if s.started {
                assert(step.out(s) =~= a);
                assert(mixed_out(s, steps) =~= none + (a + b));
            } else {
                assert(mixed_out(s, steps) =~= flv_header() + (a + b));
            }
        } else {
            assert(step.tags(s) =~= Seq::<TagView>::empty());
            assert(a =~= none);
            assert(step.out(s) =~= none);
            assert(step.tags(s) + mixed_tags(next, rest) =~= mixed_tags(next, rest));
            assert(mixed_out(s, steps) =~= mixed_out(next, rest));
        }
    }
}

/// Whatever headers, packets and rebases come in, in whatever order, what a
/// muxer has written parses back to one tag for each that it emitted, in order,
/// and to nothing else; its length is that of the FLV header and the tags; and
/// the timestamps never go back. A muxer that emitted nothing yet may have
/// written nothing at all. (A body must fit the 24-bit size field.)
pub proof fn mixed_runs_parse(steps: Seq<MuxStep>)
    requires
        forall|i: int|
            0 <= i < mixed_tags(MuxView::fresh(), steps).len() ==> (#[trigger] mixed_tags(
                MuxView::fresh(),
                steps,
            )[i]).body.len() < 0x100_0000,
    ensures
        ({
            let tags = mixed_tags(MuxView::fresh(), steps);
            let out = mixed_out(MuxView::fresh(), steps);
            let state = mixed_state(MuxView::fresh(), steps);
            &&& in_order(tags, 0, flv_ts(state.header_ts()))
            &&& if state.started {
                &&& parse_tags(FlvPhase::Header, out) == (Parsed {
                    tags: Some(tags),
                    phase: FlvPhase::TagHeader,
                    rest: Seq::empty(),
                })
                &&& out.len() == 13 + wire_len(tags)
            } else {
                tags.len() == 0 && out.len() == 0
            }
        }),
{
    let tags = mixed_tags(MuxView::fresh(), steps);
    lemma_mixed(MuxView::fresh(), steps);
    lemma_wire_len(tags);
    written_streams_parse(tags);
    if !mixed_state(MuxView::fresh(), steps).started {
        assert(tags =~= Seq::<TagView>::empty());
    }
}

// ---------------------------------------------------------------------------
// Metadata
// ---------------------------------------------------------------------------

/// The number under `key` in a list of fields, in units of 2^-1074.
pub open spec fn quantity(fields: Seq<(Seq<char>, ValView)>, key: Seq<char>) -> Option<int> {
    match value_of(fields, key) {
        Some(ValView::Number(bits)) => Some(units(bits as int)),
        _ => None,
    }
}

proof fn lemma_metadata_names()
    ensures
        "duration"@.len() == 8,
        "width"@.len() == 5,
        "height"@.len() == 6,
        "framerate"@.len() == 9,
        "videocodecid"@.len() == 12,
        "audiocodecid"@.len() == 12,
        "audiosamplerate"@.len() == 15,
        "videocodecid"@[0] == 'v',
        "audiocodecid"@[0] == 'a',
        "onMetaData"@.len() == 10,
{
    reveal_strlit("duration");
    reveal_strlit("width");
    reveal_strlit("height");
    reveal_strlit("framerate");
    reveal_strlit("videocodecid");
    reveal_strlit("audiocodecid");
    reveal_strlit("audiosamplerate");
    reveal_strlit("onMetaData");
}

/// Whoever decodes the script tag finds `onMetaData` and an array in which each
/// name stands for what the stream is configured to: the width, the height and
/// the sample rate by their values, the frame rate as it was given, and AVC and
/// AAC by their codec numbers.
pub proof fn metadata_tells_the_configuration(m: MuxView, c: StreamConfig)
    ensures
        m.metadata_tags(c).len() == 1,
        m.metadata_tags(c)[0].kind == 18,
        ({
            let vals = values_at(m.metadata_tags(c)[0].body);
            &&& vals.len() == 2
            &&& vals[0] == ValView::String("onMetaData"@)
            &&& vals[1] matches ValView::Object(fields) && {
                &&& quantity(fields, "width"@) == Some(c.width * pow2(1074))
                &&& quantity(fields, "height"@) == Some(c.height * pow2(1074))
                &&& quantity(fields, "audiosamplerate"@) == Some(c.sample_rate * pow2(1074))
                &&& value_of(fields, "framerate"@) == Some(ValView::Number(c.framerate))
                &&& quantity(fields, "videocodecid"@) == Some(7 * pow2(1074) as int)
                &&& quantity(fields, "audiocodecid"@) == Some(10 * pow2(1074) as int)
                &&& quantity(fields, "duration"@) == Some(0int)
            }
        }),
{
    let fields = metadata_fields(c);
    let name = ValView::String("onMetaData"@);
    lemma_metadata_names();
    lemma_utf8_len("onMetaData"@);
    assert forall|i: int| 0 <= i < fields.len() implies is_field(#[trigger] fields[i]) by {
        lemma_utf8_len(fields[i].0);
    }
    lemma_one_scalar(name, ecma_array_bytes(fields));
    lemma_last_array(fields);
    assert(seq![name] + seq![ValView::Object(fields)] =~= seq![name, ValView::Object(fields)]);
    assert forall|i: int| 0 <= i < 7 implies value_of(fields, (#[trigger] fields[i]).0) == Some(
        fields[i].1,
    ) by {
        lemma_value_of(fields, i);
    }
    assert(fields[0].0 == "duration"@ && fields[1].0 == "width"@ && fields[2].0 == "height"@);
    assert(fields[3].0 == "framerate"@ && fields[4].0 == "videocodecid"@);
    assert(fields[5].0 == "audiocodecid"@ && fields[6].0 == "audiosamplerate"@);
    small_wholes_are_exact(c.width as u64);
    small_wholes_are_exact(c.height as u64);
    small_wholes_are_exact(c.sample_rate as u64);
    small_wholes_are_exact(7);
    small_wholes_are_exact(10);
    assert(units(0) == 0);
}

/// Configurations that differ in what the metadata tells have different
/// metadata.
pub proof fn metadata_tells_configurations_apart(m: MuxView, a: StreamConfig, b: StreamConfig)
    requires
        m.metadata_tags(a) == m.metadata_tags(b),
    ensures
        a.width == b.width,
        a.height == b.height,
        a.framerate == b.framerate,
        a.sample_rate == b.sample_rate,
{
    metadata_tells_the_configuration(m, a);
    metadata_tells_the_configuration(m, b);
    let t = pow2(1074) as int;
    lemma_pow2_pos(1074);
    assert forall|x: int, y: int| #![trigger x * t, y * t] x * t == y * t implies x == y by {
        assert(x * t == y * t ==> x == y) by (nonlinear_arith)
            requires
                t > 0,
        ;
    }
    assert(a.width * t == b.width * t);
    assert(a.height * t == b.height * t);
    assert(a.sample_rate * t == b.sample_rate * t);
}

// ---------------------------------------------------------------------------
// Layout
// ---------------------------------------------------------------------------

/// How a tag is laid out (FLV, annex E.4.1): its type, the length of its body,
/// the low three bytes of its time and then the high one, three zeros, the body,
/// and the length of all that; numbers have their most significant byte first.
pub proof fn tags_are_laid_out(t: TagView)
    requires
        t.body.len() < 0x100_0000,
    ensures
        ({
            let d = tag_bytes(t);
            let n = t.body.len() as int;
            &&& d.len() == 15 + n
            &&& d[0] == t.kind
            &&& d[1] * 0x1_0000 + d[2] * 0x100 + d[3] == n
            &&& d[7] * 0x100_0000 + d[4] * 0x1_0000 + d[5] * 0x100 + d[6] == t.ts
            &&& d[8] == 0 && d[9] == 0 && d[10] == 0
            &&& d.subrange(11, 11 + n) == t.body
            &&& d[11 + n] * 0x100_0000 + d[12 + n] * 0x1_0000 + d[13 + n] * 0x100 + d[14 + n] == 11
                + n
        }),
{
    let d = tag_bytes(t);
    let n = t.body.len() as int;
    let low = t.ts as int % 0x100_0000;
    bytes::bytes_are_in_order(n);
    bytes::bytes_are_in_order(low);
    bytes::bytes_are_in_order(11 + n);
    bytes::lemma_be24_low(t.ts as int);
    let size = be24(n);
    let time = be24(t.ts as int);
    let back = crate::bytes::be32(11 + n);
    assert(d[1] == size[0] && d[2] == size[1] && d[3] == size[2]);
    assert(d[4] == time[0] && d[5] == time[1] && d[6] == time[2]);
    assert(d.subrange(11, 11 + n) =~= t.body);
    assert(d[11 + n] == back[0] && d[12 + n] == back[1] && d[13 + n] == back[2] && d[14 + n]
        == back[3]);
}

/// What a muxer writes first, and only first: the letters FLV, version 1, the
/// flags for audio and video, the header's own length, and the length of the tag
/// before the first, which is none.
pub proof fn streams_begin_with_the_header(m: MuxView)
    ensures
        !m.started ==> m.preamble() == seq![
            'F' as u8,
            'L' as u8,
            'V' as u8,
            1u8,
            5u8,
            0,
            0,
            0,
            9,
            0,
            0,
            0,
            0,
        ],
        m.started ==> m.preamble().len() == 0,
        m.begun().started,
{
    assert('F' as u8 == 0x46 && 'L' as u8 == 0x4C && 'V' as u8 == 0x56);
    if !m.started {
        assert(m.preamble() =~= seq![
            'F' as u8,
            'L' as u8,
            'V' as u8,
            1u8,
            5u8,
            0,
            0,
            0,
            9,
            0,
            0,
            0,
            0,
        ]);
    }
}

/// How frames are laid out (FLV, annex E.4.2 and E.4.3). Video: 1 for a keyframe
/// or 2 for another in the upper half of the first byte, and 7 for AVC in the
/// lower; 1 for NAL units; the composition offset in three bytes, in two's
/// complement; and the units, each behind its length. Audio: 10 for AAC in the
/// upper half of the first byte; 1 for a raw frame; and the frame.
pub proof fn frames_are_laid_out(is_key: bool, cts: int, data: Seq<u8>)
    requires
        -0x80_0000 <= cts < 0x80_0000,
        data.len() < 0x1_0000_0000,
    ensures
        ({
            let v = video_frame_body(is_key, cts, data);
            let c = v[2] * 0x1_0000 + v[3] * 0x100 + v[4];
            &&& v.len() >= 5
            &&& v[0] / 16 == if is_key {
                1int
            } else {
                2
            }
            &&& v[0] % 16 == 7
            &&& v[1] == 1
            &&& c == cts || c == cts + 0x100_0000
            &&& prefixed_units(v.skip(5)) == Some(annex_b_units(data))
        }),
        ({
            let a = audio_frame_body(data);
            &&& a.len() >= 2
            &&& a[0] / 16 == 10
            &&& a[1] == 1
            &&& a.skip(2) == adts_payload(data)
        }),
{
    let v = video_frame_body(is_key, cts, data);
    let payload = length_prefixed(annex_b_units(data));
    if cts < 0 {
        bytes::lemma_be24_shift(cts);
        bytes::bytes_are_in_order(cts + 0x100_0000);
    } else {
        bytes::bytes_are_in_order(cts);
    }
    let c = be24(cts);
    assert(v[2] == c[0] && v[3] == c[1] && v[4] == c[2]);
    assert(v.skip(5) =~= payload);
    units_are_not_empty(data);
    units_are_parts(data);
    length_prefixed_round_trip(annex_b_units(data));
    assert(audio_frame_body(data).skip(2) =~= adts_payload(data));
}

/// How sequence headers are laid out: as a keyframe, or a frame of AAC, with a 0
/// in place of the 1, and the decoder configuration in place of the frame.
pub proof fn sequence_headers_are_laid_out(m: MuxView, avcc: Seq<u8>, asc: Seq<u8>)
    ensures
        !m.video_seq ==> m.video_sequence_tags(avcc).len() == 1 && {
            let t = m.video_sequence_tags(avcc)[0];
            t.kind == 9 && t.body == seq![0x17u8, 0, 0, 0, 0] + avcc
        },
        !m.audio_seq ==> m.audio_sequence_tags(asc).len() == 1 && {
            let t = m.audio_sequence_tags(asc)[0];
            t.kind == 8 && t.body == seq![0xAFu8, 0] + asc
        },
        m.video_seq ==> m.video_sequence_tags(avcc).len() == 0,
        m.audio_seq ==> m.audio_sequence_tags(asc).len() == 0,
        m.with_video_sequence(avcc).video_seq,
        m.with_audio_sequence(asc).audio_seq,
{
}

// ---------------------------------------------------------------------------
// Times
// ---------------------------------------------------------------------------

/// Tags are stamped with the time since the first packet of the stream, which is
/// at zero itself, and are shown as long after the first packet as their packet
/// said.
pub proof fn tags_count_from_the_first_packet(m: MuxView, p: PacketView)
    requires
        m.refusal(p) is None,
        -0x1000_0000_0000_0000 < p.dts < 0x1000_0000_0000_0000,
        -0x1000_0000_0000_0000 < p.pts < 0x1000_0000_0000_0000,
        m.origin matches Some(o) ==> -0x1000_0000_0000_0000 < o < 0x1000_0000_0000_0000
            && m.last_dts <= p.dts - o && 0 <= p.dts - o <= u32::MAX,
        m.origin is None ==> m.last_dts < 0,
    ensures
        m.origin is None ==> m.frame_tag(p).ts == 0 && m.with_packet(p).origin == Some(p.dts),
        m.origin matches Some(o) ==> m.frame_tag(p).ts == p.dts - o && m.with_packet(p).origin
            == Some(o),
        m.frame_tag(p).ts + m.offset_of(p) == p.pts - m.with_packet(p).origin->0,
        m.frame_tag(p).kind == if p.kind is Video {
            9u8
        } else {
            8
        },
{
}

/// Of two packets that are muxed one behind the other, the second is later by as
/// much as its decode time is, as long as the first was on its own time.
pub proof fn tags_keep_their_distance(m: MuxView, p: PacketView, q: PacketView)
    requires
        m.refusal(p) is None,
        m.with_packet(p).refusal(q) is None,
        p.dts <= q.dts,
        -0x1000_0000_0000_0000 < p.dts,
        q.dts < 0x1000_0000_0000_0000,
        m.origin matches Some(o) ==> -0x1000_0000_0000_0000 < o < 0x1000_0000_0000_0000
            && m.last_dts <= p.dts - o && 0 <= p.dts - o,
        m.origin is None ==> m.last_dts < 0,
        q.dts - m.origin_for(p) <= u32::MAX,
    ensures
        m.with_packet(p).frame_tag(q).ts - m.frame_tag(p).ts == q.dts - p.dts,
{
}

/// A decode time that slips back by at most 100 milliseconds is held at the time
/// the stream has reached; one that goes back further is refused, and changes no
/// time.
pub proof fn small_slips_are_held(m: MuxView, p: PacketView)
    requires
        m.origin is Some,
        !(m.lacks_config(p) && MuxView::config_in(p) is None),
        -0x1000_0000_0000_0000 < p.dts < 0x1000_0000_0000_0000,
        -0x1000_0000_0000_0000 < m.origin->0 < 0x1000_0000_0000_0000,
        0 <= m.last_dts <= u32::MAX,
        p.dts - m.origin->0 <= m.last_dts,
    ensures
        m.last_dts - (p.dts - m.origin->0) <= 100 ==> m.refusal(p) is None && m.frame_tag(p).ts
            == m.last_dts && m.with_packet(p).last_dts == m.last_dts,
        m.last_dts - (p.dts - m.origin->0) > 100 ==> m.refusal(p) == Some(Refusal::Backwards)
            && m.with_packet(p).last_dts == m.last_dts && m.with_packet(p).origin == m.origin,
{
}

/// A frame goes out behind its decoder configuration: a keyframe or a frame of
/// audio that comes before any brings its own, in a tag in front of it, or is
/// refused.
pub proof fn configurations_come_first(m: MuxView, p: PacketView)
    requires
        p.kind is Video ==> p.is_key && !m.video_seq,
        p.kind is Audio ==> !m.audio_seq,
    ensures
        m.refusal(p) is None ==> m.packet_tags(p).len() == 2 && {
            let first = m.packet_tags(p)[0];
            &&& first.kind == m.packet_tags(p)[1].kind
            &&& p.kind is Video ==> first.kind == 9 && first.body[1] == 0 && m.with_packet(
                p,
            ).video_seq && m.with_packet(p).avcc == Some(first.body.skip(5))
            &&& p.kind is Audio ==> first.kind == 8 && first.body[1] == 0 && m.with_packet(
                p,
            ).audio_seq && m.with_packet(p).asc == Some(first.body.skip(2))
        },
        MuxView::config_in(p) is None ==> m.refusal(p) is Some && m.packet_tags(p).len() == 0,
{
    if m.refusal(p) is None {
        let first = m.packet_tags(p)[0];
        let config = MuxView::config_in(p)->0;
        assert(m.packet_tags(p) =~= m.sniffed_tags(p) + seq![m.frame_tag(p)]);
        if p.kind is Video {
            assert(first.body.skip(5) =~= config);
        } else {
            assert(first.body.skip(2) =~= config);
        }
    }
}

// ---------------------------------------------------------------------------
// Publishing
// ---------------------------------------------------------------------------

/// What is published for a tag: video on chunk stream 7 and audio on chunk
/// stream 6, under the type of the tag, and with its body as it is.
pub proof fn media_is_published_as_it_is(tag: TagView)
    ensures
        tag.kind == 9 ==> tag_message(tag) == Some((7u8, 9u8, tag.body)),
        tag.kind == 8 ==> tag_message(tag) == Some((6u8, 8u8, tag.body)),
        tag.kind != 8 && tag.kind != 9 && tag.kind != 18 ==> tag_message(tag) is None,
{
}

/// What is published for metadata: the data message `@setDataFrame`, with the
/// name and the array that are in the tag.
pub proof fn metadata_is_published(m: MuxView, c: StreamConfig)
    ensures
        tag_message(m.metadata_tags(c)[0]) matches Some((cid, mtype, payload)) && {
            &&& cid == 3
            &&& mtype == 18
            &&& values_at(payload) == seq![ValView::String("@setDataFrame"@)] + values_at(
                m.metadata_tags(c)[0].body,
            )
        },
{
    let tag = m.metadata_tags(c)[0];
    let body = tag.body;
    let fields = metadata_fields(c);
    let set = ValView::String("@setDataFrame"@);
    let name = ValView::String("onMetaData"@);
    lemma_metadata_names();
    reveal_strlit("@setDataFrame");
    lemma_utf8_len("@setDataFrame"@);
    let text = vstd::utf8::encode_utf8("onMetaData"@);
    lemma_utf8_len("onMetaData"@);
    assert(text.len() == 10) by {
        reveal_strlit("onMetaData");
        vstd::utf8::is_ascii_chars_encode_utf8("onMetaData"@);
    }
    scalars_are_laid_out(0, false, "onMetaData"@);
    let array = ecma_array_bytes(fields);
    let head = scalar_bytes(name);
    assert(body =~= head + array);
    assert(body[0] == head[0] && body[1] == head[1] && body[2] == head[2]);
    assert(head.len() == 13);
    assert(crate::bytes::from_be16(body.skip(1)) == 10);
    assert(body.skip(13) =~= array);
    assert(array.len() > 0);
    let payload = scalar_bytes(set) + scalar_bytes(name) + array;
    bytes::lemma_concat(scalar_bytes(set), scalar_bytes(name), array);
    lemma_one_scalar(set, scalar_bytes(name) + array);
}

/// A video frame is shown when its packet says: the time of its tag and the
/// composition offset in its body make the packet's own time, counted from the
/// first packet.
pub proof fn frames_are_shown_at_their_time(m: MuxView, p: PacketView)
    requires
        p.kind == MediaKind::Video,
        p.data.len() < 0x1_0000_0000,
        0 <= m.muxed_dts(p) < 0x1_0000_0000,
        -0x80_0000 <= p.pts - m.origin_for(p) - m.muxed_dts(p) < 0x80_0000,
    ensures
        ({
            let tag = m.frame_tag(p);
            let c = tag.body[2] * 0x1_0000 + tag.body[3] * 0x100 + tag.body[4];
            tag.ts + (if c >= 0x80_0000 {
                c - 0x100_0000
            } else {
                c
            }) == p.pts - m.origin_for(p)
        }),
{
    frames_are_laid_out(p.is_key, m.offset_of(p), p.data);
}

} // verus!
