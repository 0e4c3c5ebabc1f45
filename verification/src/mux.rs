//! FLV muxer — packs the encoded A/V packets into the FLV container, the exact
//! format RTMP expects on the wire. Writes to any [`Sink`], so the same muxer
//! can target a file or a socket (RTMP transport).
//!
//! FLV structure: a 9-byte header, then a stream of **tags**. Each tag carries
//! one of: audio frame, video frame, or script data (`onMetaData`).

use vstd::prelude::*;
use vstd::string::*;

use crate::bytes;
use crate::bytes::be24;
use crate::codecs::aac;
use crate::codecs::aac::{adts_fields, adts_payload, asc_bytes, is_adts};
use crate::codecs::h264;
use crate::codecs::h264::{annex_b_units, avcc_record, length_prefixed, opt_bytes, parameter_sets};
use crate::doubles::{double_bits, double_of};
use crate::flv::{
    flv_header, lemma_one_tag, lemma_tags_concat, tag_bytes, tag_head, tags_bytes, TagView,
    TAG_AUDIO, TAG_SCRIPT, TAG_VIDEO,
};
use crate::io::{IoError, Sink};
use crate::models::{MediaKind, MediaPacket, PacketView, StreamConfig};
use crate::rtmp::amf0::{ecma_array_bytes, number_fields, scalar_bytes, ValView, Writer};
use crate::text::{append_signed, append_wide, signed_decimal};

verus! {

/// DTS may slip backwards by this many milliseconds (encoder quantization,
/// capture-thread skew) without being treated as a genuine ordering violation.
/// Within this band the DTS is clamped to the previous value so the emitted
/// stream stays monotonic; anything further back is a real error.
pub const REORDER_TOLERANCE_MS: i64 = 100;

/// A decode timestamp that went back too far.
#[derive(Debug, Clone, Copy, PartialEq, Eq, Structural)]
pub struct BackwardStep {
    /// The timestamp the stream had reached.
    pub from: i64,
    /// The timestamp of the offending packet.
    pub to: i64,
}

/// Errors the muxer can produce. Failures of the sink (file full, socket
/// closed) stay distinct from format errors.
#[derive(Debug)]
pub enum MuxError {
    /// The underlying sink failed to accept bytes.
    Io(IoError),
    /// metadata or codec config missing when it was needed
    Config(String),
    /// packet arrived out of order relative to muxing rules
    OutOfOrder(BackwardStep),
}

/// An error in words.
pub open spec fn error_text(e: MuxError) -> Seq<char> {
    match e {
        MuxError::Io(io) => "io: "@ + io.message@,
        MuxError::Config(m) => m@,
        MuxError::OutOfOrder(step) => "DTS went backwards by "@ + signed_decimal(
            step.from - step.to,
        ) + " ms ("@ + signed_decimal(step.from as int) + " -> "@ + signed_decimal(step.to as int)
            + "); out of tolerance"@,
    }
}

impl MuxError {
    /// The error in words.
    pub fn message(&self) -> (text: String)
        ensures
            text@ == error_text(*self),
    {
        let mut out: String = String::new();
        match self {
            MuxError::Io(e) => {
                out.append("io: ");
                out.append(e.message.as_str());
                assert(out@ =~= error_text(*self));
            },
            MuxError::Config(m) => {
                out.append(m.as_str());
                assert(out@ =~= error_text(*self));
            },
            MuxError::OutOfOrder(step) => {
                out.append("DTS went backwards by ");
                assert(out@ =~= "DTS went backwards by "@);
                append_wide(&mut out, step.from as i128 - step.to as i128);
                out.append(" ms (");
                append_signed(&mut out, step.from);
                out.append(" -> ");
                append_signed(&mut out, step.to);
                out.append("); out of tolerance");
            },
        }
        out
    }
}

/// What the muxer has done so far, as far as it matters for what comes next.
#[verifier::ext_equal]
pub struct MuxView {
    /// The FLV header is out.
    pub started: bool,
    /// The video sequence header is out.
    pub video_seq: bool,
    /// The audio sequence header is out.
    pub audio_seq: bool,
    /// The decode timestamp that counts as zero.
    pub origin: Option<int>,
    /// The timestamp the stream has reached.
    pub last_dts: int,
    /// The video decoder configuration in force.
    pub avcc: Option<Seq<u8>>,
    /// The audio decoder configuration in force.
    pub asc: Option<Seq<u8>>,
}

/// `x`, held to the range of a signed 64-bit number.
pub open spec fn clamp_i64(x: int) -> int {
    if x < i64::MIN {
        i64::MIN as int
    } else if x > i64::MAX {
        i64::MAX as int
    } else {
        x
    }
}

/// FLV timestamps are unsigned 32-bit: earlier times count as zero, later ones
/// stay at the end of the range.
pub open spec fn flv_ts(ts: int) -> u32 {
    if ts < 0 {
        0
    } else if ts > 0xFFFF_FFFF {
        0xFFFF_FFFF
    } else {
        ts as u32
    }
}

/// A composition offset, held to the range of a signed 24-bit number.
pub open spec fn clamp_offset(cts: int) -> int {
    if cts < -0x80_0000 {
        -0x80_0000
    } else if cts > 0x7F_FFFF {
        0x7F_FFFF
    } else {
        cts
    }
}

/// The body of a video sequence header.
pub open spec fn video_sequence_body(avcc: Seq<u8>) -> Seq<u8> {
    seq![0x17u8, 0, 0, 0, 0] + avcc
}

/// The body of an audio sequence header.
pub open spec fn audio_sequence_body(asc: Seq<u8>) -> Seq<u8> {
    seq![0xAFu8, 0] + asc
}

/// The body of a video frame: key or inter frame, NAL units, the composition
/// offset, and the units with their lengths.
pub open spec fn video_frame_body(is_key: bool, cts: int, data: Seq<u8>) -> Seq<u8> {
    seq![
        if is_key {
            0x17u8
        } else {
            0x27u8
        },
        1u8,
    ] + be24(clamp_offset(cts)) + length_prefixed(annex_b_units(data))
}

/// The body of an audio frame.
pub open spec fn audio_frame_body(data: Seq<u8>) -> Seq<u8> {
    seq![0xAFu8, 1] + adts_payload(data)
}

/// The decoder configuration that a keyframe carries itself.
pub open spec fn video_config_in(data: Seq<u8>) -> Option<Seq<u8>> {
    match parameter_sets(annex_b_units(data), None, None) {
        Some((sps, pps)) => Some(avcc_record(sps, pps)),
        None => None,
    }
}

/// The decoder configuration that an ADTS frame carries itself.
pub open spec fn audio_config_in(data: Seq<u8>) -> Option<Seq<u8>> {
    if is_adts(data) {
        Some(
            asc_bytes(
                adts_fields(data).object_type as int,
                adts_fields(data).sampling_frequency_index as int,
                adts_fields(data).channel_config as int,
            ),
        )
    } else {
        None
    }
}

/// Why a packet is not muxed.
pub enum Refusal {
    /// A keyframe came before the video sequence header and carries no SPS/PPS.
    NoVideoConfig,
    /// Audio came before the audio sequence header and is not ADTS.
    NoAudioConfig,
    /// The decode timestamp is out of tolerance.
    Backwards,
}

impl MuxView {
    /// A muxer that has done nothing yet.
    pub open spec fn fresh() -> MuxView {
        MuxView {
            started: false,
            video_seq: false,
            audio_seq: false,
            origin: None,
            last_dts: i64::MIN as int,
            avcc: None,
            asc: None,
        }
    }

    /// The time that headers are stamped with: zero before media flows, then
    /// the point the stream has reached.
    pub open spec fn header_ts(self) -> int {
        if self.last_dts > 0 {
            self.last_dts
        } else {
            0
        }
    }

    /// What goes out before the first tag.
    pub open spec fn preamble(self) -> Seq<u8> {
        if self.started {
            Seq::empty()
        } else {
            flv_header()
        }
    }

    /// The same with the FLV header written.
    pub open spec fn begun(self) -> MuxView {
        MuxView { started: true, ..self }
    }

    /// The script tag for `config`.
    pub open spec fn metadata_tags(self, config: StreamConfig) -> Seq<TagView> {
        seq![
            TagView {
                kind: TAG_SCRIPT,
                ts: flv_ts(self.header_ts()),
                body: metadata_bytes(config),
            },
        ]
    }

    /// The video sequence header, unless it is out already.
    pub open spec fn video_sequence_tags(self, avcc: Seq<u8>) -> Seq<TagView> {
        if self.video_seq {
            Seq::empty()
        } else {
            seq![
                TagView {
                    kind: TAG_VIDEO,
                    ts: flv_ts(self.header_ts()),
                    body: video_sequence_body(avcc),
                },
            ]
        }
    }

    /// The state behind the video sequence header.
    pub open spec fn with_video_sequence(self, avcc: Seq<u8>) -> MuxView {
        if self.video_seq {
            self.begun()
        } else {
            MuxView { started: true, video_seq: true, avcc: Some(avcc), ..self }
        }
    }

    /// The audio sequence header, unless it is out already.
    pub open spec fn audio_sequence_tags(self, asc: Seq<u8>) -> Seq<TagView> {
        if self.audio_seq {
            Seq::empty()
        } else {
            seq![
                TagView {
                    kind: TAG_AUDIO,
                    ts: flv_ts(self.header_ts()),
                    body: audio_sequence_body(asc),
                },
            ]
        }
    }

    /// The state behind the audio sequence header.
    pub open spec fn with_audio_sequence(self, asc: Seq<u8>) -> MuxView {
        if self.audio_seq {
            self.begun()
        } else {
            MuxView { started: true, audio_seq: true, asc: Some(asc), ..self }
        }
    }

    /// The sequence headers for the configurations that are given.
    pub open spec fn codec_tags(self, avcc: Option<Seq<u8>>, asc: Option<Seq<u8>>) -> Seq<TagView> {
        (match avcc {
            Some(a) => self.video_sequence_tags(a),
            None => Seq::empty(),
        }) + (match asc {
            Some(a) => self.audio_sequence_tags(a),
            None => Seq::empty(),
        })
    }

    /// The state behind the sequence headers that are given.
    pub open spec fn with_codecs(self, avcc: Option<Seq<u8>>, asc: Option<Seq<u8>>) -> MuxView {
        let v = match avcc {
            Some(a) => self.with_video_sequence(a),
            None => self,
        };
        match asc {
            Some(a) => v.with_audio_sequence(a),
            None => v,
        }
    }

    /// True if `p` can only follow a sequence header that is not out yet.
    pub open spec fn lacks_config(self, p: PacketView) -> bool {
        match p.kind {
            MediaKind::Video => !self.video_seq && p.is_key,
            MediaKind::Audio => !self.audio_seq,
        }
    }

    /// The configuration that `p` carries itself.
    pub open spec fn config_in(p: PacketView) -> Option<Seq<u8>> {
        match p.kind {
            MediaKind::Video => video_config_in(p.data),
            MediaKind::Audio => audio_config_in(p.data),
        }
    }

    /// The sequence header that goes out before `p`.
    pub open spec fn sniffed_tags(self, p: PacketView) -> Seq<TagView> {
        if self.lacks_config(p) && Self::config_in(p) is Some {
            match p.kind {
                MediaKind::Video => self.video_sequence_tags(Self::config_in(p)->0),
                MediaKind::Audio => self.audio_sequence_tags(Self::config_in(p)->0),
            }
        } else {
            Seq::empty()
        }
    }

    /// The state behind that sequence header.
    pub open spec fn sniffed(self, p: PacketView) -> MuxView {
        if self.lacks_config(p) && Self::config_in(p) is Some {
            match p.kind {
                MediaKind::Video => self.with_video_sequence(Self::config_in(p)->0),
                MediaKind::Audio => self.with_audio_sequence(Self::config_in(p)->0),
            }
        } else {
            self.begun()
        }
    }

    /// The origin once `p` has been timed: the first decode timestamp seen.
    pub open spec fn origin_for(self, p: PacketView) -> int {
        match self.origin {
            Some(o) => o,
            None => p.dts,
        }
    }

    /// The decode timestamp of `p` on the stream's own timebase.
    pub open spec fn relative_dts(self, p: PacketView) -> int {
        clamp_i64(p.dts - self.origin_for(p))
    }

    /// True if `p` is further back than the tolerance allows.
    pub open spec fn too_late(self, p: PacketView) -> bool {
        self.last_dts - self.relative_dts(p) > REORDER_TOLERANCE_MS
    }

    /// The timestamp `p` is muxed with: its own, or the one the stream has
    /// reached where that is later.
    pub open spec fn muxed_dts(self, p: PacketView) -> int {
        if self.relative_dts(p) < self.last_dts {
            self.last_dts
        } else {
            self.relative_dts(p)
        }
    }

    /// How long after decoding `p` is shown.
    pub open spec fn offset_of(self, p: PacketView) -> int {
        clamp_i64(clamp_i64(p.pts - self.origin_for(p)) - self.muxed_dts(p))
    }

    /// The tag for the frame in `p`.
    pub open spec fn frame_tag(self, p: PacketView) -> TagView {
        match p.kind {
            MediaKind::Video => TagView {
                kind: TAG_VIDEO,
                ts: flv_ts(self.muxed_dts(p)),
                body: video_frame_body(p.is_key, self.offset_of(p), p.data),
            },
            MediaKind::Audio => TagView {
                kind: TAG_AUDIO,
                ts: flv_ts(self.muxed_dts(p)),
                body: audio_frame_body(p.data),
            },
        }
    }

    /// Why `p` is not muxed, if it is not.
    pub open spec fn refusal(self, p: PacketView) -> Option<Refusal> {
        if self.lacks_config(p) && Self::config_in(p) is None {
            match p.kind {
                MediaKind::Video => Some(Refusal::NoVideoConfig),
                MediaKind::Audio => Some(Refusal::NoAudioConfig),
            }
        } else if self.too_late(p) {
            Some(Refusal::Backwards)
        } else {
            None
        }
    }

    /// The tags that go out for `p`: a sequence header where one is due, and
    /// the frame unless it is refused.
    pub open spec fn packet_tags(self, p: PacketView) -> Seq<TagView> {
        if self.refusal(p) is None {
            self.sniffed_tags(p) + seq![self.frame_tag(p)]
        } else {
            self.sniffed_tags(p)
        }
    }

    /// The state in which the frame in `p` goes out: its configuration is out,
    /// and its time has been seen.
    pub open spec fn timed(self, p: PacketView) -> MuxView {
        MuxView { origin: Some(self.origin_for(p)), ..self.sniffed(p) }
    }

    /// The state behind `p`.
    pub open spec fn with_packet(self, p: PacketView) -> MuxView {
        match self.refusal(p) {
            None => MuxView { last_dts: self.muxed_dts(p), ..self.timed(p) },
            Some(Refusal::Backwards) => self.timed(p),
            Some(_) => self.begun(),
        }
    }

    /// True if writing a header-style tag can break off in state `s`, with `out`
    /// gone out whole: in the FLV header, or in the tag unless that is done.
    pub open spec fn header_breaks(self, done: bool, out: Seq<u8>, s: MuxView) -> bool {
        ||| !self.started && out == Seq::<u8>::empty() && s == self
        ||| !done && out == self.preamble() && s == self.begun()
    }

    /// True if writing the sequence headers for these configurations can break
    /// off in state `s`, with `out` gone out whole: in the first of them, or
    /// behind the video's.
    pub open spec fn codecs_break(
        self,
        avcc: Option<Seq<u8>>,
        asc: Option<Seq<u8>>,
        out: Seq<u8>,
        s: MuxView,
    ) -> bool {
        ||| avcc is Some && self.header_breaks(self.video_seq, out, s)
        ||| avcc is None && asc is Some && self.header_breaks(self.audio_seq, out, s)
        ||| avcc is Some && asc is Some && !self.audio_seq && out == self.preamble() + tags_bytes(
            self.video_sequence_tags(avcc->0),
        ) && s == self.with_video_sequence(avcc->0)
    }

    /// True if muxing `p` can break off in state `s`, with `out` gone out whole:
    /// in the FLV header, in the sequence header, or in the frame. The frame
    /// that was not written is not the last that was.
    pub open spec fn packet_breaks(self, p: PacketView, out: Seq<u8>, s: MuxView) -> bool {
        ||| !self.started && out == Seq::<u8>::empty() && s == self
        ||| self.lacks_config(p) && Self::config_in(p) is Some && out == self.preamble() && s
            == self.begun()
        ||| self.refusal(p) is None && out == self.preamble() + tags_bytes(self.sniffed_tags(p))
            && s == self.timed(p)
    }

    /// The same timebase, moved so that `dts` falls on the point the stream
    /// has reached.
    pub open spec fn rebased(self, dts: int) -> MuxView {
        MuxView { origin: Some(clamp_i64(dts - self.header_ts())), ..self }
    }
}

/// The fields of `onMetaData`.
pub open spec fn metadata_fields(c: StreamConfig) -> Seq<(Seq<char>, ValView)> {
    seq![
        ("duration"@, ValView::Number(0)),
        ("width"@, ValView::Number(double_of(c.width as nat) as u64)),
        ("height"@, ValView::Number(double_of(c.height as nat) as u64)),
        ("framerate"@, ValView::Number(c.framerate)),
        ("videocodecid"@, ValView::Number(double_of(7) as u64)),
        ("audiocodecid"@, ValView::Number(double_of(10) as u64)),
        ("audiosamplerate"@, ValView::Number(double_of(c.sample_rate as nat) as u64)),
    ]
}

/// The body of the script tag.
pub open spec fn metadata_bytes(c: StreamConfig) -> Seq<u8> {
    scalar_bytes(ValView::String("onMetaData"@)) + ecma_array_bytes(metadata_fields(c))
}

/// Build the `onMetaData` ECMA-array body.
pub fn on_metadata(c: &StreamConfig) -> (out: Vec<u8>)
    ensures
        out@ == metadata_bytes(*c),
{
    let entries: [(&str, u64); 7] = [
        ("duration", 0),
        ("width", double_bits(c.width)),
        ("height", double_bits(c.height)),
        ("framerate", c.framerate),
        ("videocodecid", double_bits(7)),  // AVC
        ("audiocodecid", double_bits(10)),  // AAC
        ("audiosamplerate", double_bits(c.sample_rate)),
    ];
    assert(number_fields(entries@) =~= metadata_fields(*c));
    let mut w: Writer = Writer::new();
    w.string("onMetaData");
    w.ecma_array(entries.as_slice());
    assert(w@ =~= metadata_bytes(*c));
    w.into_bytes()
}

/// The difference, held to the range of the type.
pub(crate) fn difference(a: i64, b: i64) -> (d: i64)
    ensures
        d == clamp_i64(a - b),
{
    let wide: i128 = a as i128 - b as i128;
    if wide < i64::MIN as i128 {
        i64::MIN
    } else if wide > i64::MAX as i128 {
        i64::MAX
    } else {
        wide as i64
    }
}

fn clamp_ts(ts: i64) -> (t: u32)
    ensures
        t == flv_ts(ts as int),
{
    if ts < 0 {
        0
    } else if ts > 0xFFFF_FFFF {
        0xFFFF_FFFF
    } else {
        ts as u32
    }
}

/// Append the composition offset: signed 24 bits, two's complement.
fn append_offset(out: &mut Vec<u8>, cts: i64)
    ensures
        final(out)@ == old(out)@ + be24(clamp_offset(cts as int)),
{
    let v: i64 = if cts < -0x80_0000 {
        -0x80_0000
    } else if cts > 0x7F_FFFF {
        0x7F_FFFF
    } else {
        cts
    };
    if v < 0 {
        proof {
            bytes::lemma_be24_shift(v as int);
        }
        bytes::append_be24(out, (v + 0x100_0000) as u32);
    } else {
        bytes::append_be24(out, v as u32);
    }
}

/// A writer for FLV tags into a byte sink.
pub struct FlvMuxer<W: Sink> {
    sink: W,
    header_written: bool,
    video_seq_written: bool,
    audio_seq_written: bool,
    origin: Option<i64>,
    last_dts: i64,
    avcc: Option<Vec<u8>>,
    asc: Option<Vec<u8>>,
    bytes_written: u64,
}

impl<W: Sink> View for FlvMuxer<W> {
    type V = MuxView;

    closed spec fn view(&self) -> MuxView {
        MuxView {
            started: self.header_written,
            video_seq: self.video_seq_written,
            audio_seq: self.audio_seq_written,
            origin: match self.origin {
                Some(o) => Some(o as int),
                None => None,
            },
            last_dts: self.last_dts as int,
            avcc: opt_bytes(self.avcc),
            asc: opt_bytes(self.asc),
        }
    }
}

impl<W: Sink> FlvMuxer<W> {
    /// The sink.
    pub closed spec fn spec_sink(&self) -> W {
        self.sink
    }

    /// The byte counter.
    pub closed spec fn spec_bytes_written(&self) -> u64 {
        self.bytes_written
    }

    /// True if `next` is this muxer with `out` written and in state `state`;
    /// the byte counter wraps around.
    pub open spec fn advanced(&self, next: &Self, out: Seq<u8>, state: MuxView) -> bool {
        &&& next@ == state
        &&& next.spec_sink().written() == self.spec_sink().written() + out
        &&& next.spec_bytes_written() == (self.spec_bytes_written() + out.len())
            % 0x1_0000_0000_0000_0000
        &&& self.steady() ==> next.steady()
    }

    /// True if `next` is this muxer once a write has failed, in state `state`:
    /// `out` had gone out whole, and of what came next any part may have.
    pub open spec fn broke_off(&self, next: &Self, out: Seq<u8>, state: MuxView) -> bool {
        &&& next@ == state
        &&& (self.spec_sink().written() + out).is_prefix_of(next.spec_sink().written())
        &&& next.spec_bytes_written() == (self.spec_bytes_written() + out.len())
            % 0x1_0000_0000_0000_0000
    }

    /// True if everything that is muxed is accepted: the sink accepts whatever
    /// it is given, or it is waiting for the header that goes out first.
    pub open spec fn steady(&self) -> bool {
        self.spec_sink().reliable() || (!self@.started && self.spec_sink().takes_flv())
    }

    /// A muxer's timestamps are machine numbers.
    pub proof fn lemma_times_fit(&self)
        ensures
            i64::MIN <= self@.last_dts <= i64::MAX,
            self@.origin matches Some(o) ==> i64::MIN <= o <= i64::MAX,
    {
    }

    /// Create a muxer writing FLV tags into `sink`.
    pub fn new(sink: W) -> (m: Self)
        ensures
            m@ == MuxView::fresh(),
            m.spec_sink() == sink,
            m.spec_bytes_written() == 0,
    {
        FlvMuxer {
            sink,
            header_written: false,
            video_seq_written: false,
            audio_seq_written: false,
            origin: None,
            last_dts: i64::MIN,
            avcc: None,
            asc: None,
            bytes_written: 0,
        }
    }

    /// Returns the inner sink, useful after finishing.
    pub fn into_inner(self) -> (sink: W)
        ensures
            sink == self.spec_sink(),
    {
        self.sink
    }

    /// Borrow the sink (the transport) — lets the engine ask it about progress.
    pub fn sink(&self) -> (sink: &W)
        ensures
            *sink == self.spec_sink(),
    {
        &self.sink
    }

    /// Mutably borrow the sink — lets a recorder shut its transport down.
    pub fn sink_mut(&mut self) -> (sink: &mut W)
        ensures
            *sink == old(self).spec_sink(),
            final(self).spec_sink() == *final(sink),
            final(self)@ == old(self)@,
            final(self).spec_bytes_written() == old(self).spec_bytes_written(),
    {
        &mut self.sink
    }

    /// The timestamp origin (first DTS seen), if media has started flowing.
    pub fn origin(&self) -> (origin: Option<i64>)
        ensures
            match origin {
                Some(o) => self@.origin == Some(o as int),
                None => self@.origin is None,
            },
    {
        self.origin
    }

    /// Most recent normalized DTS written (`i64::MIN` before the first packet).
    pub fn last_dts(&self) -> (dts: i64)
        ensures
            dts == self@.last_dts,
    {
        self.last_dts
    }

    /// Carry the timebase over from a previous muxer (reconnect). Keeping the
    /// same origin and high-water mark means the resumed stream continues the
    /// timestamp series instead of jumping back to 0 — viewers see one stream,
    /// not a restart.
    pub fn restore_timebase(&mut self, origin: Option<i64>, last_dts: i64)
        ensures
            final(self)@ == (MuxView {
                origin: match origin {
                    Some(o) => Some(o as int),
                    None => None,
                },
                last_dts: last_dts as int,
                ..old(self)@
            }),
            final(self).spec_sink() == old(self).spec_sink(),
            final(self).spec_bytes_written() == old(self).spec_bytes_written(),
    {
        self.origin = origin;
        self.last_dts = last_dts;
    }

    /// Re-anchor the origin so `dts` normalizes to exactly the last written
    /// DTS. This is the clock-drift escape hatch: when the capture clock jumps
    /// backwards beyond tolerance (platform clock reset, encoder restart),
    /// output stays monotonic instead of erroring.
    pub fn rebase(&mut self, dts: i64)
        ensures
            final(self)@ == old(self)@.rebased(dts as int),
            final(self).spec_sink() == old(self).spec_sink(),
            final(self).spec_bytes_written() == old(self).spec_bytes_written(),
    {
        self.origin = Some(difference(dts, self.header_ts()));
    }

    /// The H.264 decoder configuration in force, if video has been configured.
    pub fn video_config(&self) -> (config: Option<&[u8]>)
        ensures
            match config {
                Some(c) => self@.avcc == Some(c@),
                None => self@.avcc is None,
            },
    {
        match &self.avcc {
            Some(a) => Some(a.as_slice()),
            None => None,
        }
    }

    /// The AAC decoder configuration in force, if audio has been configured.
    pub fn audio_config(&self) -> (config: Option<&[u8]>)
        ensures
            match config {
                Some(c) => self@.asc == Some(c@),
                None => self@.asc is None,
            },
    {
        match &self.asc {
            Some(a) => Some(a.as_slice()),
            None => None,
        }
    }

    /// Total bytes written to the sink since creation, FLV header + tags. Used
    /// by the engine to compute the media bitrate for `QoS` telemetry.
    pub fn bytes_written(&self) -> (n: u64)
        ensures
            n == self.spec_bytes_written(),
    {
        self.bytes_written
    }

    /// Flush the underlying sink (used between ticks so bytes leave promptly).
    pub fn flush_sink(&mut self) -> (r: Result<(), MuxError>)
        ensures
            final(self)@ == old(self)@,
            final(self).spec_bytes_written() == old(self).spec_bytes_written(),
            final(self).spec_sink().written() == old(self).spec_sink().written(),
            r matches Err(e) ==> e is Io,
            final(self).spec_sink().faults() == old(self).spec_sink().faults().flushed(r is Err),
            old(self).steady() ==> r is Ok && final(self).steady(),
    {
        match self.sink.flush() {
            Ok(()) => Ok(()),
            Err(e) => Err(MuxError::Io(e)),
        }
    }

    /// Write `data` and count it.
    fn put(&mut self, data: &[u8]) -> (r: Result<(), MuxError>)
        requires
            old(self)@.started || data@ == flv_header(),
        ensures
            r is Ok && old(self).steady() ==> final(self).spec_sink().reliable(),
            r is Ok ==> old(self).advanced(final(self), data@, old(self)@),
            r matches Err(e) ==> e is Io && old(self).broke_off(
                final(self),
                Seq::empty(),
                old(self)@,
            ),
            old(self).spec_sink().written().is_prefix_of(final(self).spec_sink().written()),
            final(self).spec_sink().faults() == old(self).spec_sink().faults().written(
                r matches Err(MuxError::Io(_)),
            ),
            old(self).steady() ==> r is Ok,
    {
        assert(old(self).spec_sink().written() + Seq::<u8>::empty()
            =~= old(self).spec_sink().written());
        match self.sink.write_all(data) {
            Ok(()) => {},
            Err(e) => {
                return Err(MuxError::Io(e));
            },
        }
        self.bytes_written = self.bytes_written.wrapping_add(data.len() as u64);
        Ok(())
    }

    /// Write the 9-byte FLV file/stream header, once, before anything else.
    fn ensure_header(&mut self) -> (r: Result<(), MuxError>)
        ensures
            r is Ok ==> old(self).advanced(final(self), old(self)@.preamble(), old(self)@.begun()),
            r matches Err(e) ==> e is Io && !old(self)@.started && old(self).broke_off(
                final(self),
                Seq::empty(),
                old(self)@,
            ),
            old(self).spec_sink().written().is_prefix_of(final(self).spec_sink().written()),
            final(self).spec_sink().faults() == old(self).spec_sink().faults().written(
                r matches Err(MuxError::Io(_)),
            ),
            old(self).steady() ==> r is Ok,
    {
        if self.header_written {
            assert(old(self).spec_sink().written() + Seq::<u8>::empty()
                =~= old(self).spec_sink().written());
            return Ok(());
        }
        let header: [u8; 13] = [0x46, 0x4C, 0x56, 0x01, 0x05, 0, 0, 0, 9, 0, 0, 0, 0];
        assert(header@ =~= flv_header());
        self.put(header.as_slice())?;
        self.header_written = true;
        Ok(())
    }

    /// Timestamp used for header-style tags (metadata, sequence headers).
    /// Before media flows that's 0; after a reconnect it's the point the stream
    /// reached, so re-emitted headers never violate timestamp monotonicity.
    fn header_ts(&self) -> (ts: i64)
        ensures
            ts == self@.header_ts(),
    {
        if self.last_dts > 0 {
            self.last_dts
        } else {
            0
        }
    }

    fn write_tag(&mut self, kind: u8, ts: i64, body: &[u8]) -> (r: Result<(), MuxError>)
        requires
            old(self)@.started,
        ensures
            r is Ok ==> old(self).advanced(
                final(self),
                tag_bytes(TagView { kind, ts: flv_ts(ts as int), body: body@ }),
                old(self)@,
            ),
            r matches Err(e) ==> e is Io && old(self).broke_off(
                final(self),
                Seq::empty(),
                old(self)@,
            ),
            old(self).spec_sink().written().is_prefix_of(final(self).spec_sink().written()),
            final(self).spec_sink().faults() == old(self).spec_sink().faults().written(
                r matches Err(MuxError::Io(_)),
            ),
            old(self).steady() ==> r is Ok,
    {
        let tag: Vec<u8> = encode_tag(kind, clamp_ts(ts), body);
        self.put(tag.as_slice())
    }

    /// Emit the script-data tag (`onMetaData`) with stream info. Called once,
    /// right before the first media packet (so duration-0 is honest).
    pub fn write_metadata(&mut self, config: &StreamConfig) -> (r: Result<(), MuxError>)
        ensures
            r is Ok ==> old(self).advanced(
                final(self),
                old(self)@.preamble() + tags_bytes(old(self)@.metadata_tags(*config)),
                old(self)@.begun(),
            ),
            r matches Err(e) ==> e is Io && exists|out: Seq<u8>| #[trigger]
                old(self)@.header_breaks(false, out, final(self)@) && old(self).broke_off(
                    final(self),
                    out,
                    final(self)@,
                ),
            old(self).spec_sink().written().is_prefix_of(final(self).spec_sink().written()),
            final(self).spec_sink().faults() == old(self).spec_sink().faults().written(
                r matches Err(MuxError::Io(_)),
            ),
            old(self).steady() ==> r is Ok,
    {
        let ghost before = *self;
        if let Err(e) = self.ensure_header() {
            assert(before@.header_breaks(false, Seq::empty(), self@));
            return Err(e);
        }
        let payload: Vec<u8> = on_metadata(config);
        let ts: i64 = self.header_ts();
        let ghost middle = *self;
        proof {
            lemma_one_tag(before@.metadata_tags(*config)[0]);
            assert(before@.metadata_tags(*config) =~= seq![before@.metadata_tags(*config)[0]]);
        }
        if let Err(e) = self.write_tag(TAG_SCRIPT, ts, payload.as_slice()) {
            proof {
                lemma_broke_off(
                    &before,
                    &middle,
                    self,
                    before@.preamble(),
                    Seq::empty(),
                    before@.begun(),
                    before@.begun(),
                );
                assert(before@.preamble() + Seq::<u8>::empty() =~= before@.preamble());
                assert(before@.header_breaks(false, before@.preamble(), self@));
            }
            return Err(e);
        }
        proof {
            lemma_advanced(
                &before,
                &middle,
                self,
                before@.preamble(),
                tags_bytes(before@.metadata_tags(*config)),
                before@.begun(),
                before@.begun(),
            );
        }
        Ok(())
    }

    /// Emit the H.264 sequence header (`AVCDecoderConfigurationRecord`). Must
    /// precede the first video packet.
    pub fn write_video_sequence(&mut self, avcc: &[u8]) -> (r: Result<(), MuxError>)
        ensures
            r is Ok ==> old(self).advanced(
                final(self),
                old(self)@.preamble() + tags_bytes(old(self)@.video_sequence_tags(avcc@)),
                old(self)@.with_video_sequence(avcc@),
            ),
            r matches Err(e) ==> e is Io && exists|out: Seq<u8>| #[trigger]
                old(self)@.header_breaks(old(self)@.video_seq, out, final(self)@) && old(self).broke_off(
                    final(self),
                    out,
                    final(self)@,
                ),
            old(self).spec_sink().written().is_prefix_of(final(self).spec_sink().written()),
            final(self).spec_sink().faults() == old(self).spec_sink().faults().written(
                r matches Err(MuxError::Io(_)),
            ),
            old(self).steady() ==> r is Ok,
    {
        let ghost before = *self;
        if let Err(e) = self.ensure_header() {
            assert(before@.header_breaks(before@.video_seq, Seq::empty(), self@));
            return Err(e);
        }
        let ghost middle = *self;
        let ghost tags = before@.video_sequence_tags(avcc@);
        if self.video_seq_written {
            assert(before@.preamble() + tags_bytes(tags) =~= before@.preamble());
            return Ok(());
        }
        let mut body: Vec<u8> = Vec::new();
        body.push(0x17);  // frameType=1 (key) | codecId=7 (AVC)
        body.push(0);  // AVCPacketType = sequence header
        body.push(0);  // composition time = 0
        body.push(0);
        body.push(0);
        bytes::append(&mut body, avcc);
        assert(body@ =~= video_sequence_body(avcc@));
        let ts: i64 = self.header_ts();
        proof {
            lemma_one_tag(tags[0]);
            assert(tags =~= seq![tags[0]]);
        }
        if let Err(e) = self.write_tag(TAG_VIDEO, ts, body.as_slice()) {
            proof {
                lemma_broke_off(
                    &before,
                    &middle,
                    self,
                    before@.preamble(),
                    Seq::empty(),
                    before@.begun(),
                    before@.begun(),
                );
                assert(before@.preamble() + Seq::<u8>::empty() =~= before@.preamble());
                assert(before@.header_breaks(before@.video_seq, before@.preamble(), self@));
            }
            return Err(e);
        }
        proof {
            lemma_advanced(
                &before,
                &middle,
                self,
                before@.preamble(),
                tags_bytes(tags),
                before@.begun(),
                before@.begun(),
            );
        }
        self.video_seq_written = true;
        self.avcc = Some(bytes::copy_of(avcc));
        Ok(())
    }

    /// Emit the AAC sequence header (`AudioSpecificConfig`). Must precede the
    /// first audio packet.
    pub fn write_audio_sequence(&mut self, asc: &[u8]) -> (r: Result<(), MuxError>)
        ensures
            r is Ok ==> old(self).advanced(
                final(self),
                old(self)@.preamble() + tags_bytes(old(self)@.audio_sequence_tags(asc@)),
                old(self)@.with_audio_sequence(asc@),
            ),
            r matches Err(e) ==> e is Io && exists|out: Seq<u8>| #[trigger]
                old(self)@.header_breaks(old(self)@.audio_seq, out, final(self)@) && old(self).broke_off(
                    final(self),
                    out,
                    final(self)@,
                ),
            old(self).spec_sink().written().is_prefix_of(final(self).spec_sink().written()),
            final(self).spec_sink().faults() == old(self).spec_sink().faults().written(
                r matches Err(MuxError::Io(_)),
            ),
            old(self).steady() ==> r is Ok,
    {
        let ghost before = *self;
        if let Err(e) = self.ensure_header() {
            assert(before@.header_breaks(before@.audio_seq, Seq::empty(), self@));
            return Err(e);
        }
        let ghost middle = *self;
        let ghost tags = before@.audio_sequence_tags(asc@);
        if self.audio_seq_written {
            assert(before@.preamble() + tags_bytes(tags) =~= before@.preamble());
            return Ok(());
        }
        let mut body: Vec<u8> = Vec::new();
        body.push(0xAF);  // soundFormat=10 (AAC) | 44.1k | 16-bit | stereo
        body.push(0);  // AACPacketType = sequence header
        bytes::append(&mut body, asc);
        assert(body@ =~= audio_sequence_body(asc@));
        let ts: i64 = self.header_ts();
        proof {
            lemma_one_tag(tags[0]);
            assert(tags =~= seq![tags[0]]);
        }
        if let Err(e) = self.write_tag(TAG_AUDIO, ts, body.as_slice()) {
            proof {
                lemma_broke_off(
                    &before,
                    &middle,
                    self,
                    before@.preamble(),
                    Seq::empty(),
                    before@.begun(),
                    before@.begun(),
                );
                assert(before@.preamble() + Seq::<u8>::empty() =~= before@.preamble());
                assert(before@.header_breaks(before@.audio_seq, before@.preamble(), self@));
            }
            return Err(e);
        }
        proof {
            lemma_advanced(
                &before,
                &middle,
                self,
                before@.preamble(),
                tags_bytes(tags),
                before@.begun(),
                before@.begun(),
            );
        }
        self.audio_seq_written = true;
        self.asc = Some(bytes::copy_of(asc));
        Ok(())
    }

    /// Convenience: set both codec configs up-front if the caller already has
    /// them (common on the platform side, where they come from `MediaFormat`).
    pub fn init_codecs(&mut self, avcc: Option<&[u8]>, asc: Option<&[u8]>) -> (r: Result<
        (),
        MuxError,
    >)
        ensures
            r is Ok ==> ({
                let a = opt_slice(avcc);
                let b = opt_slice(asc);
                old(self).advanced(
                    final(self),
                    (if a is Some || b is Some {
                        old(self)@.preamble()
                    } else {
                        Seq::empty()
                    }) + tags_bytes(old(self)@.codec_tags(a, b)),
                    old(self)@.with_codecs(a, b),
                )
            }),
            r matches Err(e) ==> e is Io && exists|out: Seq<u8>| #[trigger]
                old(self)@.codecs_break(
                    opt_slice(avcc),
                    opt_slice(asc),
                    out,
                    final(self)@,
                ) && old(self).broke_off(final(self), out, final(self)@),
            old(self).spec_sink().written().is_prefix_of(final(self).spec_sink().written()),
            final(self).spec_sink().faults() == old(self).spec_sink().faults().written(
                r matches Err(MuxError::Io(_)),
            ),
            old(self).steady() ==> r is Ok,
    {
        let ghost before = *self;
        let ghost va = opt_slice(avcc);
        let ghost vb = opt_slice(asc);
        let ghost none = Seq::<TagView>::empty();
        assert(tags_bytes(none) =~= Seq::<u8>::empty());
        if let Some(a) = avcc {
            if let Err(e) = self.write_video_sequence(a) {
                proof {
                    let out = choose|out: Seq<u8>| #[trigger]
                        before@.header_breaks(before@.video_seq, out, self@) && before.broke_off(self, out, self@);
                    assert(before@.codecs_break(va, vb, out, self@));
                }
                return Err(e);
            }
        }
        let ghost middle = *self;
        if let Some(a) = asc {
            if let Err(e) = self.write_audio_sequence(a) {
                proof {
                    let out = choose|out: Seq<u8>| #[trigger]
                        middle@.header_breaks(middle@.audio_seq, out, self@) && middle.broke_off(self, out, self@);
                    match va {
                        Some(v) => {
                            let first = before@.preamble() + tags_bytes(
                                before@.video_sequence_tags(v),
                            );
                            lemma_broke_off(&before, &middle, self, first, out, middle@, self@);
                            assert(first + out =~= first);
                            assert(before@.codecs_break(va, vb, first, self@));
                        },
                        None => {
                            assert(before@.codecs_break(va, vb, out, self@));
                        },
                    }
                }
                return Err(e);
            }
        }
        proof {
            let first = match va {
                Some(a) => before@.video_sequence_tags(a),
                None => none,
            };
            let second = match vb {
                Some(a) => before@.audio_sequence_tags(a),
                None => none,
            };
            lemma_tags_concat(first, second);
            let head = if va is Some {
                before@.preamble()
            } else {
                Seq::empty()
            };
            let tail = if vb is Some {
                middle@.preamble()
            } else {
                Seq::empty()
            };
            assert(va is None ==> before.advanced(&middle, Seq::empty(), before@)) by {
                assert(before.spec_sink().written() + Seq::<u8>::empty()
                    =~= before.spec_sink().written());
            }
            assert(vb is None ==> middle.advanced(self, Seq::empty(), middle@)) by {
                assert(middle.spec_sink().written() + Seq::<u8>::empty()
                    =~= middle.spec_sink().written());
            }
            assert(head + tags_bytes(first) + (tail + tags_bytes(second)) =~= (if va is Some
                || vb is Some {
                before@.preamble()
            } else {
                Seq::empty()
            }) + (tags_bytes(first) + tags_bytes(second)));
            assert(head + tags_bytes(first) =~= (if va is Some {
                head + tags_bytes(first)
            } else {
                Seq::empty()
            }));
            assert(tail + tags_bytes(second) =~= (if vb is Some {
                tail + tags_bytes(second)
            } else {
                Seq::empty()
            }));
            lemma_advanced(
                &before,
                &middle,
                self,
                head + tags_bytes(first),
                tail + tags_bytes(second),
                middle@,
                self@,
            );
        }
        Ok(())
    }

    /// Emit the sequence header that `pkt` needs, out of `pkt` itself.
    fn sniff_config(&mut self, pkt: &MediaPacket) -> (r: Result<(), MuxError>)
        ensures
            match r {
                Ok(()) => !(old(self)@.lacks_config(pkt@) && MuxView::config_in(pkt@) is None)
                    && old(self).advanced(
                    final(self),
                    old(self)@.preamble() + tags_bytes(old(self)@.sniffed_tags(pkt@)),
                    old(self)@.sniffed(pkt@),
                ),
                Err(MuxError::Config(m)) => old(self)@.lacks_config(pkt@) && MuxView::config_in(
                    pkt@,
                ) is None && old(self).advanced(
                    final(self),
                    old(self)@.preamble(),
                    old(self)@.begun(),
                ) && m@ == missing_config(pkt.kind),
                Err(e) => e is Io && !old(self).steady() && exists|out: Seq<u8>| #[trigger]
                    old(self)@.packet_breaks(pkt@, out, final(self)@) && old(self).broke_off(
                        final(self),
                        out,
                        final(self)@,
                    ),
            },
            old(self).spec_sink().written().is_prefix_of(final(self).spec_sink().written()),
            final(self).spec_sink().faults() == old(self).spec_sink().faults().written(
                r matches Err(MuxError::Io(_)),
            ),
    {
        let ghost before = *self;
        if let Err(e) = self.ensure_header() {
            assert(before@.packet_breaks(pkt@, Seq::empty(), self@));
            return Err(e);
        }
        let ghost middle = *self;
        let ghost none = Seq::<TagView>::empty();
        assert(tags_bytes(none) =~= Seq::<u8>::empty());
        assert(before@.preamble() + Seq::<u8>::empty() =~= before@.preamble());
        if !self.video_seq_written && pkt.kind == MediaKind::Video && pkt.is_key {
            // best-effort: pull SPS/PPS out of the packet itself
            match h264::annexb_to_avcc(pkt.data.as_slice()) {
                Some(avcc) => {
                    if let Err(e) = self.write_video_sequence(avcc.as_slice()) {
                        proof {
                            let out = choose|out: Seq<u8>| #[trigger]
                                middle@.header_breaks(middle@.video_seq, out, self@) && middle.broke_off(
                                    self,
                                    out,
                                    self@,
                                );
                            lemma_broke_off(
                                &before,
                                &middle,
                                self,
                                before@.preamble(),
                                out,
                                middle@,
                                self@,
                            );
                            assert(before@.preamble() + out =~= before@.preamble());
                            assert(before@.packet_breaks(pkt@, before@.preamble(), self@));
                        }
                        return Err(e);
                    }
                },
                None => {
                    return Err(
                        MuxError::Config(
                            "video packet before sequence header, and no SPS/PPS found".to_owned(),
                        ),
                    );
                },
            }
        } else if !self.audio_seq_written && pkt.kind == MediaKind::Audio {
            match aac::adts_to_asc(pkt.data.as_slice()) {
                Some(asc) => {
                    if let Err(e) = self.write_audio_sequence(asc.as_slice()) {
                        proof {
                            let out = choose|out: Seq<u8>| #[trigger]
                                middle@.header_breaks(middle@.audio_seq, out, self@) && middle.broke_off(
                                    self,
                                    out,
                                    self@,
                                );
                            lemma_broke_off(
                                &before,
                                &middle,
                                self,
                                before@.preamble(),
                                out,
                                middle@,
                                self@,
                            );
                            assert(before@.preamble() + out =~= before@.preamble());
                            assert(before@.packet_breaks(pkt@, before@.preamble(), self@));
                        }
                        return Err(e);
                    }
                },
                None => {
                    return Err(
                        MuxError::Config(
                            "audio packet before sequence header, and no ADTS found".to_owned(),
                        ),
                    );
                },
            }
        } else {
            return Ok(());
        }
        proof {
            let tags = before@.sniffed_tags(pkt@);
            assert(Seq::<u8>::empty() + tags_bytes(tags) =~= tags_bytes(tags));
            lemma_advanced(
                &before,
                &middle,
                self,
                before@.preamble(),
                tags_bytes(tags),
                before@.begun(),
                before@.sniffed(pkt@),
            );
        }
        Ok(())
    }

    /// Mux one media packet. Ordering, normalization and sequence-header
    /// emission are handled here so callers stay dumb.
    pub fn write_packet(&mut self, pkt: &MediaPacket) -> (r: Result<(), MuxError>)
        ensures
            !(r matches Err(MuxError::Io(_))) ==> old(self).advanced(
                final(self),
                old(self)@.preamble() + tags_bytes(old(self)@.packet_tags(pkt@)),
                old(self)@.with_packet(pkt@),
            ),
            match r {
                Ok(()) => old(self)@.refusal(pkt@) is None,
                Err(MuxError::Config(m)) => (old(self)@.refusal(pkt@) == Some(
                    Refusal::NoVideoConfig,
                ) || old(self)@.refusal(pkt@) == Some(Refusal::NoAudioConfig)) && m@
                    == missing_config(pkt.kind),
                Err(MuxError::OutOfOrder(step)) => old(self)@.refusal(pkt@) == Some(
                    Refusal::Backwards,
                ) && step.from == old(self)@.last_dts && step.to == old(self)@.relative_dts(pkt@),
                Err(MuxError::Io(_)) => !old(self).steady() && exists|out: Seq<u8>| #[trigger]
                    old(self)@.packet_breaks(pkt@, out, final(self)@) && old(self).broke_off(
                        final(self),
                        out,
                        final(self)@,
                    ),
            },
            old(self).spec_sink().written().is_prefix_of(final(self).spec_sink().written()),
            final(self).spec_sink().faults() == old(self).spec_sink().faults().written(
                r matches Err(MuxError::Io(_)),
            ),
    {
        let ghost before = *self;
        let ghost p = pkt@;
        self.sniff_config(pkt)?;
        let ghost middle = *self;
        let ghost sniffed = before@.preamble() + tags_bytes(before@.sniffed_tags(p));
        let origin: i64 = match self.origin {
            Some(o) => o,
            None => pkt.dts,
        };
        self.origin = Some(origin);
        let own: i64 = difference(pkt.dts, origin);
        assert(own == before@.relative_dts(p));
        let ts: i64 = if own < self.last_dts {
            if self.last_dts as i128 - own as i128 > REORDER_TOLERANCE_MS as i128 {
                return Err(MuxError::OutOfOrder(BackwardStep { from: self.last_dts, to: own }));
            }
            // Small backward slip (encoder jitter): clamp to keep the emitted
            // stream monotonic. FLV players can't decode backward timestamps.
            self.last_dts
        } else {
            own
        };
        let ghost timed = *self;
        let ghost none = Seq::<u8>::empty();
        assert(timed@ == before@.timed(p));
        assert(before.advanced(&timed, sniffed, timed@));
        let cts: i64 = difference(difference(pkt.pts, origin), ts);
        assert(cts == before@.offset_of(p));
        let mut body: Vec<u8> = Vec::new();
        let ghost tag = before@.frame_tag(p);
        match pkt.kind {
            MediaKind::Video => {
                let units: Vec<u8> = h264::annexb_to_length_prefixed(pkt.data.as_slice());
                body.push(
                    if pkt.is_key {
                        0x17
                    } else {
                        0x27
                    },
                );  // key/inter + AVC
                body.push(1);  // AVCPacketType = NAL unit
                assert(body@ =~= seq![
                    if p.is_key {
                        0x17u8
                    } else {
                        0x27u8
                    },
                    1u8,
                ]);
                append_offset(&mut body, cts);
                bytes::append(&mut body, units.as_slice());
                if let Err(e) = self.write_tag(TAG_VIDEO, ts, body.as_slice()) {
                    proof {
                        lemma_broke_off(&before, &timed, self, sniffed, none, timed@, timed@);
                        assert(sniffed + none =~= sniffed);
                        assert(before@.packet_breaks(p, sniffed, self@));
                    }
                    return Err(e);
                }
            },
            MediaKind::Audio => {
                let raw: Vec<u8> = aac::strip_adts(pkt.data.as_slice());
                body.push(0xAF);  // AAC, 44.1k, 16-bit, stereo
                body.push(1);  // AACPacketType = raw AAC frame
                assert(body@ =~= seq![0xAFu8, 1]);
                bytes::append(&mut body, raw.as_slice());
                if let Err(e) = self.write_tag(TAG_AUDIO, ts, body.as_slice()) {
                    proof {
                        lemma_broke_off(&before, &timed, self, sniffed, none, timed@, timed@);
                        assert(sniffed + none =~= sniffed);
                        assert(before@.packet_breaks(p, sniffed, self@));
                    }
                    return Err(e);
                }
            },
        }
        proof {
            lemma_one_tag(tag);
            lemma_tags_concat(before@.sniffed_tags(p), seq![tag]);
            bytes::lemma_concat(
                before@.preamble(),
                tags_bytes(before@.sniffed_tags(p)),
                tag_bytes(tag),
            );
            assert(timed.advanced(self, tag_bytes(tag), timed@));
            assert(timed.spec_sink() == middle.spec_sink());
            assert(timed.spec_bytes_written() == middle.spec_bytes_written());
            lemma_advanced(
                &before,
                &timed,
                self,
                sniffed,
                tag_bytes(tag),
                timed@,
                timed@,
            );
        }
        self.last_dts = ts;
        Ok(())
    }

    /// Flush the sink. FLV has no end marker; players stop at stream end, so
    /// this is just a flush.
    pub fn finish(&mut self) -> (r: Result<(), MuxError>)
        ensures
            final(self)@ == old(self)@,
            final(self).spec_bytes_written() == old(self).spec_bytes_written(),
            final(self).spec_sink().written() == old(self).spec_sink().written(),
            r matches Err(e) ==> e is Io,
            final(self).spec_sink().faults() == old(self).spec_sink().faults().flushed(r is Err),
            old(self).steady() ==> r is Ok && final(self).steady(),
    {
        self.flush_sink()
    }
}

/// The content of an optional slice.
pub open spec fn opt_slice(s: Option<&[u8]>) -> Option<Seq<u8>> {
    match s {
        Some(b) => Some(b@),
        None => None,
    }
}

/// What is said of a packet that needs a sequence header and carries none.
pub open spec fn missing_config(kind: MediaKind) -> Seq<char> {
    match kind {
        MediaKind::Video => "video packet before sequence header, and no SPS/PPS found"@,
        MediaKind::Audio => "audio packet before sequence header, and no ADTS found"@,
    }
}

/// True if `e` is how the refusal of `p` is reported; `behind` is the muxer's
/// state behind it.
pub open spec fn reports_refusal(
    e: MuxError,
    refusal: Refusal,
    behind: MuxView,
    p: PacketView,
) -> bool {
    match refusal {
        Refusal::NoVideoConfig => e matches MuxError::Config(m) && m@ == missing_config(
            MediaKind::Video,
        ),
        Refusal::NoAudioConfig => e matches MuxError::Config(m) && m@ == missing_config(
            MediaKind::Audio,
        ),
        Refusal::Backwards => e matches MuxError::OutOfOrder(step) && step.from == behind.last_dts
            && step.to == behind.relative_dts(p),
    }
}

/// A write that came through and one that failed.
pub proof fn lemma_broke_off<W: Sink>(
    a: &FlvMuxer<W>,
    b: &FlvMuxer<W>,
    c: &FlvMuxer<W>,
    first: Seq<u8>,
    second: Seq<u8>,
    s: MuxView,
    t: MuxView,
)
    requires
        a.advanced(b, first, s),
        b.broke_off(c, second, t),
    ensures
        a.broke_off(c, first + second, t),
{
    lemma_counted(a.spec_bytes_written(), first.len(), second.len());
    bytes::lemma_concat(a.spec_sink().written(), first, second);
}

/// The byte counter wraps around the same in one step and in two.
proof fn lemma_counted(n: u64, first: nat, second: nat)
    ensures
        ((n + first) % 0x1_0000_0000_0000_0000 + second) % 0x1_0000_0000_0000_0000 == (n + (first
            + second)) % 0x1_0000_0000_0000_0000,
{
    let m = 0x1_0000_0000_0000_0000int;
    vstd::arithmetic::div_mod::lemma_add_mod_noop(n + first, second as int, m);
    vstd::arithmetic::div_mod::lemma_add_mod_noop((n + first) % m, second as int, m);
    vstd::arithmetic::div_mod::lemma_mod_twice(n + first, m);
}

/// Two writes one after the other.
pub proof fn lemma_advanced<W: Sink>(
    a: &FlvMuxer<W>,
    b: &FlvMuxer<W>,
    c: &FlvMuxer<W>,
    first: Seq<u8>,
    second: Seq<u8>,
    s: MuxView,
    t: MuxView,
)
    requires
        a.advanced(b, first, s),
        b.advanced(c, second, t),
    ensures
        a.advanced(c, first + second, t),
{
    bytes::lemma_concat(a.spec_sink().written(), first, second);
    lemma_counted(a.spec_bytes_written(), first.len(), second.len());
}

/// The wire form of one tag.
fn encode_tag(kind: u8, ts: u32, body: &[u8]) -> (out: Vec<u8>)
    ensures
        out@ == tag_bytes(TagView { kind, ts, body: body@ }),
{
    let ghost tag = TagView { kind, ts, body: body@ };
    let len: u64 = body.len() as u64;
    let mut out: Vec<u8> = Vec::new();
    out.push(kind);
    assert(out@ =~= seq![kind]);
    proof {
        bytes::lemma_be24_low(body@.len() as int);
    }
    bytes::append_be24(&mut out, (len % 0x100_0000) as u32);
    bytes::append_be24(&mut out, ts);
    let ghost part = out@;
    out.push((ts / 0x100_0000) as u8);  // extended timestamp
    out.push(0);  // stream id = 0
    out.push(0);
    out.push(0);
    assert(out@ =~= part + seq![(ts / 0x100_0000) as u8, 0u8, 0u8, 0u8]);
    assert(out@ == tag_head(tag));
    bytes::append(&mut out, body);
    // PreviousTagSize = tag header (11) + data
    proof {
        bytes::lemma_be32_low(11 + body@.len() as int);
    }
    let size: u32 = ((11 + len as u128) % 0x1_0000_0000) as u32;
    bytes::append_be32(&mut out, size);
    out
}

} // verus!
