//! The engine — the single entry point the platform calls into.
//!
//! It owns the pipeline: incoming packets land in a bounded buffer (backpressure
//! valve), then are drained, time-normalized, and muxed into FLV bytes handed to
//! a `Transport`.
//!
//! ```text
//! push(packet)  ->  BoundedBuffer  ->  FlvMuxer  ->  Transport (file/RTMP/...)
//! ```
//!
//! The platform decides when to call `tick()` (its own packet pump).

use vstd::prelude::*;
use vstd::string::*;

use crate::backpressure::{pushed_onto, BoundedBuffer};
use crate::batch::{
    batches_are_in_decode_order, cut, cut_to_keyframe, cuts_keep_the_newest_keyframe, discard_all,
    drain, has_keyframe, is_keyframe, next_batch, packets, stale, starts_decoding,
};
use crate::bytes;
use crate::clock::{latency, latency_at, Clock, Moment};
use crate::codecs::h264::opt_bytes;
use crate::figures::{bits_per_second, in_millis, millis, rate_of, ratio, seconds};
use crate::flv::{tags_bytes, TagView};
use crate::io::{IoError, Sink};
use crate::models::{MediaKind, MediaPacket, PacketStats, PacketView, StreamConfig};
use crate::mux::{
    clamp_i64, clamp_offset, difference, error_text, lemma_advanced, lemma_broke_off, opt_slice,
    reports_refusal, FlvMuxer, MuxError, MuxView, Refusal,
};
use crate::outputs::{
    calls_of, fed_all, feed_batch, finish_outputs, finished, reported, tell_codecs, told_codecs,
    unfinished,
};
use crate::sink::{
    broken_recordings_keep_their_time, recorded, recorded_tags, recording_breaks,
    recording_refusal, write_rebasing, PacketSink, SinkCall,
};
use crate::telemetry::{
    entry_views, event_views, opt_text, sample_views, BookView, Entry, Field, FieldValue, FieldView,
    Level, LogBook, Qos, QosConfig, QosEvent, QosSample, QosView, Record, SampleView,
};
use crate::transport::Transport;

verus! {

/// How aggressive the engine is about staying near the live edge when the
/// transport is slower than the encoder.
///
/// `non_exhaustive`: new profiles may be added in a minor release; matches
/// must keep a wildcard arm.
#[derive(Debug, Clone, Copy, PartialEq, Eq, Structural)]
#[non_exhaustive]
pub enum LatencyProfile {
    /// Drop early and often: minimal lag, but may drop frames on weak networks.
    Aggressive,
    /// Default: moderate buffer cushions brief network blips.
    Balanced,
    /// Keep as much as possible: higher latency, fewer drops.
    Lenient,
}

/// How many packets a profile buffers.
pub open spec fn budget_of(profile: LatencyProfile) -> nat {
    match profile {
        LatencyProfile::Aggressive => 30,
        LatencyProfile::Balanced => 120,
        LatencyProfile::Lenient => 480,
    }
}

/// Buffer fill level (in packets) at which the engine performs a
/// keyframe-aligned cut back to the live edge. `Aggressive` cuts early to hug
/// the live edge, `Balanced` only when the buffer is actually full, `Lenient`
/// never cuts proactively (hard eviction still bounds memory).
pub open spec fn threshold_of(profile: LatencyProfile) -> Option<nat> {
    match profile {
        LatencyProfile::Aggressive => Some(15),
        LatencyProfile::Balanced => Some(120),
        LatencyProfile::Lenient => None,
    }
}

impl LatencyProfile {
    /// How many packets the profile buffers.
    pub fn packet_budget(self) -> (n: usize)
        ensures
            n == budget_of(self),
    {
        match self {
            LatencyProfile::Aggressive => 30,
            LatencyProfile::Balanced => 120,
            LatencyProfile::Lenient => 480,
        }
    }

    /// Buffer fill level at which the engine cuts back to the live edge.
    pub fn cut_threshold(self) -> (n: Option<usize>)
        ensures
            match n {
                Some(k) => threshold_of(self) == Some(k as nat),
                None => threshold_of(self) is None,
            },
    {
        match self {
            LatencyProfile::Aggressive => Some(self.packet_budget() / 2),
            LatencyProfile::Balanced => Some(self.packet_budget()),
            LatencyProfile::Lenient => None,
        }
    }
}

/// Engine configuration.
#[derive(Debug, Clone, Copy, PartialEq, Eq, Structural)]
pub struct EngineConfig {
    /// Static stream parameters (resolution, framerate, bitrates) written into
    /// container headers and metadata.
    pub stream: StreamConfig,
    /// How aggressively the engine drops packets to stay near the live edge.
    pub profile: LatencyProfile,
    /// Auto-derive codec configs from the first packets (recommended when the
    /// platform can't hand over SPS/PPS/ASC directly).
    pub autodetect_codecs: bool,
    /// Telemetry knobs: how often `QoS` samples are emitted and how many the
    /// collector retains.
    pub qos: QosConfig,
}

impl Default for EngineConfig {
    fn default() -> (c: Self)
        ensures
            c.profile == LatencyProfile::Balanced,
            c.autodetect_codecs,
            c.qos == (QosConfig { interval: 1_000_000_000, capacity: 4096 }),
            c.stream == (StreamConfig {
                width: 0,
                height: 0,
                framerate: 0x403E_0000_0000_0000,
                video_bitrate: 2_500_000,
                audio_bitrate: 128_000,
                sample_rate: 44_100,
            }),
    {
        EngineConfig {
            stream: StreamConfig::default(),
            profile: LatencyProfile::Balanced,
            autodetect_codecs: true,
            qos: QosConfig::default(),
        }
    }
}

/// Errors surfaced by the engine.
///
/// `non_exhaustive`: new failure categories may be added in a minor release;
/// matches must keep a wildcard arm.
#[derive(Debug)]
#[non_exhaustive]
pub enum EngineError {
    /// FLV muxing failed (missing codec config, ordering violation, or an I/O
    /// failure reported by the transport).
    Mux(MuxError),
    /// The transport failed outside of muxing (e.g. shutdown).
    Transport(IoError),
}

/// An engine error in words.
pub open spec fn engine_error_text(e: EngineError) -> Seq<char> {
    match e {
        EngineError::Mux(m) => "mux: "@ + error_text(m),
        EngineError::Transport(e) => "transport: "@ + e.message@,
    }
}

impl EngineError {
    /// The error in words.
    pub fn message(&self) -> (text: String)
        ensures
            text@ == engine_error_text(*self),
    {
        match self {
            EngineError::Mux(m) => {
                let mut out: String = "mux: ".to_owned();
                let inner: String = m.message();
                out.append(inner.as_str());
                out
            },
            EngineError::Transport(e) => {
                let mut out: String = "transport: ".to_owned();
                out.append(e.message.as_str());
                out
            },
        }
    }
}

/// A gap between samples longer than this (in nanoseconds) means the stream
/// was idle (disconnect, no capture); the baseline is reset instead of
/// reporting a garbage-near-zero rate over the whole gap.
pub const MAX_SAMPLE_GAP: u64 = 30_000_000_000;

// ---------------------------------------------------------------------------
// Muxing a batch
// ---------------------------------------------------------------------------

/// What muxing a run of packets gives.
#[verifier::ext_equal]
pub struct MuxRun {
    /// The muxer's state behind it.
    pub mux: MuxView,
    /// The bytes that go out.
    pub out: Seq<u8>,
    /// How many packets are muxed.
    pub sent: nat,
    /// Why the next one is not, if it is not.
    pub refusal: Option<Refusal>,
}

/// The muxer's state behind `p`.
pub open spec fn muxed(m: MuxView, p: PacketView, rebasing: bool) -> MuxView {
    if rebasing {
        recorded(m, p)
    } else {
        m.with_packet(p)
    }
}

/// The tags that go out for `p`.
pub open spec fn muxed_tags(m: MuxView, p: PacketView, rebasing: bool) -> Seq<TagView> {
    if rebasing {
        recorded_tags(m, p)
    } else {
        m.packet_tags(p)
    }
}

/// Why `p` is not muxed, if it is not.
pub open spec fn muxing_refusal(m: MuxView, p: PacketView, rebasing: bool) -> Option<Refusal> {
    if rebasing {
        recording_refusal(m, p)
    } else {
        m.refusal(p)
    }
}

/// Mux packets up to the first that is refused. With `rebasing`, a packet from
/// behind the tolerance moves the timebase instead of being refused.
pub open spec fn mux_run(m: MuxView, ps: Seq<PacketView>, rebasing: bool) -> MuxRun
    decreases ps.len(),
{
    if ps.len() == 0 {
        MuxRun { mux: m, out: Seq::empty(), sent: 0, refusal: None }
    } else {
        let before = mux_run(m, ps.drop_last(), rebasing);
        let p = ps.last();
        if before.refusal is Some {
            before
        } else {
            let refusal = muxing_refusal(before.mux, p, rebasing);
            MuxRun {
                mux: muxed(before.mux, p, rebasing),
                out: before.out + (before.mux.preamble() + tags_bytes(
                    muxed_tags(before.mux, p, rebasing),
                )),
                sent: before.sent + if refusal is None {
                    1nat
                } else {
                    0
                },
                refusal,
            }
        }
    }
}

/// What is due before the media on a connection: metadata and sequence headers.
/// The muxer's state behind it, and the bytes.
pub open spec fn opening(
    m: MuxView,
    described: bool,
    stream: StreamConfig,
    avcc: Option<Seq<u8>>,
    asc: Option<Seq<u8>>,
) -> (MuxView, Seq<u8>) {
    let ready = if described {
        m
    } else {
        m.begun()
    };
    let metadata = if described {
        Seq::empty()
    } else {
        m.preamble() + tags_bytes(m.metadata_tags(stream))
    };
    let head = if avcc is Some || asc is Some {
        ready.preamble()
    } else {
        Seq::empty()
    };
    (ready.with_codecs(avcc, asc), metadata + (head + tags_bytes(ready.codec_tags(avcc, asc))))
}

/// True if the opening can break off in state `s`, with `out` gone out whole.
pub open spec fn opening_breaks(
    m: MuxView,
    described: bool,
    stream: StreamConfig,
    avcc: Option<Seq<u8>>,
    asc: Option<Seq<u8>>,
    out: Seq<u8>,
    s: MuxView,
) -> bool {
    ||| !described && m.header_breaks(false, out, s)
    ||| described && m.codecs_break(avcc, asc, out, s)
    ||| !described && exists|more: Seq<u8>| #[trigger]
        m.begun().codecs_break(avcc, asc, more, s) && out == m.preamble() + tags_bytes(
            m.metadata_tags(stream),
        ) + more
}

/// True if muxing `p` can break off in state `s`, with `out` gone out whole.
pub open spec fn muxing_breaks(
    m: MuxView,
    p: PacketView,
    rebasing: bool,
    out: Seq<u8>,
    s: MuxView,
) -> bool {
    if rebasing {
        recording_breaks(m, p, out, s)
    } else {
        m.packet_breaks(p, out, s)
    }
}

/// True if `s` is at the time that `m` has come to: the same timestamp is
/// reached, and the origin is the same, or the one that `next`, whose muxing
/// had begun, sets.
pub open spec fn same_time(m: MuxView, next: Option<PacketView>, s: MuxView) -> bool {
    &&& s.last_dts == m.last_dts
    &&& s.origin == m.origin || (next matches Some(p) && (s.origin == Some(m.origin_for(p))
        || s.origin == Some(clamp_i64(p.dts - m.header_ts()))))
}

/// The packet behind the first `sent`, if there is one.
pub open spec fn packet_after(batch: Seq<PacketView>, sent: int) -> Option<PacketView> {
    if sent < batch.len() {
        Some(batch[sent])
    } else {
        None
    }
}

/// A run of packets that is refused somewhere has come as far as the packets
/// before that.
proof fn lemma_refused_time(m: MuxView, ps: Seq<PacketView>)
    ensures
        ({
            let run = mux_run(m, ps, true);
            let sent = run.sent as int;
            &&& sent <= ps.len()
            &&& run.refusal is None ==> sent == ps.len()
            &&& same_time(mux_run(m, ps.take(sent), true).mux, packet_after(ps, sent), run.mux)
        }),
    decreases ps.len(),
{
    if ps.len() == 0 {
        assert(ps.take(0) =~= ps);
    } else {
        let rest = ps.drop_last();
        let before = mux_run(m, rest, true);
        lemma_refused_time(m, rest);
        let sent = mux_run(m, ps, true).sent as int;
        if before.refusal is Some {
            assert(ps.take(sent) =~= rest.take(sent));
            lemma_refused_early(m, rest);
        } else if sent == ps.len() {
            assert(ps.take(sent) =~= ps);
        } else {
            assert(ps.take(sent) =~= rest);
        }
    }
}

proof fn lemma_refused_early(m: MuxView, ps: Seq<PacketView>)
    requires
        mux_run(m, ps, true).refusal is Some,
    ensures
        mux_run(m, ps, true).sent < ps.len(),
    decreases ps.len(),
{
    if ps.len() > 0 && mux_run(m, ps.drop_last(), true).refusal is Some {
        lemma_refused_early(m, ps.drop_last());
    } else if ps.len() > 0 {
        lemma_refused_time(m, ps.drop_last());
    }
}

proof fn lemma_run_stuck(m: MuxView, ps: Seq<PacketView>, rebasing: bool, n: int)
    requires
        0 <= n <= ps.len(),
        mux_run(m, ps.take(n), rebasing).refusal is Some,
    ensures
        mux_run(m, ps, rebasing) == mux_run(m, ps.take(n), rebasing),
    decreases ps.len(),
{
    if n == ps.len() {
        assert(ps.take(n) =~= ps);
    } else {
        assert(ps.drop_last().take(n) =~= ps.take(n));
        lemma_run_stuck(m, ps.drop_last(), rebasing, n);
    }
}

/// A packet with the timestamps that it reached the wire with: `m` is the
/// muxer's state behind it.
pub open spec fn stamped(m: MuxView, p: PacketView) -> PacketView {
    let origin = match m.origin {
        Some(o) => o,
        None => p.dts,
    };
    PacketView {
        dts: m.last_dts,
        pts: match p.kind {
            MediaKind::Video => clamp_i64(
                m.last_dts + clamp_offset(clamp_i64(clamp_i64(p.pts - origin) - m.last_dts)),
            ),
            MediaKind::Audio => m.last_dts,
        },
        ..p
    }
}

/// The packets of a run that reached the wire, with the timestamps that they
/// did so with.
pub open spec fn stamped_run(m: MuxView, ps: Seq<PacketView>, rebasing: bool) -> Seq<PacketView>
    decreases ps.len(),
{
    if ps.len() == 0 {
        Seq::empty()
    } else {
        stamped_run(m, ps.drop_last(), rebasing).push(
            stamped(mux_run(m, ps, rebasing).mux, ps.last()),
        )
    }
}

proof fn lemma_stamped_len(m: MuxView, ps: Seq<PacketView>, rebasing: bool)
    ensures
        stamped_run(m, ps, rebasing).len() == ps.len(),
    decreases ps.len(),
{
    if ps.len() > 0 {
        lemma_stamped_len(m, ps.drop_last(), rebasing);
    }
}

/// When a packet reached the wire, going by the muxer behind it: its decode
/// and its presentation timestamp.
fn wire_times<W: Sink>(muxer: &FlvMuxer<W>, pkt: &MediaPacket) -> (times: (i64, i64))
    ensures
        times.0 == stamped(muxer@, pkt@).dts,
        times.1 == stamped(muxer@, pkt@).pts,
{
    let dts: i64 = muxer.last_dts();
    match pkt.kind {
        MediaKind::Audio => (dts, dts),
        MediaKind::Video => {
            let origin: i64 = match muxer.origin() {
                Some(o) => o,
                None => pkt.dts,
            };
            let own: i64 = difference(difference(pkt.pts, origin), dts);
            let offset: i64 = if own < -0x80_0000 {
                -0x80_0000
            } else if own > 0x7F_FFFF {
                0x7F_FFFF
            } else {
                own
            };
            (dts, difference(dts, -offset))
        },
    }
}

/// True if `times` are the timestamps of these packets.
pub open spec fn times_of(times: Seq<(i64, i64)>, ps: Seq<PacketView>) -> bool {
    &&& times.len() == ps.len()
    &&& forall|i: int|
        0 <= i < times.len() ==> (#[trigger] times[i]).0 == ps[i].dts && times[i].1 == ps[i].pts
}

/// Give packets the timestamps that they reached the wire with.
fn stamp(batch: &mut Vec<MediaPacket>, times: &Vec<(i64, i64)>, Ghost(to): Ghost<Seq<PacketView>>)
    requires
        old(batch)@.len() == times@.len(),
        times_of(times@, to),
        forall|i: int|
            0 <= i < to.len() ==> #[trigger] to[i] == (PacketView {
                dts: to[i].dts,
                pts: to[i].pts,
                ..old(batch)@[i]@
            }),
    ensures
        packets(final(batch)@) == to,
{
    let mut i: usize = 0;
    while i < batch.len()
        invariant
            i <= batch@.len() == times@.len() == old(batch)@.len(),
            times_of(times@, to),
            forall|k: int|
                0 <= k < to.len() ==> #[trigger] to[k] == (PacketView {
                    dts: to[k].dts,
                    pts: to[k].pts,
                    ..old(batch)@[k]@
                }),
            forall|k: int| 0 <= k < i ==> (#[trigger] batch@[k])@ == to[k],
            forall|k: int| i <= k < batch@.len() ==> #[trigger] batch@[k] == old(batch)@[k],
        decreases batch@.len() - i,
    {
        let (dts, pts): (i64, i64) = times[i];
        let p: &mut MediaPacket = &mut batch[i];
        p.dts = dts;
        p.pts = pts;
        assert(to[i as int] == (PacketView {
            dts: to[i as int].dts,
            pts: to[i as int].pts,
            ..old(batch)@[i as int]@
        }));
        i = i + 1;
    }
    assert(packets(batch@) =~= to);
}

proof fn lemma_stamped_rest(m: MuxView, ps: Seq<PacketView>, rebasing: bool, i: int)
    requires
        0 <= i < ps.len(),
    ensures
        ({
            let q = stamped_run(m, ps, rebasing)[i];
            q == (PacketView { dts: q.dts, pts: q.pts, ..ps[i] })
        }),
    decreases ps.len(),
{
    lemma_stamped_len(m, ps.drop_last(), rebasing);
    if i < ps.len() - 1 {
        lemma_stamped_rest(m, ps.drop_last(), rebasing, i);
        assert(stamped_run(m, ps, rebasing)[i] == stamped_run(m, ps.drop_last(), rebasing)[i]);
    }
}

/// Write what is due before the media: the metadata and the sequence headers
/// that the connection has not seen yet.
fn write_opening<W: Sink>(
    m: &mut FlvMuxer<W>,
    described: bool,
    stream: &StreamConfig,
    avcc: Option<&[u8]>,
    asc: Option<&[u8]>,
) -> (r: Result<(), MuxError>)
    ensures
        r is Ok ==> {
            let (next, out) = opening(
                old(m)@,
                described,
                *stream,
                opt_slice(avcc),
                opt_slice(asc),
            );
            old(m).advanced(final(m), out, next)
        },
        r matches Err(e) ==> e is Io && !old(m).steady() && exists|out: Seq<u8>| #[trigger]
            opening_breaks(
                old(m)@,
                described,
                *stream,
                opt_slice(avcc),
                opt_slice(asc),
                out,
                final(m)@,
            ) && old(m).broke_off(final(m), out, final(m)@),
{
    let ghost m0 = *m;
    let ghost a = opt_slice(avcc);
    let ghost b = opt_slice(asc);
    if !described {
        if let Err(e) = m.write_metadata(stream) {
            proof {
                let out = choose|out: Seq<u8>| #[trigger]
                    m0@.header_breaks(false, out, m@) && m0.broke_off(m, out, m@);
                assert(opening_breaks(m0@, described, *stream, a, b, out, m@));
            }
            return Err(e);
        }
    }
    let ghost m1 = *m;
    let ghost metadata = if described {
        Seq::<u8>::empty()
    } else {
        m0@.preamble() + tags_bytes(m0@.metadata_tags(*stream))
    };
    proof {
        if described {
            assert(m0.spec_sink().written() + metadata =~= m0.spec_sink().written());
        }
        assert(m0.advanced(&m1, metadata, m1@));
    }
    // Re-emit sequence headers (idempotent): on a fresh connection the muxer
    // has never sent them, and the server cannot decode without them.
    if let Err(e) = m.init_codecs(avcc, asc) {
        proof {
            let more = choose|more: Seq<u8>| #[trigger]
                m1@.codecs_break(a, b, more, m@) && m1.broke_off(m, more, m@);
            lemma_broke_off(&m0, &m1, m, metadata, more, m1@, m@);
            if described {
                assert(metadata + more =~= more);
            }
            assert(opening_breaks(m0@, described, *stream, a, b, metadata + more, m@));
        }
        return Err(e);
    }
    proof {
        let headers = if a is Some || b is Some {
            m1@.preamble()
        } else {
            Seq::<u8>::empty()
        } + tags_bytes(m1@.codec_tags(a, b));
        lemma_advanced(&m0, &m1, m, metadata, headers, m1@, m@);
    }
    Ok(())
}

/// The book once packets have been held to what the profile allows: a cut is
/// noted.
pub open spec fn cut_note(
    book: BookView,
    buffer: Seq<PacketView>,
    profile: LatencyProfile,
) -> BookView {
    let dropped = buffer.len() - EngineView::held(buffer, profile).len();
    if dropped > 0 {
        book.noted(
            Level::Warn,
            "stream::engine"@,
            "cut to live edge"@,
            seq![
                ("dropped"@, FieldView::Uint(dropped as u64)),
                ("threshold"@, FieldView::Uint(threshold_of(profile)->0 as u64)),
            ],
        )
    } else {
        book
    }
}

/// The book once a packet has been muxed: a timebase that followed the capture
/// clock is noted.
pub open spec fn rebase_note(
    book: BookView,
    m: MuxView,
    p: PacketView,
    rebasing: bool,
) -> BookView {
    if rebasing && m.refusal(p) == Some(Refusal::Backwards) {
        book.noted(
            Level::Warn,
            "stream::engine"@,
            "clock rebase"@,
            seq![
                (
                    "kind"@,
                    FieldView::Str(
                        match p.kind {
                            MediaKind::Video => "video"@,
                            MediaKind::Audio => "audio"@,
                        },
                    ),
                ),
                ("dts"@, FieldView::Int(p.dts as i64)),
            ],
        )
    } else {
        book
    }
}

/// The book once a run of packets has been muxed.
pub open spec fn run_notes(
    book: BookView,
    m: MuxView,
    ps: Seq<PacketView>,
    rebasing: bool,
) -> BookView
    decreases ps.len(),
{
    if ps.len() == 0 {
        book
    } else {
        rebase_note(
            run_notes(book, m, ps.drop_last(), rebasing),
            mux_run(m, ps.drop_last(), rebasing).mux,
            ps.last(),
            rebasing,
        )
    }
}

proof fn lemma_grown(a: BookView, b: BookView, c: BookView)
    requires
        a.grown(b),
        b.grown(c),
    ensures
        a.grown(c),
{
    assert forall|i: int| 0 <= i < a.records.len() implies a.records[i] == c.records[i] by {
        assert(b.records[i] == a.records[i]);
        assert(c.records[i] == b.records[i]);
    }
    assert(a.records =~= c.records.subrange(0, a.records.len() as int));
}

proof fn lemma_run_grows(book: BookView, m: MuxView, ps: Seq<PacketView>, rebasing: bool)
    ensures
        book.grown(run_notes(book, m, ps, rebasing)),
    decreases ps.len(),
{
    let next = run_notes(book, m, ps, rebasing);
    if ps.len() == 0 {
        assert(book.records =~= next.records.subrange(0, book.records.len() as int));
    } else {
        let before = run_notes(book, m, ps.drop_last(), rebasing);
        lemma_run_grows(book, m, ps.drop_last(), rebasing);
        assert(before.records =~= next.records.subrange(0, before.records.len() as int));
        lemma_grown(book, before, next);
    }
}

proof fn lemma_noted(
    book: BookView,
    level: Level,
    message: Seq<char>,
    fields: Seq<(Seq<char>, FieldView)>,
)
    ensures
        book.grown(book.noted(level, "stream::engine"@, message, fields)),
{
    let next = book.noted(level, "stream::engine"@, message, fields);
    assert(book.records =~= next.records.subrange(0, book.records.len() as int));
}

/// Note that the timebase followed the capture clock.
fn note_rebase(book: &mut LogBook, pkt: &MediaPacket)
    ensures
        forall|m: MuxView|
            m.refusal(pkt@) == Some(Refusal::Backwards) ==> final(book)@ == #[trigger] rebase_note(
                old(book)@,
                m,
                pkt@,
                true,
            ),
        old(book)@.grown(final(book)@),
{
    let kind: &str = match pkt.kind {
        MediaKind::Video => "video",
        MediaKind::Audio => "audio",
    };
    let fields: [Field<'_>; 2] = [
        Field { key: "kind", value: FieldValue::Str(kind) },
        Field { key: "dts", value: FieldValue::Int(pkt.dts) },
    ];
    let list: &[Field<'_>] = fields.as_slice();
    let ghost level = Level::Warn;
    proof {
        let views = (Record {
            level,
            module: "stream::engine",
            message: "clock rebase",
            fields: list,
        })@.fields;
        assert(views =~= seq![("kind"@, FieldView::Str(kind@)), ("dts"@, FieldView::Int(pkt.dts))]);
        lemma_noted(book@, level, "clock rebase"@, views);
    }
    book.note(Level::Warn, "stream::engine", "clock rebase", list);
}

/// Mux one packet; where the capture clock jumps, the timebase follows it if
/// `rebasing`, and that is noted.
fn mux_one<W: Sink>(
    muxer: &mut FlvMuxer<W>,
    pkt: &MediaPacket,
    rebasing: bool,
    book: &mut LogBook,
) -> (r: Result<(), MuxError>)
    ensures
        old(book)@.grown(final(book)@),
        !rebasing ==> final(book)@ == old(book)@,
        !(r matches Err(MuxError::Io(_))) ==> final(book)@ == rebase_note(
            old(book)@,
            old(muxer)@,
            pkt@,
            rebasing,
        ),
        ({
            let m = old(muxer)@;
            let refusal = muxing_refusal(m, pkt@, rebasing);
            match r {
                Err(MuxError::Io(_)) => !old(muxer).steady() && exists|out: Seq<u8>| #[trigger]
                    muxing_breaks(m, pkt@, rebasing, out, final(muxer)@) && old(muxer).broke_off(
                        final(muxer),
                        out,
                        final(muxer)@,
                    ),
                _ => old(muxer).advanced(
                    final(muxer),
                    m.preamble() + tags_bytes(muxed_tags(m, pkt@, rebasing)),
                    muxed(m, pkt@, rebasing),
                ) && match r {
                    Ok(()) => refusal is None,
                    Err(e) => refusal is Some && reports_refusal(
                        e,
                        refusal->0,
                        muxed(m, pkt@, rebasing),
                        pkt@,
                    ),
                },
            }
        }),
{
    let ghost before = *muxer;
    assert(book@.records =~= book@.records.subrange(0, book@.records.len() as int));
    if rebasing {
        let mut rebased: bool = false;
        let r: Result<(), MuxError> = write_rebasing(muxer, pkt, &mut rebased);
        if rebased {
            note_rebase(book, pkt);
        }
        proof {
            if r matches Err(MuxError::Io(_)) {
                let out = choose|out: Seq<u8>| #[trigger]
                    recording_breaks(before@, pkt@, out, muxer@) && before.broke_off(
                        muxer,
                        out,
                        muxer@,
                    );
                assert(muxing_breaks(before@, pkt@, rebasing, out, muxer@));
            }
        }
        r
    } else {
        let r: Result<(), MuxError> = muxer.write_packet(pkt);
        proof {
            if r matches Err(MuxError::Io(_)) {
                let out = choose|out: Seq<u8>| #[trigger]
                    before@.packet_breaks(pkt@, out, muxer@) && before.broke_off(
                        muxer,
                        out,
                        muxer@,
                    );
                assert(muxing_breaks(before@, pkt@, rebasing, out, muxer@));
            }
        }
        r
    }
}

/// Mux a batch, up to the first packet that cannot be muxed; where the capture
/// clock jumps, the timebase follows it if `rebasing`. Returns when each packet
/// reached the wire, and why the next one did not.
#[verifier::rlimit(80)]
fn mux_batch<W: Sink>(
    muxer: &mut FlvMuxer<W>,
    batch: &Vec<MediaPacket>,
    rebasing: bool,
    book: &mut LogBook,
) -> (r: (Vec<(i64, i64)>, Option<MuxError>))
    ensures
        old(book)@.grown(final(book)@),
        !rebasing ==> final(book)@ == old(book)@,
        r.1 is None ==> final(book)@ == run_notes(
            old(book)@,
            old(muxer)@,
            packets(batch@),
            rebasing,
        ),
        r.1 is Some && !(r.1 matches Some(MuxError::Io(_))) ==> r.0@.len() < batch@.len()
            && final(book)@ == run_notes(
            old(book)@,
            old(muxer)@,
            packets(batch@).take(r.0@.len() as int + 1),
            rebasing,
        ),
        r.0@.len() <= batch@.len(),
        r.1 is None ==> r.0@.len() == batch@.len(),
        times_of(
            r.0@,
            stamped_run(old(muxer)@, packets(batch@).take(r.0@.len() as int), rebasing),
        ),
        r.1 matches Some(MuxError::Io(_)) ==> !old(muxer).steady() && r.0@.len() < batch@.len() && {
            let sent = r.0@.len() as int;
            let run = mux_run(old(muxer)@, packets(batch@).take(sent), rebasing);
            &&& run.refusal is None
            &&& exists|out: Seq<u8>| #[trigger]
                muxing_breaks(run.mux, packets(batch@)[sent], rebasing, out, final(muxer)@)
                    && old(muxer).broke_off(final(muxer), run.out + out, final(muxer)@)
        },
        !(r.1 matches Some(MuxError::Io(_))) ==> {
            let run = mux_run(old(muxer)@, packets(batch@), rebasing);
            &&& old(muxer).advanced(final(muxer), run.out, run.mux)
            &&& r.0@.len() == run.sent
            &&& match run.refusal {
                None => r.1 is None,
                Some(refusal) => r.1 matches Some(e) && reports_refusal(
                    e,
                    refusal,
                    run.mux,
                    packets(batch@)[run.sent as int],
                ),
            }
        },
{
    let ghost all = packets(batch@);
    let ghost start = *muxer;
    let mut times: Vec<(i64, i64)> = Vec::new();
    let mut sent: usize = 0;
    proof {
        assert(all.take(0) =~= Seq::<PacketView>::empty());
        assert(start.spec_sink().written() + Seq::<u8>::empty() =~= start.spec_sink().written());
    }
    while sent < batch.len()
        invariant
            sent <= batch@.len(),
            all == packets(batch@),
            start == *old(muxer),
            times@.len() == sent,
            times_of(times@, stamped_run(start@, all.take(sent as int), rebasing)),
            !rebasing ==> book@ == old(book)@,
            book@ == run_notes(old(book)@, start@, all.take(sent as int), rebasing),
            ({
                let run = mux_run(start@, all.take(sent as int), rebasing);
                &&& run.refusal is None
                &&& run.sent == sent
                &&& start.advanced(muxer, run.out, run.mux)
            }),
        decreases batch@.len() - sent,
    {
        let ghost before = *muxer;
        let ghost run = mux_run(start@, all.take(sent as int), rebasing);
        let ghost next = all.take(sent + 1);
        let ghost book0 = book@;
        let outcome: Result<(), MuxError> = mux_one(muxer, &batch[sent], rebasing, book);
        proof {
            lemma_run_grows(old(book)@, start@, all.take(sent as int), rebasing);
            lemma_grown(old(book)@, book0, book@);
            let p = batch@[sent as int]@;
            assert(next.drop_last() =~= all.take(sent as int));
            assert(next.last() == p);
            if !(outcome matches Err(MuxError::Io(_))) {
                lemma_advanced(
                    &start,
                    &before,
                    muxer,
                    run.out,
                    before@.preamble() + tags_bytes(muxed_tags(before@, p, rebasing)),
                    before@,
                    muxer@,
                );
                if outcome is Err {
                    lemma_run_stuck(start@, all, rebasing, sent + 1);
                }
            } else {
                let out = choose|out: Seq<u8>| #[trigger]
                    muxing_breaks(before@, p, rebasing, out, muxer@) && before.broke_off(
                        muxer,
                        out,
                        muxer@,
                    );
                lemma_broke_off(&start, &before, muxer, run.out, out, before@, muxer@);
            }
        }
        match outcome {
            Ok(()) => {
                times.push(wire_times(muxer, &batch[sent]));
                proof {
                    lemma_stamped_len(start@, next.drop_last(), rebasing);
                    assert(muxer@ == mux_run(start@, next, rebasing).mux);
                }
                sent = sent + 1;
            },
            Err(e) => {
                return (times, Some(e));
            },
        }
    }
    assert(all.take(sent as int) =~= all);
    proof {
        lemma_run_grows(old(book)@, start@, all, rebasing);
    }
    (times, None)
}

/// True if a write failed while `batch` was published, with `sent` packets on
/// the wire, and took the muxer from `m` to `s` and what its sink has had from
/// `before` to `after`: in what goes before the media, in the next packet, or in
/// passing on what was held back.
#[verifier::opaque]
pub open spec fn publish_broke(
    m: MuxView,
    s: MuxView,
    described: bool,
    stream: StreamConfig,
    configs: (Option<Seq<u8>>, Option<Seq<u8>>),
    batch: Seq<PacketView>,
    sent: nat,
    before: Seq<u8>,
    after: Seq<u8>,
) -> bool {
    let (avcc, asc) = configs;
    let (opened, opening_out) = opening(m, described, stream, avcc, asc);
    let run = mux_run(opened, batch.take(sent as int), true);
    ||| sent == 0 && exists|out: Seq<u8>| #[trigger]
        opening_breaks(m, described, stream, avcc, asc, out, s) && (before + out).is_prefix_of(
            after,
        )
    ||| sent < batch.len() && run.refusal is None && exists|out: Seq<u8>| #[trigger]
        muxing_breaks(run.mux, batch[sent as int], true, out, s) && (before + (opening_out + (
        run.out + out))).is_prefix_of(after)
    ||| sent == batch.len() && run.refusal is None && s == run.mux && after == before + (opening_out
        + run.out)
}

/// Write what goes before the media, and a batch behind it.
#[verifier::rlimit(80)]
fn mux_all<W: Sink>(
    m: &mut FlvMuxer<W>,
    described: bool,
    stream: &StreamConfig,
    avcc: Option<&[u8]>,
    asc: Option<&[u8]>,
    batch: &Vec<MediaPacket>,
    book: &mut LogBook,
) -> (r: (Vec<(i64, i64)>, Option<MuxError>))
    ensures
        old(book)@.grown(final(book)@),
        r.0@.len() <= batch@.len(),
        r.1 is None ==> r.0@.len() == batch@.len(),
        ({
            let (opened, out) = opening(
                old(m)@,
                described,
                *stream,
                opt_slice(avcc),
                opt_slice(asc),
            );
            let run = mux_run(opened, packets(batch@), true);
            &&& times_of(
                r.0@,
                stamped_run(opened, packets(batch@).take(r.0@.len() as int), true),
            )
            &&& r.1 is None ==> final(book)@ == run_notes(
                old(book)@,
                opened,
                packets(batch@),
                true,
            )
            &&& r.1 matches Some(MuxError::Io(_)) ==> !old(m).steady() && publish_broke(
                old(m)@,
                final(m)@,
                described,
                *stream,
                (opt_slice(avcc), opt_slice(asc)),
                packets(batch@),
                r.0@.len(),
                old(m).spec_sink().written(),
                final(m).spec_sink().written(),
            )
            &&& !(r.1 matches Some(MuxError::Io(_))) ==> {
                &&& old(m).advanced(final(m), out + run.out, run.mux)
                &&& r.0@.len() == run.sent
                &&& match run.refusal {
                    None => r.1 is None,
                    Some(refusal) => r.1 matches Some(e) && reports_refusal(
                        e,
                        refusal,
                        run.mux,
                        packets(batch@)[run.sent as int],
                    ),
                }
            }
        }),
{
    let ghost m0 = *m;
    let ghost out = opening(m0@, described, *stream, opt_slice(avcc), opt_slice(asc)).1;
    proof {
        assert(book@.records =~= book@.records.subrange(0, book@.records.len() as int));
        assert(packets(batch@).take(0) =~= Seq::<PacketView>::empty());
    }
    if let Err(e) = write_opening(m, described, stream, avcc, asc) {
        proof {
            reveal(publish_broke);
        }
        return (Vec::new(), Some(e));
    }
    let ghost m1 = *m;
    let (times, failure): (Vec<(i64, i64)>, Option<MuxError>) = mux_batch(m, batch, true, book);
    let ghost m2 = *m;
    proof {
        if !(failure matches Some(MuxError::Io(_))) {
            let run = mux_run(m1@, packets(batch@), true);
            lemma_advanced(&m0, &m1, &m2, out, run.out, m1@, m2@);
            assert(packets(batch@).take(batch@.len() as int) =~= packets(batch@));
        } else {
            let sent = times@.len() as int;
            let run = mux_run(m1@, packets(batch@).take(sent), true);
            let more = choose|more: Seq<u8>| #[trigger]
                muxing_breaks(run.mux, packets(batch@)[sent], true, more, m2@) && m1.broke_off(
                    &m2,
                    run.out + more,
                    m2@,
                );
            lemma_broke_off(&m0, &m1, &m2, out, run.out + more, m1@, m2@);
            reveal(publish_broke);
        }
    }
    match failure {
        Some(e) => (times, Some(e)),
        None => match m.flush_sink() {
            Ok(()) => (times, None),
            Err(e) => {
                proof {
                    reveal(publish_broke);
                }
                (times, Some(e))
            },
        },
    }
}

/// How much a counter grew; nothing where it was reset.
fn grown(now: u64, before: u64) -> (n: u64)
    ensures
        n == growth(now, before),
{
    if now > before {
        now - before
    } else {
        0
    }
}

/// The rate to report for a counter.
fn rate(now: u64, before: u64, elapsed_ns: u64) -> (bps: u64)
    ensures
        bps == reported_rate(now, before, elapsed_ns),
{
    if elapsed_ns > MAX_SAMPLE_GAP {
        return 0;
    }
    rate_of(grown(now, before), elapsed_ns)
}

// ---------------------------------------------------------------------------
// The engine
// ---------------------------------------------------------------------------

/// The engine's state as a mathematical value.
#[verifier::ext_equal]
pub struct EngineView {
    /// The buffered packets, oldest first.
    pub buffer: Seq<PacketView>,
    /// Packets accepted so far.
    pub pushed: nat,
    /// Packets dropped so far.
    pub dropped: nat,
    /// Packets muxed so far.
    pub muxed: nat,
    /// The muxer's state, while a transport is attached.
    pub mux: Option<MuxView>,
    /// The metadata has gone out on this connection.
    pub described: bool,
    /// The video decoder configuration in force.
    pub avcc: Option<Seq<u8>>,
    /// The audio decoder configuration in force.
    pub asc: Option<Seq<u8>>,
    /// The timebase (origin and timestamp reached) for the next connection.
    pub timebase: Option<(Option<i64>, i64)>,
    /// Inter-frames are held back until a keyframe comes.
    pub awaiting: bool,
    /// The decoder configurations the outputs were told of.
    pub told: (Option<Seq<u8>>, Option<Seq<u8>>),
    /// The collector.
    pub qos: QosView,
}

impl EngineView {
    /// How many packets were accepted and are neither buffered nor counted as
    /// muxed or dropped.
    pub open spec fn unaccounted(self) -> int {
        self.pushed - self.dropped - self.buffer.len() - self.muxed
    }

    /// The buffered packets once the profile's drop policy has been applied.
    pub open spec fn held(buffer: Seq<PacketView>, profile: LatencyProfile) -> Seq<PacketView> {
        match threshold_of(profile) {
            Some(n) => if buffer.len() >= n {
                cut(buffer)
            } else {
                buffer
            },
            None => buffer,
        }
    }

    /// What goes out on the next tick.
    pub open spec fn batch(self) -> Seq<PacketView> {
        next_batch(self.buffer, self.awaiting)
    }

    /// An engine that nothing has happened to yet.
    pub open spec fn fresh(config: EngineConfig) -> EngineView {
        EngineView::cleared(
            QosView::fresh(
                if config.qos.capacity >= 1 {
                    config.qos.capacity as nat
                } else {
                    1
                },
            ),
        )
    }

    /// An engine with nothing in it but this collector.
    pub open spec fn cleared(qos: QosView) -> EngineView {
        EngineView {
            buffer: Seq::empty(),
            pushed: 0,
            dropped: 0,
            muxed: 0,
            mux: None,
            described: false,
            avcc: None,
            asc: None,
            timebase: None,
            awaiting: false,
            told: (None, None),
            qos,
        }
    }

    /// The engine with a fresh connection: the timebase goes over into the new
    /// muxer, and nothing has been sent yet.
    pub open spec fn attached(self) -> EngineView {
        EngineView {
            mux: Some(
                match self.timebase {
                    Some((origin, last)) => MuxView {
                        origin: match origin {
                            Some(o) => Some(o as int),
                            None => None,
                        },
                        last_dts: last as int,
                        ..MuxView::fresh()
                    },
                    None => MuxView::fresh(),
                },
            ),
            described: false,
            timebase: None,
            ..self
        }
    }

    /// The engine once its connection is gone: timebase and configurations are
    /// kept, the buffer is cut back to the newest keyframe, and where the cut
    /// could not find one (it was already muxed out) media waits for the next.
    /// Only streams that carry video ever need to wait.
    pub open spec fn detached(self) -> EngineView {
        let kept = cut(self.buffer);
        let avcc = match self.mux {
            Some(m) => harvested(self.avcc, m.avcc),
            None => self.avcc,
        };
        EngineView {
            buffer: kept,
            dropped: (self.dropped + stale(self.buffer)) as nat,
            mux: None,
            avcc,
            asc: match self.mux {
                Some(m) => harvested(self.asc, m.asc),
                None => self.asc,
            },
            timebase: match self.mux {
                Some(m) => Some(
                    (
                        match m.origin {
                            Some(o) => Some(o as i64),
                            None => None,
                        },
                        m.last_dts as i64,
                    ),
                ),
                None => self.timebase,
            },
            awaiting: avcc is Some && !(kept.len() > 0 && is_keyframe(kept.first())),
            ..self
        }
    }

    /// The engine once its buffer has been drained.
    pub open spec fn drained(self) -> EngineView {
        EngineView {
            buffer: Seq::empty(),
            dropped: (self.dropped + self.buffer.len() - self.batch().len()) as nat,
            awaiting: self.awaiting && !has_keyframe(self.buffer),
            ..self
        }
    }
}

/// The views of a buffer that packets are pushed into, one after the other.
pub open spec fn pushed_all(
    items: Seq<PacketView>,
    capacity: nat,
    ps: Seq<PacketView>,
) -> Seq<PacketView>
    decreases ps.len(),
{
    if ps.len() == 0 {
        items
    } else {
        pushed_onto(pushed_all(items, capacity, ps.drop_last()), capacity, ps.last())
    }
}

/// How much a counter grew; nothing where it was reset.
pub open spec fn growth(now: u64, before: u64) -> int {
    if now > before {
        now - before
    } else {
        0
    }
}

/// The time from one reading to a later one; none where it is not later.
pub open spec fn since(now: u64, last: u64) -> int {
    growth(now, last)
}

/// The rate to report for a counter, a double: what it grew by since the last
/// sample, or zero over a gap that is too long or none at all.
pub open spec fn reported_rate(now: u64, before: u64, elapsed_ns: u64) -> u64 {
    if elapsed_ns <= MAX_SAMPLE_GAP && seconds(elapsed_ns) > 0 {
        bits_per_second(growth(now, before) as u64, elapsed_ns)
    } else {
        0
    }
}

/// What sampling needs to know of the last sample.
#[derive(Debug, Clone, Copy, PartialEq, Eq, Structural)]
pub struct Baseline {
    /// When it was taken, in nanoseconds on the engine's clock.
    pub at: u64,
    /// The container bytes then.
    pub media: u64,
    /// The wire bytes then.
    pub wire: u64,
}

/// Public handle. `W` is the transport sink (`Transport`), which also feeds the
/// muxer; `O` is the kind of packet-level output.
pub struct Engine<W: Transport, O: PacketSink> {
    config: EngineConfig,
    clock: Clock,
    buffer: BoundedBuffer<MediaPacket>,
    muxer: Option<FlvMuxer<W>>,
    metadata_written: bool,
    muxed: u64,
    /// Codec configs in force, cached so a reconnect can re-emit the sequence
    /// headers — the new server connection knows nothing about the old one.
    avcc: Option<Vec<u8>>,
    asc: Option<Vec<u8>>,
    /// Muxer timebase snapshot taken when a transport dies, so the replacement
    /// muxer continues the timestamp series.
    timebase: Option<(Option<i64>, i64)>,
    /// Set while the engine must not emit media. True when a transport died
    /// and the buffer held no keyframe to resume from: the fresh connection
    /// would otherwise start on an orphaned inter-frame a decoder cannot use.
    /// Cleared as soon as a video keyframe is drained.
    awaiting_keyframe: bool,
    qos: Qos,
    /// Sampling baselines, used to derive bitrate/throughput deltas.
    baseline: Baseline,
    /// Packet-level outputs (recording, HLS). They persist across transport
    /// reconnects: the publish connection may die and re-dial, but a recording
    /// or a playlist must keep going without interruption.
    outputs: Vec<O>,
    /// Codec configs last pushed to `outputs`, so updates are detected without
    /// spamming every sink on every tick.
    output_avcc: Option<Vec<u8>>,
    output_asc: Option<Vec<u8>>,
    /// The log records that wait to be delivered.
    book: LogBook,
}

/// The state of an optional muxer.
pub open spec fn mux_of<W: Sink>(m: Option<FlvMuxer<W>>) -> Option<MuxView> {
    match m {
        Some(muxer) => Some(muxer@),
        None => None,
    }
}

/// The transport of an optional muxer.
pub open spec fn sink_of<W: Sink>(m: Option<FlvMuxer<W>>) -> Option<W> {
    match m {
        Some(muxer) => Some(muxer.spec_sink()),
        None => None,
    }
}

impl<W: Transport, O: PacketSink> View for Engine<W, O> {
    type V = EngineView;

    closed spec fn view(&self) -> EngineView {
        EngineView {
            buffer: packets(self.buffer@),
            pushed: self.buffer.spec_pushed(),
            dropped: self.buffer.spec_dropped(),
            muxed: self.muxed as nat,
            mux: mux_of(self.muxer),
            described: self.metadata_written,
            avcc: opt_bytes(self.avcc),
            asc: opt_bytes(self.asc),
            timebase: self.timebase,
            awaiting: self.awaiting_keyframe,
            told: (opt_bytes(self.output_avcc), opt_bytes(self.output_asc)),
            qos: self.qos@,
        }
    }
}

/// A copy of an optional configuration.
fn copy_config(c: &Option<Vec<u8>>) -> (d: Option<Vec<u8>>)
    ensures
        opt_bytes(d) == opt_bytes(*c),
{
    match c {
        Some(v) => Some(bytes::copy_of(v.as_slice())),
        None => None,
    }
}

/// An optional configuration as a slice.
fn config_slice(c: &Option<Vec<u8>>) -> (s: Option<&[u8]>)
    ensures
        opt_slice(s) == opt_bytes(*c),
{
    match c {
        Some(v) => Some(v.as_slice()),
        None => None,
    }
}

/// Are two optional configurations the same?
fn same_config(a: &Option<Vec<u8>>, b: &Option<Vec<u8>>) -> (same: bool)
    ensures
        same == (opt_bytes(*a) == opt_bytes(*b)),
{
    match (a, b) {
        (None, None) => true,
        (Some(x), Some(y)) => bytes::same_bytes(x.as_slice(), y.as_slice()),
        _ => false,
    }
}

/// The configuration to keep: the one that is known, or the muxer's own.
pub open spec fn harvested(known: Option<Seq<u8>>, sniffed: Option<Seq<u8>>) -> Option<Seq<u8>> {
    if known is Some {
        known
    } else {
        sniffed
    }
}

impl<W: Transport, O: PacketSink> Engine<W, O> {
    /// The configuration.
    pub closed spec fn spec_config(&self) -> EngineConfig {
        self.config
    }

    /// The transport, while one is attached.
    pub closed spec fn spec_transport(&self) -> Option<W> {
        sink_of(self.muxer)
    }

    /// The outputs.
    pub closed spec fn spec_outputs(&self) -> Seq<O> {
        self.outputs@
    }

    /// The container bytes written on this connection.
    pub closed spec fn spec_media_bytes(&self) -> u64 {
        match self.muxer {
            Some(m) => m.spec_bytes_written(),
            None => 0,
        }
    }

    /// The bytes the transport reports.
    pub open spec fn spec_wire_bytes(&self) -> u64 {
        match self.spec_transport() {
            Some(t) => t.sent(),
            None => 0,
        }
    }

    /// The round-trip time the transport reports, in milliseconds as a double.
    pub open spec fn spec_rtt(&self) -> Option<u64> {
        match self.spec_transport() {
            Some(t) => match t.round_trip() {
                Some(ns) => Some(millis(ns)),
                None => None,
            },
            None => None,
        }
    }

    /// The sampling baseline.
    pub closed spec fn spec_baseline(&self) -> Baseline {
        self.baseline
    }

    /// True if `next` is like this engine in everything beside its state.
    pub open spec fn beside(&self, next: &Self) -> bool {
        &&& next.spec_config() == self.spec_config()
        &&& next.spec_transport() == self.spec_transport()
        &&& next.spec_outputs() == self.spec_outputs()
        &&& next.spec_media_bytes() == self.spec_media_bytes()
        &&& next.spec_baseline() == self.spec_baseline()
    }

    /// The log records that wait to be delivered.
    pub closed spec fn spec_book(&self) -> BookView {
        self.book@
    }

    /// The records once this engine has noted something of itself.
    pub open spec fn noting(
        &self,
        level: Level,
        message: Seq<char>,
        fields: Seq<(Seq<char>, FieldView)>,
    ) -> BookView {
        self.spec_book().noted(level, "stream::engine"@, message, fields)
    }

    /// True if a transport is attached that accepts everything, or is waiting
    /// for the header that goes out first.
    pub open spec fn steady(&self) -> bool {
        self.spec_transport() matches Some(t) && (t.reliable() || (!self@.mux->0.started
            && t.takes_flv()))
    }

    /// Every packet that was accepted is accounted for at most once: it is
    /// buffered, muxed or dropped.
    pub closed spec fn wf(&self) -> bool {
        &&& self@.dropped + self@.buffer.len() + self@.muxed <= self@.pushed <= u64::MAX
        &&& self.buffer.spec_capacity() == budget_of(self.config.profile)
        &&& self.qos.wf()
    }

    /// No packet is counted twice: those dropped, waiting and muxed together
    /// are never more than those pushed.
    pub proof fn packets_are_accounted_for(&self)
        requires
            self.wf(),
        ensures
            self@.dropped + self@.buffer.len() + self@.muxed <= self@.pushed <= u64::MAX,
    {
    }

    /// An engine's timestamps are machine numbers.
    pub proof fn lemma_times_fit(&self)
        ensures
            self@.mux matches Some(m) ==> i64::MIN <= m.last_dts <= i64::MAX && (
            m.origin matches Some(o) ==> i64::MIN <= o <= i64::MAX),
    {
        if let Some(m) = self.muxer {
            m.lemma_times_fit();
        }
    }

    /// The sample that is taken at `now_ns`, if one is due; `wall_ms` is the
    /// wall-clock time.
    pub open spec fn due_sample(
        &self,
        baseline: Baseline,
        qos: QosView,
        now_ns: u64,
        wall_ms: u64,
    ) -> Option<SampleView> {
        let elapsed = since(now_ns, baseline.at);
        if elapsed < self.spec_config().qos.interval {
            None
        } else {
            Some(
                SampleView {
                    wall_ms,
                    uptime_ms: now_ns / 1_000_000,
                    bitrate_out_bps: reported_rate(
                        self.spec_media_bytes(),
                        baseline.media,
                        elapsed as u64,
                    ),
                    throughput_bps: reported_rate(
                        self.spec_wire_bytes(),
                        baseline.wire,
                        elapsed as u64,
                    ),
                    drop_ratio: ratio(self@.dropped as u64, self@.pushed as u64),
                    buffer_ms: self.lag_at(now_ns) as i64,
                    buffered_count: self@.buffer.len() as usize,
                    rtt_ms: self.spec_rtt(),
                    reconnects: qos.reconnects,
                    reconnect_attempts: qos.reconnect_attempts,
                    pushed: self@.pushed as u64,
                    muxed: self@.muxed as u64,
                    dropped: self@.dropped as u64,
                    last_error: qos.last_error,
                },
            )
        }
    }

    /// True if the engine is one that was `before` when the time for sampling
    /// came: the sample that is due, if one is, is in the collector and stands
    /// for the last one.
    pub open spec fn sampled(&self, before: &Self, now_ns: u64, wall_ms: u64) -> bool {
        match self.due_sample(before.spec_baseline(), before@.qos, now_ns, wall_ms) {
            Some(s) => {
                &&& self@.qos == before@.qos.with_sample(s)
                &&& self.spec_baseline() == (Baseline {
                    at: now_ns,
                    media: self.spec_media_bytes(),
                    wire: self.spec_wire_bytes(),
                })
            },
            None => {
                &&& self@.qos == before@.qos
                &&& self.spec_baseline() == before.spec_baseline()
            },
        }
    }

    /// The distance from the newest buffered packet to the live edge.
    pub open spec fn lag_at(&self, now_ns: u64) -> int {
        if self@.buffer.len() > 0 {
            latency_at((now_ns / 1_000_000) as i64, self@.buffer.last().pts as i64)
        } else {
            0
        }
    }

    /// Create an engine with no transport attached yet.
    pub fn new(config: EngineConfig) -> (e: Self)
        ensures
            e.wf(),
            e.spec_config() == config,
            e.spec_outputs() == Seq::<O>::empty(),
            e.spec_transport() is None,
            e@ == EngineView::fresh(config),
            e.spec_book() == BookView::closed(),
    {
        Engine::with_clock(config, Clock::new())
    }

    /// Create an engine that tells the time by `clock`.
    pub fn with_clock(config: EngineConfig, clock: Clock) -> (e: Self)
        ensures
            e.wf(),
            e.spec_config() == config,
            e.spec_outputs() == Seq::<O>::empty(),
            e.spec_transport() is None,
            e@ == EngineView::fresh(config),
            e.spec_book() == BookView::closed(),
    {
        let at: u64 = clock.now_ns();
        let e = Engine {
            config,
            clock,
            buffer: BoundedBuffer::new(config.profile.packet_budget()),
            muxer: None,
            metadata_written: false,
            muxed: 0,
            avcc: None,
            asc: None,
            timebase: None,
            awaiting_keyframe: false,
            qos: Qos::new(config.qos),
            baseline: Baseline { at, media: 0, wire: 0 },
            outputs: Vec::new(),
            output_avcc: None,
            output_asc: None,
            book: LogBook::new(),
        };
        assert(e@.buffer =~= Seq::<PacketView>::empty());
        e
    }

    /// True if `next` is this engine with one output more, which has had `calls`
    /// before: all outputs know the decoder configurations in force.
    pub open spec fn joined(&self, next: &Self, calls: Seq<SinkCall>) -> bool {
        let v = self@;
        &&& calls_of(next.spec_outputs()) == self.informed(v.avcc, v.asc).push(
            calls.push(SinkCall::Codecs(v.avcc, v.asc)),
        )
        &&& next@ == (EngineView { told: (v.avcc, v.asc), ..v })
        &&& next.spec_config() == self.spec_config()
        &&& next.spec_transport() == self.spec_transport()
        &&& next.spec_media_bytes() == self.spec_media_bytes()
        &&& next.spec_baseline() == self.spec_baseline()
    }

    /// Attach a packet-level output (recording, HLS segmenter, ...). It
    /// receives every packet that reaches the wire plus codec-config updates,
    /// and — unlike the transport — survives reconnects untouched. Returns the
    /// number of outputs now attached.
    pub fn attach_output(&mut self, sink: O) -> (n: usize)
        requires
            old(self).wf(),
        ensures
            final(self).wf(),
            n == final(self).spec_outputs().len(),
            old(self).joined(final(self), sink.calls()),
            final(self).spec_book() == old(self).noting(
                Level::Info,
                "output attached"@,
                seq![("outputs"@, FieldView::Uint(n as u64))],
            ),
    {
        let mut sink = sink;
        // Bring the sink up to date immediately when configs are already known.
        sink.codecs(config_slice(&self.avcc), config_slice(&self.asc));
        self.sync_output_codecs();
        let ghost call = sink.calls();
        let ghost others = calls_of(self.outputs@);
        self.outputs.push(sink);
        assert(calls_of(self.outputs@) =~= others.push(call));
        let n: usize = self.outputs.len();
        self.note_count(Level::Info, "output attached", "outputs", n as u64);
        n
    }

    /// Note something that comes with a number.
    fn note_count(&mut self, level: Level, message: &str, key: &str, n: u64)
        ensures
            *final(self) == (Engine { book: final(self).book, ..*old(self) }),
            final(self).spec_book() == old(self).noting(
                level,
                message@,
                seq![(key@, FieldView::Uint(n))],
            ),
    {
        let fields: [Field<'_>; 1] = [Field { key, value: FieldValue::Uint(n) }];
        let list: &[Field<'_>] = fields.as_slice();
        assert((Record { level, module: "stream::engine", message, fields: list })@.fields =~= seq![
            (key@, FieldView::Uint(n)),
        ]);
        self.book.note(level, "stream::engine", message, list);
    }

    /// Keep log records up to this level, and no others; `None` keeps none.
    pub fn set_log_level(&mut self, max: Option<Level>)
        requires
            old(self).wf(),
        ensures
            final(self).wf(),
            final(self)@ == old(self)@,
            old(self).beside(final(self)),
            final(self).spec_book() == (BookView { max, ..old(self).spec_book() }),
    {
        self.book.set_level(max);
    }

    /// The log records to deliver, in the order in which they came.
    pub fn take_records(&mut self) -> (records: Vec<Entry>)
        requires
            old(self).wf(),
        ensures
            final(self).wf(),
            final(self)@ == old(self)@,
            old(self).beside(final(self)),
            entry_views(records@) == old(self).spec_book().records,
            final(self).spec_book() == (BookView {
                records: Seq::empty(),
                ..old(self).spec_book()
            }),
    {
        self.book.take()
    }

    /// Keep a log record of another part of the library among the engine's own.
    pub fn note(&mut self, level: Level, module: &str, message: &str, fields: &[Field<'_>])
        requires
            old(self).wf(),
        ensures
            final(self).wf(),
            final(self)@ == old(self)@,
            old(self).beside(final(self)),
            final(self).spec_book() == old(self).spec_book().noted(
                level,
                module@,
                message@,
                (Record { level, module, message, fields })@.fields,
            ),
    {
        self.book.note(level, module, message, fields);
    }

    /// Number of packet-level outputs currently attached.
    pub fn output_count(&self) -> (n: usize)
        ensures
            n == self.spec_outputs().len(),
    {
        self.outputs.len()
    }

    /// The outputs.
    pub fn outputs(&self) -> (all: &[O])
        ensures
            all@ == self.spec_outputs(),
    {
        self.outputs.as_slice()
    }

    /// Attach (or replace) the destination. Reuses the engine for reconnects.
    /// Returns the previous transport, if any.
    ///
    /// On a reattach the muxer's timebase (origin + high-water DTS) carried
    /// over from [`detach_transport`](Self::detach_transport) is restored into
    /// the fresh muxer, so the resumed stream continues its timestamp series
    /// instead of jumping back to 0. The next `tick` re-emits the FLV header,
    /// metadata, and sequence headers that the new connection has never seen.
    pub fn attach_transport(&mut self, transport: W) -> (previous: Option<W>)
        requires
            old(self).wf(),
        ensures
            final(self).wf(),
            previous == old(self).spec_transport(),
            final(self).spec_transport() == Some(transport),
            final(self).spec_media_bytes() == 0,
            final(self).spec_config() == old(self).spec_config(),
            final(self).spec_outputs() == old(self).spec_outputs(),
            final(self).spec_baseline().media == 0,
            final(self).spec_baseline().wire == 0,
            final(self)@ == old(self)@.attached(),
            final(self).spec_book() == old(self).noting(
                Level::Info,
                "transport attached"@,
                Seq::empty(),
            ),
    {
        self.book.mark(Level::Info, "stream::engine", "transport attached");
        let mut muxer: FlvMuxer<W> = FlvMuxer::new(transport);
        if let Some((origin, last)) = self.timebase {
            muxer.restore_timebase(origin, last);
        }
        self.timebase = None;
        let mut previous: Option<FlvMuxer<W>> = Some(muxer);
        std::mem::swap(&mut previous, &mut self.muxer);
        self.metadata_written = false;
        // A fresh muxer/transport starts counting bytes at 0: reset the rate
        // baselines so the first sample after a reconnect isn't distorted.
        self.baseline = Baseline { at: self.clock.now_ns(), media: 0, wire: 0 };
        match previous {
            Some(m) => Some(m.into_inner()),
            None => None,
        }
    }

    /// Drop a dead transport, keeping the buffer and everything needed to
    /// resume. The muxer's timebase and codec configs are snapshotted so the
    /// next [`attach_transport`](Self::attach_transport) continues cleanly,
    /// and the buffer is cut back to the newest keyframe so the resumed stream
    /// starts at a clean decode point (viewers resync immediately).
    pub fn detach_transport(&mut self)
        requires
            old(self).wf(),
        ensures
            final(self).wf(),
            final(self).spec_transport() is None,
            final(self).spec_config() == old(self).spec_config(),
            final(self).spec_outputs() == old(self).spec_outputs(),
            final(self).spec_baseline() == old(self).spec_baseline(),
            final(self)@ == old(self)@.detached(),
            final(self).spec_book() == (if final(self)@.awaiting {
                old(self).noting(
                    Level::Warn,
                    "awaiting a keyframe before resuming"@,
                    Seq::empty(),
                )
            } else {
                old(self).spec_book()
            }).noted(Level::Info, "stream::engine"@, "transport detached"@, Seq::empty()),
    {
        let ghost v = self@;
        proof {
            cuts_keep_the_newest_keyframe(v.buffer);
        }
        // Snapshot before dropping: timebase for timestamp continuity, configs
        // for re-emitting sequence headers on the next connection.
        if let Some(m) = &self.muxer {
            self.timebase = Some((m.origin(), m.last_dts()));
            if self.avcc.is_none() {
                self.avcc = match m.video_config() {
                    Some(c) => Some(bytes::copy_of(c)),
                    None => None,
                };
            }
            if self.asc.is_none() {
                self.asc = match m.audio_config() {
                    Some(c) => Some(bytes::copy_of(c)),
                    None => None,
                };
            }
        }
        self.muxer = None;
        let _discarded: u64 = cut_to_keyframe(&mut self.buffer);
        let starts: bool = match self.buffer.front() {
            Some(p) => starts_decoding(p),
            None => false,
        };
        proof {
            let kept = packets(self.buffer@);
            if self.buffer@.len() > 0 {
                assert(kept.first() == self.buffer@.first()@);
            }
        }
        self.awaiting_keyframe = self.avcc.is_some() && !starts;
        if self.awaiting_keyframe {
            self.book.mark(Level::Warn, "stream::engine", "awaiting a keyframe before resuming");
        }
        self.book.mark(Level::Info, "stream::engine", "transport detached");
    }

    /// When the transport last made forward progress, if it reports any. Used
    /// by the session layer for stall detection.
    pub fn transport_progress(&self) -> (at: Option<u64>)
        ensures
            at == match self.spec_transport() {
                Some(t) => t.progress(),
                None => None,
            },
    {
        match &self.muxer {
            Some(m) => m.sink().last_progress(),
            None => None,
        }
    }

    /// Send a packet into the pipeline.
    pub fn push(&mut self, pkt: MediaPacket) -> (r: Result<(), EngineError>)
        requires
            old(self).wf(),
            old(self)@.pushed < u64::MAX,
        ensures
            r is Ok,
            final(self).wf(),
            ({
                let v = old(self)@;
                let profile = old(self).spec_config().profile;
                let all = pushed_onto(v.buffer, budget_of(profile), pkt@);
                let held = EngineView::held(all, profile);
                final(self)@ == (EngineView {
                    buffer: held,
                    pushed: v.pushed + 1,
                    dropped: (v.dropped + v.buffer.len() + 1 - held.len()) as nat,
                    ..v
                })
            }),
            final(self).spec_book() == cut_note(
                old(self).spec_book(),
                pushed_onto(old(self)@.buffer, budget_of(old(self).spec_config().profile), pkt@),
                old(self).spec_config().profile,
            ),
            old(self).beside(final(self)),
    {
        let ghost p = pkt@;
        let ghost before = self.buffer@;
        self.buffer.push(pkt);
        assert(packets(self.buffer@) =~= pushed_onto(
            packets(before),
            self.buffer.spec_capacity(),
            p,
        ));
        self.enforce_drop_policy();
        Ok(())
    }

    /// Push a batch.
    pub fn push_all(&mut self, pkts: Vec<MediaPacket>) -> (r: Result<(), EngineError>)
        requires
            old(self).wf(),
            old(self)@.pushed + pkts@.len() <= u64::MAX,
        ensures
            r is Ok,
            final(self).wf(),
            ({
                let v = old(self)@;
                let profile = old(self).spec_config().profile;
                let all = pushed_all(v.buffer, budget_of(profile), packets(pkts@));
                let held = EngineView::held(all, profile);
                final(self)@ == (EngineView {
                    buffer: held,
                    pushed: v.pushed + pkts@.len(),
                    dropped: (v.dropped + v.buffer.len() + pkts@.len() - held.len()) as nat,
                    ..v
                })
            }),
            final(self).spec_book() == cut_note(
                old(self).spec_book(),
                pushed_all(
                    old(self)@.buffer,
                    budget_of(old(self).spec_config().profile),
                    packets(pkts@),
                ),
                old(self).spec_config().profile,
            ),
            old(self).beside(final(self)),
    {
        let ghost all = packets(pkts@);
        let ghost capacity = self.buffer.spec_capacity();
        let ghost start = self.buffer;
        let mut i: usize = 0;
        assert(all.take(0) =~= Seq::<PacketView>::empty());
        let mut pkts = pkts;
        let n: usize = pkts.len();
        while i < n
            invariant
                i <= n == all.len(),
                pkts@.len() == n - i,
                packets(pkts@) == all.skip(i as int),
                start == old(self).buffer,
                capacity == start.spec_capacity() == self.buffer.spec_capacity(),
                old(self).wf(),
                old(self)@.pushed + n <= u64::MAX,
                packets(self.buffer@) == pushed_all(
                    packets(start@),
                    capacity,
                    all.take(i as int),
                ),
                self.buffer.spec_pushed() == start.spec_pushed() + i,
                self.buffer.spec_dropped() + self.buffer@.len() == start.spec_dropped()
                    + start@.len() + i,
                self.config == old(self).config,
                self.muxer == old(self).muxer,
                self.metadata_written == old(self).metadata_written,
                self.muxed == old(self).muxed,
                self.avcc == old(self).avcc,
                self.asc == old(self).asc,
                self.timebase == old(self).timebase,
                self.awaiting_keyframe == old(self).awaiting_keyframe,
                self.qos == old(self).qos,
                self.baseline == old(self).baseline,
                self.outputs == old(self).outputs,
                self.output_avcc == old(self).output_avcc,
                self.output_asc == old(self).output_asc,
                self.book == old(self).book,
            decreases n - i,
        {
            let ghost before = self.buffer@;
            let ghost left = pkts@;
            let pkt: MediaPacket = pkts.remove(0);
            proof {
                assert(packets(left)[0] == pkt@);
                assert(all.skip(i as int)[0] == all[i as int]);
                assert(packets(pkts@) =~= packets(left).drop_first());
                assert(all.skip(i as int).drop_first() =~= all.skip(i + 1));
                let next = all.take(i + 1);
                assert(next.drop_last() =~= all.take(i as int));
                assert(next.last() == pkt@);
            }
            let ghost p = pkt@;
            self.buffer.push(pkt);
            assert(packets(self.buffer@) =~= pushed_onto(packets(before), capacity, p));
            i = i + 1;
        }
        assert(all.take(n as int) =~= all);
        self.enforce_drop_policy();
        Ok(())
    }

    /// Keyframe-aligned drops wired to the [`LatencyProfile`]: once the buffer
    /// passes the profile's threshold, discard everything before the newest
    /// keyframe instead of dripping single packets. Cutting at a keyframe keeps
    /// the remaining stream decodable (viewers can always resync), and jumping
    /// straight to the live edge bounds latency — one big honest drop beats a
    /// slow drift that leaves orphaned inter-frames behind.
    fn enforce_drop_policy(&mut self)
        requires
            old(self).buffer.spec_dropped() + old(self).buffer@.len() <= u64::MAX,
        ensures
            packets(final(self).buffer@) == EngineView::held(
                packets(old(self).buffer@),
                old(self).config.profile,
            ),
            final(self).buffer.spec_dropped() + final(self).buffer@.len()
                == old(self).buffer.spec_dropped() + old(self).buffer@.len(),
            final(self).buffer.spec_pushed() == old(self).buffer.spec_pushed(),
            final(self).buffer.spec_capacity() == old(self).buffer.spec_capacity(),
            final(self).config == old(self).config,
            final(self).muxer == old(self).muxer,
            final(self).metadata_written == old(self).metadata_written,
            final(self).muxed == old(self).muxed,
            final(self).avcc == old(self).avcc,
            final(self).asc == old(self).asc,
            final(self).timebase == old(self).timebase,
            final(self).awaiting_keyframe == old(self).awaiting_keyframe,
            final(self).qos == old(self).qos,
            final(self).baseline == old(self).baseline,
            final(self).outputs == old(self).outputs,
            final(self).output_avcc == old(self).output_avcc,
            final(self).output_asc == old(self).output_asc,
            final(self).spec_book() == cut_note(
                old(self).spec_book(),
                packets(old(self).buffer@),
                old(self).config.profile,
            ),
    {
        if let Some(threshold) = self.config.profile.cut_threshold() {
            if self.buffer.len() >= threshold {
                let dropped: u64 = cut_to_keyframe(&mut self.buffer);
                if dropped > 0 {
                    let fields: [Field<'_>; 2] = [
                        Field { key: "dropped", value: FieldValue::Uint(dropped) },
                        Field { key: "threshold", value: FieldValue::Uint(threshold as u64) },
                    ];
                    let list: &[Field<'_>] = fields.as_slice();
                    let ghost level = Level::Warn;
                    assert((Record {
                        level,
                        module: "stream::engine",
                        message: "cut to live edge",
                        fields: list,
                    })@.fields =~= seq![
                        ("dropped"@, FieldView::Uint(dropped)),
                        ("threshold"@, FieldView::Uint(threshold as u64)),
                    ]);
                    self.book.note(Level::Warn, "stream::engine", "cut to live edge", list);
                }
            }
        }
    }

    /// True if `next` is this engine once it was told of decoder configurations,
    /// which returned `r`: those given are in force, and where a transport is
    /// attached their sequence headers are on the wire.
    pub open spec fn configured(
        &self,
        next: &Self,
        avcc: Option<Seq<u8>>,
        asc: Option<Seq<u8>>,
        r: Result<(), EngineError>,
    ) -> bool {
        let v = self@;
        let known = EngineView {
            avcc: harvested(avcc, v.avcc),
            asc: harvested(asc, v.asc),
            ..v
        };
        &&& next.spec_config() == self.spec_config()
        &&& next.spec_outputs() == self.spec_outputs()
        &&& next.spec_baseline() == self.spec_baseline()
        &&& r matches Err(e) ==> (e matches EngineError::Mux(m) && m is Io)
        &&& match v.mux {
            None => r is Ok && next@ == known && next.spec_transport() is None,
            Some(m) => {
                &&& self.steady() ==> r is Ok
                &&& r is Ok ==> {
                    let (ready, out) = opening(m, true, self.spec_config().stream, avcc, asc);
                    &&& next@ == (EngineView { mux: Some(ready), ..known })
                    &&& next.spec_transport() matches Some(t) && t.written()
                        == self.spec_transport()->0.written() + out
                    &&& next.spec_media_bytes() == (self.spec_media_bytes() + out.len())
                        % 0x1_0000_0000_0000_0000
                    &&& self.steady() ==> next.steady()
                }
                &&& r is Err ==> next@ == (EngineView { mux: next@.mux, ..known }) && next@.mux
                    is Some
            },
        }
    }

    /// Emit codec sequence headers up front. The platform usually knows these
    /// (SPS/PPS from the encoder's `MediaFormat`, the AAC `AudioSpecificConfig`),
    /// which is both more reliable and cheaper than sniffing the first packet.
    /// Call after `attach_transport`, before the first `tick`. The configs are
    /// cached and automatically re-emitted after every reconnect.
    pub fn configure_codecs(&mut self, avcc: Option<&[u8]>, asc: Option<&[u8]>) -> (r: Result<
        (),
        EngineError,
    >)
        requires
            old(self).wf(),
        ensures
            final(self).spec_book() == old(self).spec_book(),
            final(self).wf(),
            old(self).configured(final(self), opt_slice(avcc), opt_slice(asc), r),
    {
        if let Some(v) = avcc {
            self.avcc = Some(bytes::copy_of(v));
        }
        if let Some(a) = asc {
            self.asc = Some(bytes::copy_of(a));
        }
        match &mut self.muxer {
            None => Ok(()),
            Some(m) => match m.init_codecs(avcc, asc) {
                Ok(()) => {
                    proof {
                        let x = if opt_slice(avcc) is Some || opt_slice(asc) is Some {
                            old(self)@.mux->0.preamble()
                        } else {
                            Seq::<u8>::empty()
                        } + tags_bytes(
                            old(self)@.mux->0.codec_tags(opt_slice(avcc), opt_slice(asc)),
                        );
                        assert(Seq::<u8>::empty() + x =~= x);
                    }
                    Ok(())
                },
                Err(e) => Err(EngineError::Mux(e)),
            },
        }
    }

    /// Service the transport's inbound direction / health checks: a dead peer
    /// must be discovered before more bytes are fed to it.
    fn maintain_transport(&mut self) -> (r: Result<(), IoError>)
        ensures
            final(self).book == old(self).book,
            final(self)@ == old(self)@,
            final(self).spec_media_bytes() == old(self).spec_media_bytes(),
            final(self).spec_transport() is Some <==> old(self).spec_transport() is Some,
            old(self).spec_transport() matches Some(t) ==> final(self).spec_transport()->0.written()
                == t.written(),
            old(self).steady() ==> r is Ok && final(self).steady(),
            final(self).buffer == old(self).buffer,
            final(self).config == old(self).config,
            final(self).outputs == old(self).outputs,
            final(self).output_avcc == old(self).output_avcc,
            final(self).output_asc == old(self).output_asc,
            final(self).baseline == old(self).baseline,
            final(self).qos == old(self).qos,
    {
        match &mut self.muxer {
            Some(m) => m.sink_mut().maintain(),
            None => Ok(()),
        }
    }

    /// Mux a batch, with the metadata and the sequence headers first where the
    /// connection has not seen them yet. Returns the times of the packets that
    /// were muxed, and what went wrong.
    fn publish(&mut self, batch: &Vec<MediaPacket>) -> (r: (Vec<(i64, i64)>, Option<MuxError>))
        requires
            old(self)@.mux is Some,
        ensures
            old(self).spec_book().grown(final(self).spec_book()),
            r.1 is None ==> final(self).spec_book() == run_notes(
                old(self).spec_book(),
                old(self).opened(),
                packets(batch@),
                true,
            ),
            r.0@.len() <= batch@.len(),
            r.1 is None ==> r.0@.len() == batch@.len(),
            times_of(
                r.0@,
                stamped_run(old(self).opened(), packets(batch@).take(r.0@.len() as int), true),
            ),
            same_time(
                mux_run(old(self).opened(), packets(batch@).take(r.0@.len() as int), true).mux,
                packet_after(packets(batch@), r.0@.len() as int),
                final(self)@.mux->0,
            ),
            final(self)@ == (EngineView { mux: final(self)@.mux, ..old(self)@ }),
            final(self)@.mux is Some,
            final(self).spec_transport() is Some,
            r.1 matches Some(MuxError::Io(_)) ==> !old(self).steady() && old(self).stopped(
                final(self),
                packets(batch@),
                r.0@.len(),
            ),
            !(r.1 matches Some(MuxError::Io(_))) ==> {
                let (m, out) = opening(
                    old(self)@.mux->0,
                    old(self)@.described,
                    old(self).spec_config().stream,
                    old(self)@.avcc,
                    old(self)@.asc,
                );
                let run = mux_run(m, packets(batch@), true);
                &&& final(self)@.mux == Some(run.mux)
                &&& final(self).spec_transport()->0.written()
                    == old(self).spec_transport()->0.written() + (out + run.out)
                &&& final(self).spec_media_bytes() == (old(self).spec_media_bytes() + (out
                    + run.out).len()) % 0x1_0000_0000_0000_0000
                &&& old(self).steady() ==> final(self).steady()
                &&& r.0@.len() == run.sent
                &&& match run.refusal {
                    None => r.1 is None,
                    Some(refusal) => r.1 matches Some(e) && reports_refusal(
                        e,
                        refusal,
                        run.mux,
                        packets(batch@)[run.sent as int],
                    ),
                }
            },
            final(self).buffer == old(self).buffer,
            final(self).config == old(self).config,
            final(self).outputs == old(self).outputs,
            final(self).output_avcc == old(self).output_avcc,
            final(self).output_asc == old(self).output_asc,
            final(self).baseline == old(self).baseline,
            final(self).qos == old(self).qos,
    {
        let ghost before = *self;
        let (times, failure): (Vec<(i64, i64)>, Option<MuxError>) = self.write_batch(batch);
        proof {
            if failure matches Some(MuxError::Io(_)) {
                before.lemma_stopped_time(self, packets(batch@), times@.len());
            } else {
                lemma_refused_time(before.opened(), packets(batch@));
            }
        }
        (times, failure)
    }

    /// Carry out [`publish`](Self::publish).
    fn write_batch(&mut self, batch: &Vec<MediaPacket>) -> (r: (Vec<(i64, i64)>, Option<MuxError>))
        requires
            old(self)@.mux is Some,
        ensures
            old(self).spec_book().grown(final(self).spec_book()),
            r.1 is None ==> final(self).spec_book() == run_notes(
                old(self).spec_book(),
                old(self).opened(),
                packets(batch@),
                true,
            ),
            r.0@.len() <= batch@.len(),
            r.1 is None ==> r.0@.len() == batch@.len(),
            times_of(
                r.0@,
                stamped_run(old(self).opened(), packets(batch@).take(r.0@.len() as int), true),
            ),
            final(self)@ == (EngineView { mux: final(self)@.mux, ..old(self)@ }),
            final(self)@.mux is Some,
            final(self).spec_transport() is Some,
            r.1 matches Some(MuxError::Io(_)) ==> !old(self).steady() && old(self).stopped(
                final(self),
                packets(batch@),
                r.0@.len(),
            ),
            !(r.1 matches Some(MuxError::Io(_))) ==> {
                let (m, out) = opening(
                    old(self)@.mux->0,
                    old(self)@.described,
                    old(self).spec_config().stream,
                    old(self)@.avcc,
                    old(self)@.asc,
                );
                let run = mux_run(m, packets(batch@), true);
                &&& final(self)@.mux == Some(run.mux)
                &&& final(self).spec_transport()->0.written()
                    == old(self).spec_transport()->0.written() + (out + run.out)
                &&& final(self).spec_media_bytes() == (old(self).spec_media_bytes() + (out
                    + run.out).len()) % 0x1_0000_0000_0000_0000
                &&& old(self).steady() ==> final(self).steady()
                &&& r.0@.len() == run.sent
                &&& match run.refusal {
                    None => r.1 is None,
                    Some(refusal) => r.1 matches Some(e) && reports_refusal(
                        e,
                        refusal,
                        run.mux,
                        packets(batch@)[run.sent as int],
                    ),
                }
            },
            final(self).buffer == old(self).buffer,
            final(self).config == old(self).config,
            final(self).outputs == old(self).outputs,
            final(self).output_avcc == old(self).output_avcc,
            final(self).output_asc == old(self).output_asc,
            final(self).baseline == old(self).baseline,
            final(self).qos == old(self).qos,
    {
        match &mut self.muxer {
            None => (Vec::new(), None),
            Some(m) => mux_all(
                m,
                self.metadata_written,
                &self.config.stream,
                config_slice(&self.avcc),
                config_slice(&self.asc),
                batch,
                &mut self.book,
            ),
        }
    }

    /// Build one `QoS` sample from the buffer, muxer, and transport counters —
    /// but only when enough time has passed since the last sample (the engine
    /// samples at most once per `QosConfig.interval`). Rate fields are deltas
    /// of the byte counters over the gap; gaps longer than [`MAX_SAMPLE_GAP`]
    /// (idle stream, reconnect) reset the baselines so an idle period can't
    /// distort the reported rate.
    fn sample_qos(&mut self, now_ns: u64, wall_ms: u64) -> (sample: Option<QosSample>)
        requires
            old(self).wf(),
        ensures
            final(self).book == old(self).book,
            final(self).wf(),
            final(self)@ == old(self)@,
            final(self).spec_config() == old(self).spec_config(),
            final(self).spec_transport() == old(self).spec_transport(),
            final(self).spec_outputs() == old(self).spec_outputs(),
            final(self).spec_media_bytes() == old(self).spec_media_bytes(),
            ({
                let due = old(self).due_sample(
                    old(self).spec_baseline(),
                    old(self)@.qos,
                    now_ns,
                    wall_ms,
                );
                match sample {
                    Some(s) => due == Some(s@) && final(self).spec_baseline() == (Baseline {
                        at: now_ns,
                        media: old(self).spec_media_bytes(),
                        wire: old(self).spec_wire_bytes(),
                    }),
                    None => due is None && final(self).spec_baseline() == old(self).spec_baseline(),
                }
            }),
    {
        let elapsed: u64 = grown(now_ns, self.baseline.at);
        if elapsed < self.config.qos.interval {
            return None;
        }
        let media: u64 = self.media_bytes();
        let wire: u64 = self.wire_bytes();
        let bitrate_out_bps: u64 = rate(media, self.baseline.media, elapsed);
        let throughput_bps: u64 = rate(wire, self.baseline.wire, elapsed);
        self.baseline = Baseline { at: now_ns, media, wire };
        Some(
            QosSample {
                wall_ms,
                uptime_ms: now_ns / 1_000_000,
                bitrate_out_bps,
                throughput_bps,
                drop_ratio: self.buffer.drop_ratio(),
                buffer_ms: self.lag(now_ns),
                buffered_count: self.buffer.len(),
                rtt_ms: self.rtt(),
                reconnects: self.qos.reconnects(),
                reconnect_attempts: self.qos.reconnect_attempts(),
                pushed: self.buffer.pushed(),
                muxed: self.muxed,
                dropped: self.buffer.dropped(),
                last_error: self.qos.last_error(),
            },
        )
    }

    fn media_bytes(&self) -> (n: u64)
        ensures
            n == self.spec_media_bytes(),
    {
        match &self.muxer {
            Some(m) => m.bytes_written(),
            None => 0,
        }
    }

    fn wire_bytes(&self) -> (n: u64)
        ensures
            n == self.spec_wire_bytes(),
    {
        match &self.muxer {
            Some(m) => m.sink().bytes_written(),
            None => 0,
        }
    }

    fn rtt(&self) -> (ms: Option<u64>)
        ensures
            ms == self.spec_rtt(),
    {
        match &self.muxer {
            Some(m) => match m.sink().rtt() {
                Some(ns) => Some(in_millis(ns)),
                None => None,
            },
            None => None,
        }
    }

    fn lag(&self, now_ns: u64) -> (ms: i64)
        ensures
            ms == self.lag_at(now_ns),
    {
        match self.buffer.last() {
            Some(p) => {
                assert(packets(self.buffer@).last() == self.buffer@.last()@);
                latency((now_ns / 1_000_000) as i64, p.pts)
            },
            None => 0,
        }
    }

    /// Hand back everything that didn't reach the wire.
    fn hand_back(&mut self, unsent: Vec<MediaPacket>)
        requires
            old(self).buffer@.len() == 0,
        ensures
            final(self).book == old(self).book,
            packets(final(self).buffer@) == packets(unsent@),
            final(self).buffer.spec_pushed() == old(self).buffer.spec_pushed(),
            final(self).buffer.spec_dropped() == old(self).buffer.spec_dropped(),
            final(self).buffer.spec_capacity() == old(self).buffer.spec_capacity(),
            final(self).muxer == old(self).muxer,
            final(self).metadata_written == old(self).metadata_written,
            final(self).muxed == old(self).muxed,
            final(self).avcc == old(self).avcc,
            final(self).asc == old(self).asc,
            final(self).timebase == old(self).timebase,
            final(self).awaiting_keyframe == old(self).awaiting_keyframe,
            final(self).config == old(self).config,
            final(self).outputs == old(self).outputs,
            final(self).output_avcc == old(self).output_avcc,
            final(self).output_asc == old(self).output_asc,
            final(self).baseline == old(self).baseline,
            final(self).qos == old(self).qos,
    {
        let ghost back = unsent@;
        self.buffer.restore_front(unsent);
        assert(self.buffer@ =~= back);
    }

    /// Hand every packet that reached the wire to the packet-level outputs
    /// (recording, HLS), as it did so. They learn about sniffed or changed
    /// configs first.
    fn show_outputs(
        &mut self,
        sent: Vec<MediaPacket>,
        times: &Vec<(i64, i64)>,
        Ghost(to): Ghost<Seq<PacketView>>,
    )
        requires
            old(self)@.mux is Some,
            sent@.len() == times@.len(),
            times_of(times@, to),
            forall|i: int|
                0 <= i < to.len() ==> #[trigger] to[i] == (PacketView {
                    dts: to[i].dts,
                    pts: to[i].pts,
                    ..sent@[i]@
                }),
        ensures
            ({
                let v = old(self)@;
                let avcc = harvested(v.avcc, v.mux->0.avcc);
                let asc = harvested(v.asc, v.mux->0.asc);
                &&& final(self)@ == (EngineView { avcc, asc, told: (avcc, asc), ..v })
                &&& fed_all(
                    old(self).informed(avcc, asc),
                    calls_of(final(self).spec_outputs()),
                    to,
                )
            }),
            final(self).spec_outputs().len() <= old(self).spec_outputs().len(),
            reported(
                old(self).spec_book(),
                final(self).spec_book(),
                "output retired"@,
                (old(self).spec_outputs().len() - final(self).spec_outputs().len()) as nat,
            ),
            final(self).config == old(self).config,
            final(self).buffer == old(self).buffer,
            final(self).muxer == old(self).muxer,
            final(self).baseline == old(self).baseline,
            final(self).qos == old(self).qos,
    {
        self.harvest();
        self.sync_output_codecs();
        let mut sent = sent;
        let n: usize = sent.len();
        stamp(&mut sent, times, Ghost(to));
        feed_batch(&mut self.outputs, &sent, n, &mut self.book);
        assert(packets(sent@).take(n as int) =~= to);
    }

    /// Push codec-config updates to every output whenever the in-force configs
    /// changed (explicit `configure_codecs`, or sniffed out of the media).
    fn sync_output_codecs(&mut self)
        ensures
            ({
                let v = old(self)@;
                let changed = v.told != (v.avcc, v.asc);
                &&& final(self)@ == (EngineView { told: (v.avcc, v.asc), ..v })
                &&& calls_of(final(self).spec_outputs()) == if changed {
                    told_codecs(calls_of(old(self).spec_outputs()), v.avcc, v.asc)
                } else {
                    calls_of(old(self).spec_outputs())
                }
            }),
            final(self).spec_outputs().len() == old(self).spec_outputs().len(),
            final(self).book == old(self).book,
            final(self).config == old(self).config,
            final(self).buffer == old(self).buffer,
            final(self).muxer == old(self).muxer,
            final(self).baseline == old(self).baseline,
            final(self).qos == old(self).qos,
    {
        if same_config(&self.output_avcc, &self.avcc) && same_config(
            &self.output_asc,
            &self.asc,
        ) {
            return ;
        }
        self.output_avcc = copy_config(&self.avcc);
        self.output_asc = copy_config(&self.asc);
        tell_codecs(&mut self.outputs, config_slice(&self.avcc), config_slice(&self.asc));
        assert(calls_of(self.outputs@).len() == calls_of(old(self).outputs@).len());
    }

    /// Harvest configs the muxer sniffed out of the packets themselves, so a
    /// later reconnect can re-emit them even when the platform never handed
    /// them over explicitly.
    fn harvest(&mut self)
        requires
            old(self)@.mux is Some,
        ensures
            final(self).book == old(self).book,
            final(self)@ == (EngineView {
                avcc: harvested(old(self)@.avcc, old(self)@.mux->0.avcc),
                asc: harvested(old(self)@.asc, old(self)@.mux->0.asc),
                ..old(self)@
            }),
            final(self).buffer == old(self).buffer,
            final(self).muxer == old(self).muxer,
            final(self).config == old(self).config,
            final(self).outputs == old(self).outputs,
            final(self).output_avcc == old(self).output_avcc,
            final(self).output_asc == old(self).output_asc,
            final(self).baseline == old(self).baseline,
            final(self).qos == old(self).qos,
    {
        if let Some(m) = &self.muxer {
            if self.avcc.is_none() {
                self.avcc = match m.video_config() {
                    Some(c) => Some(bytes::copy_of(c)),
                    None => None,
                };
            }
            if self.asc.is_none() {
                self.asc = match m.audio_config() {
                    Some(c) => Some(bytes::copy_of(c)),
                    None => None,
                };
            }
        }
    }

    /// The muxer once metadata and sequence headers are out.
    pub open spec fn opened(&self) -> MuxView {
        opening(
            self@.mux->0,
            self@.described,
            self.spec_config().stream,
            self@.avcc,
            self@.asc,
        ).0
    }

    /// True if a write failed while this engine published `batch`, with `sent`
    /// packets on the wire, and left it as `next`: in what goes before the media,
    /// in the next packet, or in passing on what was held back.
    pub open spec fn stopped(&self, next: &Self, batch: Seq<PacketView>, sent: nat) -> bool {
        publish_broke(
            self@.mux->0,
            next@.mux->0,
            self@.described,
            self.spec_config().stream,
            (self@.avcc, self@.asc),
            batch,
            sent,
            self.spec_transport()->0.written(),
            next.spec_transport()->0.written(),
        )
    }

    /// Where a publish stopped, the stream has come as far as what was sent.
    proof fn lemma_stopped_time(&self, next: &Self, batch: Seq<PacketView>, sent: nat)
        requires
            self.stopped(next, batch, sent),
        ensures
            same_time(
                mux_run(self.opened(), batch.take(sent as int), true).mux,
                packet_after(batch, sent as int),
                next@.mux->0,
            ),
    {
        reveal(publish_broke);
        let m = self.opened();
        let run = mux_run(m, batch.take(sent as int), true);
        let s = next@.mux->0;
        if sent < batch.len() && exists|out: Seq<u8>| #[trigger]
            muxing_breaks(run.mux, batch[sent as int], true, out, s) {
            let out = choose|out: Seq<u8>| #[trigger]
                muxing_breaks(run.mux, batch[sent as int], true, out, s);
            broken_recordings_keep_their_time(run.mux, batch[sent as int], out, s);
        } else if sent == 0 {
            assert(batch.take(0) =~= Seq::<PacketView>::empty());
        }
    }

    /// The calls the outputs have had once they know the configurations that
    /// are in force.
    pub open spec fn informed(
        &self,
        avcc: Option<Seq<u8>>,
        asc: Option<Seq<u8>>,
    ) -> Seq<Seq<SinkCall>> {
        if self@.told != (avcc, asc) {
            told_codecs(calls_of(self.spec_outputs()), avcc, asc)
        } else {
            calls_of(self.spec_outputs())
        }
    }

    /// What a tick makes of the engine, given how many packets reached the wire
    /// and whether all went well; `next` is the engine behind it, before
    /// sampling. Whatever the transport did, every packet of the batch either
    /// reached the wire or is back in the buffer, in order; the timebase is the
    /// one that the packets on the wire have come to; and the outputs know
    /// the configurations before they get what reached the wire, with the
    /// timestamps that it had there.
    pub open spec fn ticked(&self, next: &Self, sent: nat, ok: bool) -> bool {
        let v = self@;
        let batch = v.batch();
        let w = next@;
        &&& sent <= batch.len()
        &&& ok ==> sent == batch.len()
        &&& w.mux is Some
        &&& same_time(
            mux_run(self.opened(), batch.take(sent as int), true).mux,
            packet_after(batch, sent as int),
            w.mux->0,
        )
        &&& w == (EngineView {
            buffer: batch.skip(sent as int),
            muxed: v.muxed + sent,
            mux: w.mux,
            described: v.described || ok,
            avcc: harvested(v.avcc, w.mux->0.avcc),
            asc: harvested(v.asc, w.mux->0.asc),
            told: (w.avcc, w.asc),
            qos: w.qos,
            ..v.drained()
        })
        &&& fed_all(
            self.informed(w.avcc, w.asc),
            calls_of(next.spec_outputs()),
            stamped_run(self.opened(), batch.take(sent as int), true),
        )
    }

    /// True if the records of a tick that returned `r` are told: `a` is the book
    /// once everything is muxed, `b` once the outputs have been fed.
    pub open spec fn recounted(
        &self,
        next: &Self,
        a: BookView,
        b: BookView,
        r: Result<usize, EngineError>,
    ) -> bool {
        &&& self.spec_book().grown(a)
        &&& r is Ok ==> a == run_notes(self.spec_book(), self.opened(), self@.batch(), true)
        &&& next.spec_outputs().len() <= self.spec_outputs().len()
        &&& reported(
            a,
            b,
            "output retired"@,
            (self.spec_outputs().len() - next.spec_outputs().len()) as nat,
        )
        &&& next.spec_book() == match r {
            Err(EngineError::Mux(e)) => b.failed(
                Level::Error,
                "stream::engine"@,
                "mux failed"@,
                error_text(e),
            ),
            _ => b,
        }
    }

    /// True if the records of a tick that returned `r` are told.
    #[verifier::opaque]
    pub open spec fn tick_recorded(&self, next: &Self, r: Result<usize, EngineError>) -> bool {
        exists|a: BookView, b: BookView| #[trigger] self.recounted(next, a, b, r)
    }

    proof fn lemma_tick_recorded(
        &self,
        next: &Self,
        a: BookView,
        b: BookView,
        r: Result<usize, EngineError>,
    )
        requires
            self.recounted(next, a, b, r),
        ensures
            self.tick_recorded(next, r),
    {
        reveal(Engine::tick_recorded);
    }

    /// True if `next` is this engine behind a tick at `now_ns` (`wall_ms` on the
    /// wall clock) that returned `r`.
    pub open spec fn stepped(
        &self,
        next: &Self,
        now_ns: u64,
        wall_ms: u64,
        r: Result<usize, EngineError>,
    ) -> bool {
        let v = self@;
        let w = next@;
        &&& next.spec_config() == self.spec_config()
        // No transport yet: the buffer is left untouched, so a later attach
        // doesn't find it already drained.
        &&& v.mux is None ==> r == Ok::<usize, EngineError>(0) && w == v && self.beside(next)
            && next.spec_book() == self.spec_book()
        // A transport that fails its health check fails the tick, and nothing
        // has been drained or written.
        &&& r matches Err(EngineError::Transport(_)) ==> {
            &&& !self.steady()
            &&& w == v
            &&& next.spec_outputs() == self.spec_outputs()
            &&& next.spec_transport()->0.written() == self.spec_transport()->0.written()
            &&& next.spec_media_bytes() == self.spec_media_bytes()
            &&& next.spec_baseline() == self.spec_baseline()
            &&& next.spec_book() == self.spec_book()
        }
        // The records: the jumps of the clock, the outputs that were retired,
        // and the failure.
        &&& v.mux is Some && !(r matches Err(EngineError::Transport(_))) ==> self.tick_recorded(
            next,
            r,
        )
        &&& v.mux is Some && !(r matches Err(EngineError::Transport(_))) ==> {
            let sent = (w.muxed - v.muxed) as nat;
            &&& self.ticked(next, sent, r is Ok)
            &&& r matches Ok(n) ==> n == sent
            &&& next.sampled(self, now_ns, wall_ms)
        }
        // A write that failed: what was muxed before it counts, and no more.
        &&& r matches Err(EngineError::Mux(MuxError::Io(_))) ==> !self.steady() && self.stopped(
            next,
            v.batch(),
            (w.muxed - v.muxed) as nat,
        )
        // Otherwise everything is muxed, up to the first packet that is
        // refused.
        &&& v.mux is Some && !(r matches Err(EngineError::Transport(_))) && !(r matches Err(
            EngineError::Mux(MuxError::Io(_)),
        )) ==> {
            let (m, out) = opening(
                v.mux->0,
                v.described,
                self.spec_config().stream,
                v.avcc,
                v.asc,
            );
            let run = mux_run(m, v.batch(), true);
            &&& self.steady() ==> next.steady()
            &&& w.mux == Some(run.mux)
            &&& next.spec_transport()->0.written() == self.spec_transport()->0.written() + (out
                + run.out)
            &&& next.spec_media_bytes() == (self.spec_media_bytes() + (out + run.out).len())
                % 0x1_0000_0000_0000_0000
            &&& w.muxed == v.muxed + run.sent
            &&& match run.refusal {
                None => r is Ok,
                Some(refusal) => r matches Err(EngineError::Mux(e)) && reports_refusal(
                    e,
                    refusal,
                    run.mux,
                    v.batch()[run.sent as int],
                ),
            }
        }
    }

    /// Take a sample, if one is due.
    fn take_sample(&mut self, now_ns: u64, wall_ms: u64)
        requires
            old(self).wf(),
        ensures
            final(self).wf(),
            final(self).book == old(self).book,
            final(self)@ == (EngineView { qos: final(self)@.qos, ..old(self)@ }),
            final(self).spec_config() == old(self).spec_config(),
            final(self).spec_transport() == old(self).spec_transport(),
            final(self).spec_outputs() == old(self).spec_outputs(),
            final(self).spec_media_bytes() == old(self).spec_media_bytes(),
            final(self).sampled(old(self), now_ns, wall_ms),
    {
        let ghost ready = *self;
        let sample: Option<QosSample> = self.sample_qos(now_ns, wall_ms);
        if let Some(s) = sample {
            self.qos.emit_sample(s);
        }
        proof {
            let due = ready.due_sample(ready.spec_baseline(), ready@.qos, now_ns, wall_ms);
            assert(self.due_sample(ready.spec_baseline(), ready@.qos, now_ns, wall_ms) == due);
        }
    }

    /// A tick at `given`, or at the time it is when everything is muxed; gives
    /// that time too.
    #[verifier::rlimit(80)]
    pub(crate) fn tick_in(&mut self, given: Option<Moment>) -> (r: (
        Result<usize, EngineError>,
        Moment,
    ))
        requires
            old(self).wf(),
        ensures
            final(self).wf(),
            old(self).stepped(final(self), r.1.now_ns, r.1.wall_ms, r.0),
            given matches Some(at) ==> r.1 == at,
    {
        if self.muxer.is_none() {
            return (Ok(0), self.moment(given));
        }
        if let Err(e) = self.maintain_transport() {
            return (Err(EngineError::Transport(e)), self.moment(given));
        }
        let ghost before = *self;
        proof {
            batches_are_in_decode_order(
                crate::batch::passed(before@.buffer, before@.awaiting),
            );
        }
        let batch: Vec<MediaPacket> = drain(&mut self.buffer, &mut self.awaiting_keyframe);
        let ghost all = packets(batch@);
        assert(self@ =~= before@.drained());
        let ghost drained = *self;
        let (times, failure): (Vec<(i64, i64)>, Option<MuxError>) = self.publish(&batch);
        let ghost published = *self;
        let sent: usize = times.len();
        let mut batch = batch;
        let unsent: Vec<MediaPacket> = batch.split_off(sent);
        let ghost to = stamped_run(before.opened(), all.take(sent as int), true);
        proof {
            lemma_stamped_len(before.opened(), all.take(sent as int), true);
            assert forall|i: int| 0 <= i < to.len() implies #[trigger] to[i] == (PacketView {
                dts: to[i].dts,
                pts: to[i].pts,
                ..batch@[i]@
            }) by {
                lemma_stamped_rest(before.opened(), all.take(sent as int), true, i);
            }
            assert(packets(unsent@) =~= all.skip(sent as int));
        }
        self.show_outputs(batch, &times, Ghost(to));
        let ghost shown = self.spec_book();
        self.hand_back(unsent);
        self.muxed = self.muxed + sent as u64;
        let outcome: Result<usize, EngineError> = match failure {
            None => {
                self.metadata_written = true;
                Ok(sent)
            },
            Some(e) => {
                let text: String = e.message();
                self.book.fail(Level::Error, "stream::engine", "mux failed", text.as_str());
                Err(EngineError::Mux(e))
            },
        };
        let ghost ready = *self;
        assert(old(self).ticked(&ready, sent as nat, outcome is Ok));
        let at: Moment = self.moment(given);
        self.take_sample(at.now_ns, at.wall_ms);
        proof {
            assert(self@ == (EngineView { qos: self@.qos, ..ready@ }));
            assert(old(self).ticked(self, sent as nat, outcome is Ok));
            assert(self.sampled(old(self), at.now_ns, at.wall_ms));
            old(self).lemma_tick_recorded(self, published.spec_book(), shown, outcome);
        }
        (outcome, at)
    }

    fn moment(&self, given: Option<Moment>) -> (at: Moment)
        ensures
            given matches Some(m) ==> at == m,
    {
        match given {
            Some(m) => m,
            None => Moment::read(&self.clock),
        }
    }

    /// Drain as much as is buffered, muxing each packet into the transport.
    /// Returns how many packets were written this call. `now_ns` is the time on
    /// the engine's clock, `wall_ms` the wall-clock time.
    ///
    /// On a transport failure mid-batch the packets that did *not* make it are
    /// handed back to the front of the buffer, so a reconnect resumes with
    /// them (the session then cuts to the newest keyframe among them).
    pub fn tick_at(&mut self, now_ns: u64, wall_ms: u64) -> (r: Result<usize, EngineError>)
        requires
            old(self).wf(),
        ensures
            final(self).wf(),
            old(self).stepped(final(self), now_ns, wall_ms, r),
    {
        self.tick_in(Some(Moment { now_ns, wall_ms })).0
    }

    /// [`Engine::tick_at`] with the times of the moment when everything is muxed.
    pub fn tick(&mut self) -> (r: Result<usize, EngineError>)
        requires
            old(self).wf(),
        ensures
            final(self).wf(),
            exists|now_ns: u64, wall_ms: u64| #[trigger]
                old(self).stepped(final(self), now_ns, wall_ms, r),
    {
        let (r, at): (Result<usize, EngineError>, Moment) = self.tick_in(None);
        assert(old(self).stepped(self, at.now_ns, at.wall_ms, r));
        r
    }

    /// True if the records of an end are told, where everything was muxed if
    /// `muxed` and the end was clean if `clean`; `fed` is the book once the
    /// outputs have been fed.
    pub open spec fn told_of(&self, next: &Self, fed: BookView, muxed: bool, clean: bool) -> bool {
        let over = fed.noted(
            Level::Info,
            "stream::engine"@,
            "stream finished"@,
            seq![("packets"@, FieldView::Uint(self@.batch().len() as u64))],
        );
        &&& next.spec_outputs().len() <= self.spec_outputs().len()
        &&& reported(
            self.spec_book(),
            fed,
            "output retired"@,
            (self.spec_outputs().len() - next.spec_outputs().len()) as nat,
        )
        &&& if clean {
            reported(
                over,
                next.spec_book(),
                "output finish failed"@,
                unfinished(calls_of(next.spec_outputs())),
            )
        } else if muxed {
            next.spec_book() == over
        } else {
            next.spec_book() == fed
        }
    }

    /// True if the records of an end are told.
    #[verifier::opaque]
    pub open spec fn end_recorded(&self, next: &Self, muxed: bool, clean: bool) -> bool {
        exists|fed: BookView| #[trigger] self.told_of(next, fed, muxed, clean)
    }

    proof fn lemma_end_recorded(&self, next: &Self, fed: BookView, muxed: bool, clean: bool)
        requires
            self.told_of(next, fed, muxed, clean),
        ensures
            self.end_recorded(next, muxed, clean),
    {
        reveal(Engine::end_recorded);
    }

    /// True if `next` is this engine once the stream was ended, which returned
    /// `r`.
    pub open spec fn ended(&self, next: &Self, r: Result<(), EngineError>) -> bool {
        let v = self@;
        let w = next@;
        let batch = v.batch();
        let run = mux_run(v.mux->0, batch, false);
        let calls = calls_of(next.spec_outputs());
        &&& next.spec_config() == self.spec_config()
        &&& next.spec_baseline() == self.spec_baseline()
        &&& v.mux is None ==> r is Ok && w == v && self.beside(next) && next.spec_book()
            == self.spec_book()
        // The records: the outputs that were retired; once everything is muxed,
        // the end; and the outputs that could not be finalized.
        &&& v.mux is Some ==> self.end_recorded(
            next,
            !(r matches Err(EngineError::Mux(_))),
            r is Ok,
        )
        // Whether or not the transport shuts down cleanly, it is gone once
        // everything is muxed.
        &&& v.mux is Some && !(r matches Err(EngineError::Mux(_))) ==> {
            &&& run.refusal is None
            &&& w == (EngineView {
                muxed: v.muxed + batch.len(),
                mux: None,
                avcc: harvested(v.avcc, run.mux.avcc),
                asc: harvested(v.asc, run.mux.asc),
                told: (w.avcc, w.asc),
                ..v.drained()
            })
        }
        // A clean end: every output that is left has been told.
        &&& v.mux is Some && r is Ok ==> exists|middle: Seq<Seq<SinkCall>>|
            #![trigger finished(middle, calls)]
            fed_all(self.informed(w.avcc, w.asc), middle, stamped_run(v.mux->0, batch, false))
                && finished(middle, calls)
        &&& r matches Err(EngineError::Transport(_)) ==> fed_all(
            self.informed(w.avcc, w.asc),
            calls,
            stamped_run(v.mux->0, batch, false),
        )
        // Muxing failed: the transport stays, and the outputs have had what
        // reached it.
        &&& r matches Err(EngineError::Mux(_)) ==> {
            &&& w.mux is Some
            &&& w == (EngineView {
                mux: w.mux,
                avcc: harvested(v.avcc, w.mux->0.avcc),
                asc: harvested(v.asc, w.mux->0.asc),
                told: (w.avcc, w.asc),
                ..v.drained()
            })
        }
        // A write failed: what was muxed before it has been shown, and no more.
        &&& r matches Err(EngineError::Mux(MuxError::Io(_))) ==> !self.steady() && exists|
            sent: int,
        | #[trigger]
            self.halted(next, sent) && fed_all(
                self.informed(w.avcc, w.asc),
                calls,
                stamped_run(v.mux->0, batch.take(sent), false),
            )
        // A packet was refused: everything before it is on the wire.
        &&& r matches Err(EngineError::Mux(e)) ==> e is Io || {
            &&& run.refusal is Some
            &&& reports_refusal(e, run.refusal->0, run.mux, batch[run.sent as int])
            &&& w.mux == Some(run.mux)
            &&& next.spec_transport()->0.written() == self.spec_transport()->0.written() + run.out
            &&& fed_all(
                self.informed(w.avcc, w.asc),
                calls,
                stamped_run(v.mux->0, batch.take(run.sent as int), false),
            )
        }
        &&& self.steady() ==> (r is Ok <==> v.mux is Some && run.refusal is None)
    }

    /// True if a write failed while this engine ended its stream, with `sent`
    /// packets on the wire, and left it as `next`: in the next packet, or in
    /// passing on what was held back.
    #[verifier::opaque]
    pub open spec fn halted(&self, next: &Self, sent: int) -> bool {
        let v = self@;
        let batch = v.batch();
        let run = mux_run(v.mux->0, batch.take(sent), false);
        let s = next@.mux->0;
        let before = self.spec_transport()->0.written();
        let after = next.spec_transport()->0.written();
        &&& 0 <= sent <= batch.len()
        &&& run.refusal is None
        &&& if sent < batch.len() {
            exists|out: Seq<u8>| #[trigger]
                muxing_breaks(run.mux, batch[sent], false, out, s) && (before + (run.out
                    + out)).is_prefix_of(after)
        } else {
            s == run.mux && after == before + run.out
        }
    }

    /// Drain everything and end the stream cleanly (user pressed "end").
    /// Any packets still buffered are muxed before the transport shuts down.
    #[verifier::rlimit(80)]
    pub fn finish(&mut self) -> (r: Result<(), EngineError>)
        requires
            old(self).wf(),
        ensures
            final(self).wf(),
            old(self).ended(final(self), r),
    {
        if self.muxer.is_none() {
            return Ok(());
        }
        let ghost before = *self;
        proof {
            batches_are_in_decode_order(
                crate::batch::passed(before@.buffer, before@.awaiting),
            );
        }
        let batch: Vec<MediaPacket> = drain(&mut self.buffer, &mut self.awaiting_keyframe);
        let ghost all = packets(batch@);
        assert(self@ =~= before@.drained());
        let n: usize = batch.len();
        let (times, failure): (Vec<(i64, i64)>, Option<MuxError>) = match &mut self.muxer {
            None => (Vec::new(), None),
            Some(m) => mux_batch(m, &batch, false, &mut self.book),
        };
        let sent: usize = times.len();
        let mut batch = batch;
        let _unsent: Vec<MediaPacket> = batch.split_off(sent);
        let ghost to = stamped_run(before@.mux->0, all.take(sent as int), false);
        proof {
            lemma_stamped_len(before@.mux->0, all.take(sent as int), false);
            assert forall|i: int| 0 <= i < to.len() implies #[trigger] to[i] == (PacketView {
                dts: to[i].dts,
                pts: to[i].pts,
                ..batch@[i]@
            }) by {
                lemma_stamped_rest(before@.mux->0, all.take(sent as int), false, i);
            }
        }
        self.show_outputs(batch, &times, Ghost(to));
        assert(fed_all(
            before.informed(self@.avcc, self@.asc),
            calls_of(self.spec_outputs()),
            stamped_run(before@.mux->0, all.take(sent as int), false),
        ));
        let ghost fed = self.spec_book();
        if let Some(e) = failure {
            proof {
                old(self).lemma_end_recorded(self, fed, false, false);
                if e is Io {
                    reveal(Engine::halted);
                    assert(old(self).halted(self, sent as int));
                }
            }
            return Err(EngineError::Mux(e));
        }
        assert(all.take(n as int) =~= all);
        if let Some(m) = &mut self.muxer {
            if let Err(e) = m.finish() {
                proof {
                    old(self).lemma_end_recorded(self, fed, false, false);
                    reveal(Engine::halted);
                    assert(old(self).halted(self, n as int));
                }
                return Err(EngineError::Mux(e));
            }
        }
        self.muxed = self.muxed + n as u64;
        let ghost middle = calls_of(self.outputs@);
        let r: Result<(), EngineError> = self.wind_up(n as u64);
        proof {
            old(self).lemma_end_recorded(self, fed, true, r is Ok);
            if r is Ok {
                assert(finished(middle, calls_of(self.spec_outputs())));
            }
        }
        r
    }

    /// Shut the transport down, and finalize the outputs where that went well.
    fn wind_up(&mut self, packets: u64) -> (r: Result<(), EngineError>)
        requires
            old(self).muxer is Some,
        ensures
            r matches Err(e) ==> e is Transport,
            old(self).steady() ==> r is Ok,
            final(self)@ == (EngineView { mux: None, ..old(self)@ }),
            final(self).config == old(self).config,
            final(self).baseline == old(self).baseline,
            final(self).buffer == old(self).buffer,
            final(self).qos == old(self).qos,
            final(self).spec_outputs().len() == old(self).spec_outputs().len(),
            ({
                let over = old(self).noting(
                    Level::Info,
                    "stream finished"@,
                    seq![("packets"@, FieldView::Uint(packets))],
                );
                match r {
                    Ok(()) => finished(
                        calls_of(old(self).spec_outputs()),
                        calls_of(final(self).spec_outputs()),
                    ) && reported(
                        over,
                        final(self).spec_book(),
                        "output finish failed"@,
                        unfinished(calls_of(final(self).spec_outputs())),
                    ),
                    Err(_) => final(self).spec_outputs() == old(self).spec_outputs()
                        && final(self).spec_book() == over,
                }
            }),
    {
        self.note_count(Level::Info, "stream finished", "packets", packets);
        let mut muxer: Option<FlvMuxer<W>> = None;
        std::mem::swap(&mut muxer, &mut self.muxer);
        if let Some(m) = muxer {
            let mut transport: W = m.into_inner();
            if let Err(e) = transport.shutdown() {
                return Err(EngineError::Transport(e));
            }
        }
        finish_outputs(&mut self.outputs, &mut self.book);
        proof {
            assert(calls_of(self.outputs@).len() == calls_of(old(self).outputs@).len());
        }
        Ok(())
    }

    /// Telemetry for the platform's UI, at `now_ns` on the engine's clock.
    pub fn stats_at(&self, now_ns: u64) -> (s: PacketStats)
        requires
            self.wf(),
        ensures
            s == (PacketStats {
                pushed: self@.pushed as u64,
                muxed: self@.muxed as u64,
                dropped: self@.dropped as u64,
                in_buffered_count: self@.buffer.len() as usize,
                buffer_ms: self.lag_at(now_ns) as i64,
                media_bytes: self.spec_media_bytes(),
                wire_bytes: self.spec_wire_bytes(),
                rtt_ms: self.spec_rtt(),
                reconnects: self@.qos.reconnects,
                reconnect_attempts: self@.qos.reconnect_attempts,
                uptime_ms: now_ns / 1_000_000,
            }),
            s.in_buffered_count == self@.buffer.len(),
            s.buffer_ms == self.lag_at(now_ns),
    {
        PacketStats {
            pushed: self.buffer.pushed(),
            muxed: self.muxed,
            dropped: self.buffer.dropped(),
            in_buffered_count: self.buffer.len(),
            buffer_ms: self.lag(now_ns),
            media_bytes: self.media_bytes(),
            wire_bytes: self.wire_bytes(),
            rtt_ms: self.rtt(),
            reconnects: self.qos.reconnects(),
            reconnect_attempts: self.qos.reconnect_attempts(),
            uptime_ms: now_ns / 1_000_000,
        }
    }

    /// Telemetry for the platform's UI.
    pub fn stats(&self) -> (s: PacketStats)
        requires
            self.wf(),
        ensures
            s.pushed == self@.pushed,
            s.muxed == self@.muxed,
            s.dropped == self@.dropped,
            s.in_buffered_count == self@.buffer.len(),
            s.media_bytes == self.spec_media_bytes(),
            s.wire_bytes == self.spec_wire_bytes(),
            s.rtt_ms == self.spec_rtt(),
            s.reconnects == self@.qos.reconnects,
            s.reconnect_attempts == self@.qos.reconnect_attempts,
            exists|now_ns: u64|
                s.uptime_ms == now_ns / 1_000_000 && s.buffer_ms == #[trigger] self.lag_at(now_ns),
    {
        let now_ns: u64 = self.clock.now_ns();
        let s: PacketStats = self.stats_at(now_ns);
        assert(s.uptime_ms == now_ns / 1_000_000 && s.buffer_ms == self.lag_at(now_ns));
        s
    }

    /// Nanoseconds on the engine's clock.
    pub fn now_ns(&self) -> (ns: u64) {
        self.clock.now_ns()
    }

    /// Shared `QoS` collector. The platform polls it to drive a UI.
    pub fn qos(&self) -> (qos: &Qos)
        requires
            self.wf(),
        ensures
            qos@ == self@.qos,
            qos.wf(),
    {
        &self.qos
    }

    /// Record a lifecycle event in the collector.
    pub fn record_event(&mut self, event: &QosEvent)
        requires
            old(self).wf(),
        ensures
            final(self).spec_book() == old(self).spec_book(),
            final(self).wf(),
            final(self)@ == (EngineView { qos: old(self)@.qos.with_event(event@), ..old(self)@ }),
            old(self).beside(final(self)),
    {
        self.qos.record_event(event);
    }

    /// Say whether there is a sink for samples: see [`Qos::set_sink`].
    pub fn set_sink(&mut self, installed: bool)
        requires
            old(self).wf(),
        ensures
            final(self).spec_book() == old(self).spec_book(),
            final(self).wf(),
            final(self)@ == (EngineView {
                qos: QosView { sink: installed, ..old(self)@.qos },
                ..old(self)@
            }),
            old(self).beside(final(self)),
    {
        self.qos.set_sink(installed);
    }

    /// Say whether there is a sink for events: see [`Qos::set_event_sink`].
    pub fn set_event_sink(&mut self, installed: bool)
        requires
            old(self).wf(),
        ensures
            final(self).spec_book() == old(self).spec_book(),
            final(self).wf(),
            final(self)@ == (EngineView {
                qos: QosView { event_sink: installed, ..old(self)@.qos },
                ..old(self)@
            }),
            old(self).beside(final(self)),
    {
        self.qos.set_event_sink(installed);
    }

    /// The samples to deliver to the sink, in the order in which they came.
    pub fn take_samples(&mut self) -> (samples: Vec<QosSample>)
        requires
            old(self).wf(),
        ensures
            final(self).spec_book() == old(self).spec_book(),
            final(self).wf(),
            sample_views(samples@) == old(self)@.qos.undelivered,
            final(self)@ == (EngineView {
                qos: QosView { undelivered: Seq::empty(), ..old(self)@.qos },
                ..old(self)@
            }),
            old(self).beside(final(self)),
    {
        self.qos.take_samples()
    }

    /// The events to deliver to the sink, in the order in which they came.
    pub fn take_events(&mut self) -> (events: Vec<QosEvent>)
        requires
            old(self).wf(),
        ensures
            final(self).spec_book() == old(self).spec_book(),
            final(self).wf(),
            event_views(events@) == old(self)@.qos.undelivered_events,
            final(self)@ == (EngineView {
                qos: QosView { undelivered_events: Seq::empty(), ..old(self)@.qos },
                ..old(self)@
            }),
            old(self).beside(final(self)),
    {
        self.qos.take_events()
    }

    /// Number of reconnects the session layer has performed on this engine.
    pub fn reconnects(&self) -> (n: u64)
        ensures
            n == self@.qos.reconnects,
    {
        self.qos.reconnects()
    }

    /// Most recent fatal transport failure, if any, as recorded by the last
    /// reconnect. Cleared by [`Engine::reset`].
    pub fn last_error(&self) -> (error: Option<String>)
        ensures
            opt_text(error) == self@.qos.last_error,
    {
        self.qos.last_error()
    }

    /// When badly behind, discard everything before the newest keyframe so the
    /// next `tick` resumes from a clean decode point. Returns how many packets
    /// were discarded.
    pub fn resync(&mut self) -> (discarded: u64)
        requires
            old(self).wf(),
        ensures
            final(self).spec_book() == old(self).spec_book(),
            final(self).wf(),
            discarded == stale(old(self)@.buffer),
            final(self)@ == (EngineView {
                buffer: cut(old(self)@.buffer),
                dropped: (old(self)@.dropped + discarded) as nat,
                ..old(self)@
            }),
            old(self).beside(final(self)),
    {
        cut_to_keyframe(&mut self.buffer)
    }

    /// Discard everything that is buffered. Returns how many packets that was.
    pub fn discard(&mut self) -> (discarded: u64)
        requires
            old(self).wf(),
        ensures
            final(self).spec_book() == old(self).spec_book(),
            final(self).wf(),
            discarded == old(self)@.buffer.len(),
            final(self)@ == (EngineView {
                buffer: Seq::empty(),
                dropped: old(self)@.dropped + old(self)@.buffer.len(),
                ..old(self)@
            }),
            old(self).beside(final(self)),
    {
        let discarded: u64 = discard_all(&mut self.buffer);
        assert(packets(self.buffer@) =~= Seq::<PacketView>::empty());
        discarded
    }

    /// Reset to a fresh state (new session / stream key).
    pub fn reset(&mut self)
        requires
            old(self).wf(),
        ensures
            final(self).wf(),
            final(self).spec_transport() is None,
            final(self).spec_config() == old(self).spec_config(),
            final(self).spec_outputs() == old(self).spec_outputs(),
            final(self).spec_media_bytes() == 0,
            final(self).spec_baseline().media == 0,
            final(self).spec_baseline().wire == 0,
            final(self)@ == EngineView::cleared(old(self)@.qos.cleared()),
            final(self).spec_book() == old(self).noting(
                Level::Info,
                "engine reset"@,
                Seq::empty(),
            ),
    {
        self.book.mark(Level::Info, "stream::engine", "engine reset");
        self.buffer = BoundedBuffer::new(self.config.profile.packet_budget());
        self.metadata_written = false;
        self.muxed = 0;
        self.muxer = None;
        self.avcc = None;
        self.asc = None;
        self.timebase = None;
        self.awaiting_keyframe = false;
        self.qos.reset();
        self.baseline = Baseline { at: self.clock.now_ns(), media: 0, wire: 0 };
        // Outputs stay attached (a recorder keeps its file open); only the
        // config-tracking snapshot resets along with everything else.
        self.output_avcc = None;
        self.output_asc = None;
        assert(self@.buffer =~= Seq::<PacketView>::empty());
    }
}

} // verus!
