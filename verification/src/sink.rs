//! Packet-level outputs — the fan-out side of the pipeline.
//!
//! The engine's primary path muxes packets into FLV for the attached transport
//! (the publish path). Some destinations want *packets*, not FLV bytes:
//!
//! - a **recording** must stay one contiguous file even when the publish
//!   connection drops and the primary muxer re-emits FLV headers mid-stream;
//! - an **HLS segmenter** re-packages into fMP4 segments, a different container
//!   altogether.
//!
//! Both are [`PacketSink`]s. The engine feeds them every packet that made it to
//! the wire (so a failed batch that goes back to the buffer is never
//! double-fed) plus codec configs whenever they change. A sink that errors is
//! retired, never taking the primary stream down with it.

use vstd::prelude::*;

use crate::bytes;
use crate::flv::{lemma_tags_concat, tags_bytes, TagView};
use crate::io::{IoError, IoErrorKind, Sink};
use crate::models::{MediaPacket, PacketView, StreamConfig};
use crate::mux::{
    clamp_i64, error_text, flv_ts, lemma_advanced, lemma_broke_off, missing_config, opt_slice,
    reports_refusal, FlvMuxer, MuxError, MuxView, Refusal,
};
use crate::mux_laws::{in_order, lemma_in_order_concat, packets_keep_order};
use crate::telemetry::{entry_views, BookView, Entry, Level, LogBook};
use crate::transport::Transport;

verus! {

/// One call of a packet sink, and whether it succeeded.
#[verifier::ext_equal]
pub enum SinkCall {
    /// A codec configuration update: AVCC and ASC.
    Codecs(Option<Seq<u8>>, Option<Seq<u8>>),
    /// A packet.
    Packet(PacketView, bool),
    /// The end of the stream.
    Finish(bool),
}

/// A destination for media packets leaving the engine buffer.
///
/// All methods are called sequentially, never concurrently.
pub trait PacketSink: Sized {
    /// The calls so far. Unknown of an implementation that does not say.
    open spec fn calls(&self) -> Seq<SinkCall> {
        arbitrary()
    }

    /// Codec configuration update. Called whenever the engine's AVCC (H.264
    /// decoder configuration record) or ASC (AAC `AudioSpecificConfig`)
    /// changes, and always before the first packet that needs it. Either
    /// argument may be `None` when that track is absent.
    fn codecs(&mut self, avcc: Option<&[u8]>, asc: Option<&[u8]>)
        ensures
            final(self).calls() == old(self).calls().push(
                SinkCall::Codecs(opt_slice(avcc), opt_slice(asc)),
            ),
    ;

    /// Consume one packet. Packets arrive in mux order exactly as the primary
    /// transport received them. Returning `Err` retires this sink (it will
    /// receive no further calls).
    fn packet(&mut self, pkt: &MediaPacket) -> (r: Result<(), IoError>)
        ensures
            final(self).calls() == old(self).calls().push(SinkCall::Packet(pkt@, r is Ok)),
    ;

    /// The stream finished: flush and finalize any container state (close the
    /// recording, emit the final playlist with its end marker).
    fn finish(&mut self) -> (r: Result<(), IoError>)
        ensures
            final(self).calls() == old(self).calls().push(SinkCall::Finish(r is Ok)),
    ;
}

/// What a recording has written, as far as it matters for what comes next.
#[verifier::ext_equal]
pub struct RecordingView {
    /// The muxer's state.
    pub mux: MuxView,
    /// The `onMetaData` tag is out.
    pub described: bool,
    /// The recording is closed.
    pub finished: bool,
}

impl RecordingView {
    /// The muxer's state once the metadata is out.
    pub open spec fn ready(self) -> MuxView {
        if self.described {
            self.mux
        } else {
            self.mux.begun()
        }
    }

    /// The FLV header and the metadata tag, as far as they are still due.
    pub open spec fn opening(self, config: StreamConfig) -> Seq<u8> {
        if self.described {
            Seq::empty()
        } else {
            self.mux.preamble() + tags_bytes(self.mux.metadata_tags(config))
        }
    }
}

/// The muxer's state behind `p`: a packet from behind the tolerance moves the
/// timebase first, so that a capture-clock jump does not end the recording.
pub open spec fn recorded(m: MuxView, p: PacketView) -> MuxView {
    if m.refusal(p) == Some(Refusal::Backwards) {
        m.with_packet(p).rebased(p.dts).with_packet(p)
    } else {
        m.with_packet(p)
    }
}

/// The tags that go out for `p`.
pub open spec fn recorded_tags(m: MuxView, p: PacketView) -> Seq<TagView> {
    if m.refusal(p) == Some(Refusal::Backwards) {
        m.packet_tags(p) + m.with_packet(p).rebased(p.dts).packet_tags(p)
    } else {
        m.packet_tags(p)
    }
}

/// Why `p` is not recorded, if it is not.
pub open spec fn recording_refusal(m: MuxView, p: PacketView) -> Option<Refusal> {
    if m.refusal(p) == Some(Refusal::Backwards) {
        m.with_packet(p).rebased(p.dts).refusal(p)
    } else {
        m.refusal(p)
    }
}

/// True if recording `p` can break off in state `s`, with `out` gone out whole:
/// as any muxing can, or behind a move of the timebase.
pub open spec fn recording_breaks(m: MuxView, p: PacketView, out: Seq<u8>, s: MuxView) -> bool {
    let moved = m.with_packet(p).rebased(p.dts);
    ||| m.packet_breaks(p, out, s)
    ||| m.refusal(p) == Some(Refusal::Backwards) && moved.refusal(p) is None && out
        == m.preamble() + tags_bytes(m.packet_tags(p)) && s == moved.timed(p)
}

/// Where recording a packet breaks off, no time counts as reached that was not.
pub proof fn broken_recordings_keep_their_time(m: MuxView, p: PacketView, out: Seq<u8>, s: MuxView)
    requires
        recording_breaks(m, p, out, s),
    ensures
        s.last_dts == m.last_dts,
        s.origin == m.origin || s.origin == Some(m.origin_for(p)) || s.origin == Some(
            clamp_i64(p.dts - m.header_ts()),
        ),
        s.avcc == m.avcc || (p.kind is Video && s.avcc == MuxView::config_in(p)),
        s.asc == m.asc || (p.kind is Audio && s.asc == MuxView::config_in(p)),
{
}

/// A recording's timestamps never go back, even where the capture clock does.
pub proof fn recordings_keep_order(m: MuxView, p: PacketView)
    ensures
        in_order(
            recorded_tags(m, p),
            flv_ts(m.header_ts()),
            flv_ts(recorded(m, p).header_ts()),
        ),
{
    packets_keep_order(m, p);
    if m.refusal(p) == Some(Refusal::Backwards) {
        let moved = m.with_packet(p).rebased(p.dts);
        packets_keep_order(moved, p);
        lemma_in_order_concat(
            m.packet_tags(p),
            moved.packet_tags(p),
            flv_ts(m.header_ts()),
            flv_ts(moved.header_ts()),
            flv_ts(moved.with_packet(p).header_ts()),
        );
    }
}

/// A packet that only its time speaks against is recorded: the timebase moves
/// and it goes out at the point the recording has reached. (The distance to
/// that point must fit the clock.)
pub proof fn clock_jumps_are_recorded(m: MuxView, p: PacketView)
    requires
        m.refusal(p) == Some(Refusal::Backwards),
        i64::MIN <= m.last_dts <= i64::MAX,
        i64::MIN <= p.dts - m.header_ts() <= i64::MAX,
    ensures
        recording_refusal(m, p) is None,
        recorded(m, p).header_ts() == m.header_ts(),
{
}

/// Write a packet; where the capture clock jumped backwards beyond tolerance
/// (platform clock reset, encoder restart), re-anchor the timebase and go on
/// rather than taking the stream down over a timestamp hiccup. `rebased` says
/// whether that was so.
pub fn write_rebasing<W: Sink>(
    muxer: &mut FlvMuxer<W>,
    pkt: &MediaPacket,
    rebased: &mut bool,
) -> (r: Result<(), MuxError>)
    ensures
        *final(rebased) ==> old(muxer)@.refusal(pkt@) == Some(Refusal::Backwards),
        !(r matches Err(MuxError::Io(_))) ==> *final(rebased) == (old(muxer)@.refusal(pkt@) == Some(
            Refusal::Backwards,
        )),
        !(r matches Err(MuxError::Io(_))) ==> old(muxer).advanced(
            final(muxer),
            old(muxer)@.preamble() + tags_bytes(recorded_tags(old(muxer)@, pkt@)),
            recorded(old(muxer)@, pkt@),
        ),
        match r {
            Ok(()) => recording_refusal(old(muxer)@, pkt@) is None,
            Err(MuxError::Io(_)) => !old(muxer).steady() && exists|out: Seq<u8>| #[trigger]
                recording_breaks(old(muxer)@, pkt@, out, final(muxer)@) && old(muxer).broke_off(
                    final(muxer),
                    out,
                    final(muxer)@,
                ),
            Err(MuxError::Config(m)) => (recording_refusal(old(muxer)@, pkt@) == Some(
                Refusal::NoVideoConfig,
            ) || recording_refusal(old(muxer)@, pkt@) == Some(Refusal::NoAudioConfig)) && m@
                == missing_config(pkt.kind),
            Err(MuxError::OutOfOrder(step)) => recording_refusal(old(muxer)@, pkt@) == Some(
                Refusal::Backwards,
            ) && step.from == recorded(old(muxer)@, pkt@).last_dts && step.to == recorded(
                old(muxer)@,
                pkt@,
            ).relative_dts(pkt@),
        },
        old(muxer).spec_sink().written().is_prefix_of(final(muxer).spec_sink().written()),
{
    let ghost m = muxer@;
    let ghost ready = *muxer;
    *rebased = false;
    match muxer.write_packet(pkt) {
        Ok(()) => Ok(()),
        Err(MuxError::OutOfOrder(_)) => {
            *rebased = true;
            muxer.rebase(pkt.dts);
            let ghost moved = *muxer;
            let r = muxer.write_packet(pkt);
            proof {
                let next = m.with_packet(pkt@).rebased(pkt@.dts);
                let first = tags_bytes(m.packet_tags(pkt@));
                let second = tags_bytes(next.packet_tags(pkt@));
                lemma_tags_concat(m.packet_tags(pkt@), next.packet_tags(pkt@));
                assert(Seq::<u8>::empty() + second =~= second);
                assert(ready.advanced(&moved, m.preamble() + first, moved@));
                let w = ready.spec_sink().written();
                assert(w =~= muxer.spec_sink().written().subrange(0, w.len() as int));
                if !(r matches Err(MuxError::Io(_))) {
                    assert(moved.advanced(muxer, second, muxer@));
                    lemma_advanced(
                        &ready,
                        &moved,
                        muxer,
                        m.preamble() + first,
                        second,
                        moved@,
                        muxer@,
                    );
                    bytes::lemma_concat(m.preamble(), first, second);
                } else {
                    let out = choose|out: Seq<u8>| #[trigger]
                        next.packet_breaks(pkt@, out, muxer@) && moved.broke_off(
                            muxer,
                            out,
                            muxer@,
                        );
                    let whole = m.preamble() + first;
                    lemma_broke_off(&ready, &moved, muxer, whole, out, moved@, muxer@);
                    assert(tags_bytes(Seq::<TagView>::empty()) =~= Seq::<u8>::empty());
                    assert(out =~= Seq::<u8>::empty());
                    assert(whole + out =~= whole);
                    assert(recording_breaks(m, pkt@, whole, muxer@));
                }
            }
            r
        },
        Err(e) => {
            proof {
                if e is Io {
                    let out = choose|out: Seq<u8>| #[trigger]
                        m.packet_breaks(pkt@, out, muxer@) && ready.broke_off(muxer, out, muxer@);
                    assert(recording_breaks(m, pkt@, out, muxer@));
                }
            }
            Err(e)
        },
    }
}

/// Records the stream to FLV while live publishing continues on the primary
/// transport — the classic "record the broadcast" feature.
///
/// Unlike a byte-level tee of the FLV stream, this recorder owns its own muxer
/// with its own timebase, so reconnects on the publish path (which re-emit FLV
/// headers and may cut back to a keyframe) never corrupt the recording: the
/// file gets exactly one header, one metadata tag, and a continuous monotonic
/// timestamp series for the whole session.
pub struct RecordingOutput<W: Transport> {
    muxer: FlvMuxer<W>,
    metadata: StreamConfig,
    metadata_written: bool,
    finished: bool,
    log: Ghost<Seq<SinkCall>>,
    /// The log records that wait to be delivered.
    book: LogBook,
}

impl<W: Transport> View for RecordingOutput<W> {
    type V = RecordingView;

    closed spec fn view(&self) -> RecordingView {
        RecordingView {
            mux: self.muxer@,
            described: self.metadata_written,
            finished: self.finished,
        }
    }
}

/// A muxer error as the error of the output it belongs to.
fn output_error(e: MuxError) -> (io: IoError)
    ensures
        match e {
            MuxError::Io(inner) => io == inner,
            _ => io.kind == IoErrorKind::Other && io.message@ == error_text(e),
        },
{
    match e {
        MuxError::Io(inner) => inner,
        other => IoError { kind: IoErrorKind::Other, message: other.message() },
    }
}

impl<W: Transport> RecordingOutput<W> {
    /// The muxer.
    pub closed spec fn spec_muxer(&self) -> FlvMuxer<W> {
        self.muxer
    }

    /// The values for the metadata tag.
    pub closed spec fn spec_metadata(&self) -> StreamConfig {
        self.metadata
    }

    /// True if `next` is this recording with `out` written and in state
    /// `state`.
    pub open spec fn advanced(&self, next: &Self, out: Seq<u8>, state: RecordingView) -> bool {
        &&& self.spec_muxer().advanced(&next.spec_muxer(), out, state.mux)
        &&& next@ == state
        &&& next.spec_metadata() == self.spec_metadata()
    }

    /// True if `next` is this recording once a write has failed, in state
    /// `state`, with `out` gone out whole.
    pub open spec fn broke_off(&self, next: &Self, out: Seq<u8>, state: RecordingView) -> bool {
        &&& self.spec_muxer().broke_off(&next.spec_muxer(), out, state.mux)
        &&& next@ == state
        &&& next.spec_metadata() == self.spec_metadata()
    }

    /// True if `next` is this recording once its metadata could not be written.
    pub open spec fn metadata_failed(&self, next: &Self) -> bool {
        &&& !self@.described
        &&& exists|out: Seq<u8>| #[trigger]
            self@.mux.header_breaks(false, out, next@.mux) && self.broke_off(
                next,
                out,
                RecordingView { mux: next@.mux, ..self@ },
            )
    }

    /// True if `next` is this recording, and nothing has happened to it.
    pub open spec fn untouched(&self, next: &Self) -> bool {
        &&& next@ == self@
        &&& next.spec_muxer() == self.spec_muxer()
        &&& next.spec_metadata() == self.spec_metadata()
    }

    /// True if `next` is this recording once it was told of codecs: their
    /// sequence headers are out, or a write failed on the way.
    pub open spec fn introduced(
        &self,
        next: &Self,
        avcc: Option<Seq<u8>>,
        asc: Option<Seq<u8>>,
    ) -> bool {
        let opening = self@.opening(self.spec_metadata());
        let head = if avcc is Some || asc is Some {
            self@.ready().preamble()
        } else {
            Seq::empty()
        };
        if self@.finished {
            self.untouched(next)
        } else {
            ||| self.advanced(
                next,
                opening + head + tags_bytes(self@.ready().codec_tags(avcc, asc)),
                RecordingView {
                    mux: self@.ready().with_codecs(avcc, asc),
                    described: true,
                    finished: false,
                },
            )
            ||| !self.spec_muxer().steady() && self.metadata_failed(next)
            ||| !self.spec_muxer().steady() && exists|out: Seq<u8>| #[trigger]
                self@.ready().codecs_break(avcc, asc, out, next@.mux) && self.broke_off(
                    next,
                    opening + out,
                    RecordingView { mux: next@.mux, described: true, finished: false },
                )
        }
    }

    /// True if `next` is this recording once it was given `p`, which was
    /// reported as `r`: the packet is recorded; or it is refused, and that is
    /// reported; or a write failed, and that is.
    pub open spec fn took(&self, next: &Self, p: PacketView, r: Result<(), IoError>) -> bool {
        let m = self@.ready();
        let opening = self@.opening(self.spec_metadata());
        let refusal = recording_refusal(m, p);
        let whole = self.advanced(
            next,
            opening + m.preamble() + tags_bytes(recorded_tags(m, p)),
            RecordingView { mux: recorded(m, p), described: true, finished: false },
        );
        if self@.finished {
            r is Ok && self.untouched(next)
        } else {
            match r {
                Ok(()) => whole && refusal is None,
                Err(e) => {
                    ||| whole && refusal is Some && e.kind == IoErrorKind::Other && exists|
                        why: MuxError,
                    |
                        e.message@ == #[trigger] error_text(why) && reports_refusal(
                            why,
                            refusal->0,
                            next@.mux,
                            p,
                        )
                    ||| !self.spec_muxer().steady() && self.metadata_failed(next)
                    ||| !self.spec_muxer().steady() && exists|out: Seq<u8>| #[trigger]
                        recording_breaks(m, p, out, next@.mux) && self.broke_off(
                            next,
                            opening + out,
                            RecordingView { mux: next@.mux, described: true, finished: false },
                        )
                },
            }
        }
    }

    /// Start recording into `transport` (a file, typically). `metadata` feeds
    /// the recording's `onMetaData` tag.
    pub fn new(transport: W, metadata: StreamConfig) -> (r: Self)
        ensures
            r@ == (RecordingView { mux: MuxView::fresh(), described: false, finished: false }),
            r.spec_metadata() == metadata,
            r.spec_muxer().spec_sink() == transport,
            r.spec_muxer().spec_bytes_written() == 0,
            r.calls() == Seq::<SinkCall>::empty(),
            r.spec_book() == BookView::closed(),
    {
        RecordingOutput {
            muxer: FlvMuxer::new(transport),
            metadata,
            metadata_written: false,
            finished: false,
            log: Ghost(Seq::empty()),
            book: LogBook::new(),
        }
    }

    /// Recover the transport after the recording ends.
    pub fn into_inner(self) -> (transport: W)
        ensures
            transport == self.spec_muxer().spec_sink(),
    {
        self.muxer.into_inner()
    }

    /// Bytes written to the recording so far (FLV header + tags).
    pub fn bytes_written(&self) -> (n: u64)
        ensures
            n == self.spec_muxer().spec_bytes_written(),
    {
        self.muxer.bytes_written()
    }

    /// The `onMetaData` tag precedes everything else, sequence headers
    /// included — write it exactly once, as early as anything needs the file.
    fn ensure_metadata(&mut self) -> (r: Result<(), IoError>)
        ensures
            final(self).book == old(self).book,
            r is Ok ==> old(self).advanced(
                final(self),
                old(self)@.opening(old(self).spec_metadata()),
                RecordingView { mux: old(self)@.ready(), described: true, ..old(self)@ },
            ),
            r is Err ==> old(self).metadata_failed(final(self)),
            final(self).log == old(self).log,
            old(self).spec_muxer().steady() ==> r is Ok,
    {
        if !self.metadata_written {
            match self.muxer.write_metadata(&self.metadata) {
                Ok(()) => {},
                Err(e) => {
                    return Err(output_error(e));
                },
            }
            self.metadata_written = true;
        } else {
            assert(old(self).spec_muxer().spec_sink().written() + Seq::<u8>::empty()
                =~= old(self).spec_muxer().spec_sink().written());
        }
        Ok(())
    }

    /// The log records that wait to be delivered.
    pub closed spec fn spec_book(&self) -> BookView {
        self.book@
    }

    /// True if `next` has the same records, or one more of sequence headers that
    /// could not be written. A file that takes everything gives no cause for one.
    pub open spec fn warned(&self, next: &Self) -> bool {
        &&& next.spec_book() == self.spec_book() || self.spec_book().failed_somehow(
            next.spec_book(),
            Level::Warn,
            "stream::sink"@,
            "recorder codec init failed"@,
        )
        &&& self@.finished || self.spec_muxer().steady() ==> next.spec_book() == self.spec_book()
    }

    /// Keep log records up to this level, and no others; `None` keeps none.
    pub fn set_log_level(&mut self, max: Option<Level>)
        ensures
            old(self).untouched(final(self)),
            final(self).calls() == old(self).calls(),
            final(self).spec_book() == (BookView { max, ..old(self).spec_book() }),
    {
        self.book.set_level(max);
    }

    /// The log records to deliver, in the order in which they came.
    pub fn take_records(&mut self) -> (records: Vec<Entry>)
        ensures
            old(self).untouched(final(self)),
            final(self).calls() == old(self).calls(),
            entry_views(records@) == old(self).spec_book().records,
            final(self).spec_book() == (BookView {
                records: Seq::empty(),
                ..old(self).spec_book()
            }),
    {
        self.book.take()
    }

    /// Write the sequence headers of the codecs.
    fn record_codecs(&mut self, avcc: Option<&[u8]>, asc: Option<&[u8]>)
        ensures
            final(self).log == old(self).log,
            old(self).introduced(final(self), opt_slice(avcc), opt_slice(asc)),
            old(self).warned(final(self)),
    {
        if self.finished {
            return;
        }
        // Metadata before headers, headers before media; the muxer keeps the
        // ordering and both calls are idempotent.
        let ghost before = *self;
        if let Err(e) = self.ensure_metadata() {
            self.book.fail(
                Level::Warn,
                "stream::sink",
                "recorder codec init failed",
                e.message.as_str(),
            );
        } else {
            let ghost middle = *self;
            let outcome: Result<(), MuxError> = self.muxer.init_codecs(avcc, asc);
            if let Err(e) = &outcome {
                let text: String = e.message();
                self.book.fail(
                    Level::Warn,
                    "stream::sink",
                    "recorder codec init failed",
                    text.as_str(),
                );
            }
            proof {
                let a = opt_slice(avcc);
                let b = opt_slice(asc);
                let opening = before@.opening(before.spec_metadata());
                if outcome is Ok {
                    let head = if a is Some || b is Some {
                        middle@.mux.preamble()
                    } else {
                        Seq::<u8>::empty()
                    };
                    let tags = tags_bytes(middle@.mux.codec_tags(a, b));
                    lemma_recorded(&before, &middle, self, opening, head + tags);
                    bytes::lemma_concat(opening, head, tags);
                } else {
                    let out = choose|out: Seq<u8>| #[trigger]
                        middle@.mux.codecs_break(a, b, out, self@.mux)
                            && middle.spec_muxer().broke_off(&self.muxer, out, self@.mux);
                    lemma_broke_off(
                        &before.spec_muxer(),
                        &middle.spec_muxer(),
                        &self.spec_muxer(),
                        opening,
                        out,
                        middle@.mux,
                        self@.mux,
                    );
                }
            }
        }
    }

    /// Write a packet.
    fn record_packet(&mut self, pkt: &MediaPacket) -> (r: Result<(), IoError>)
        ensures
            final(self).book == old(self).book,
            final(self).log == old(self).log,
            old(self).took(final(self), pkt@, r),
    {
        if self.finished {
            return Ok(());
        }
        let ghost before = *self;
        self.ensure_metadata()?;
        let ghost ready = *self;
        let ghost m = before@.ready();
        let mut rebased: bool = false;
        let result: Result<(), MuxError> = write_rebasing(
            &mut self.muxer,
            pkt,
            &mut rebased,
        );
        proof {
            let opening = before@.opening(before.spec_metadata());
            if result matches Err(MuxError::Io(_)) {
                let out = choose|out: Seq<u8>| #[trigger]
                    recording_breaks(m, pkt@, out, self@.mux) && ready.spec_muxer().broke_off(
                        &self.muxer,
                        out,
                        self@.mux,
                    );
                lemma_broke_off(
                    &before.spec_muxer(),
                    &ready.spec_muxer(),
                    &self.spec_muxer(),
                    opening,
                    out,
                    ready@.mux,
                    self@.mux,
                );
            } else {
                let tags = tags_bytes(recorded_tags(m, pkt@));
                assert(ready.advanced(self, m.preamble() + tags, self@));
                lemma_recorded(&before, &ready, self, opening, m.preamble() + tags);
                bytes::lemma_concat(opening, m.preamble(), tags);
            }
        }
        match result {
            Ok(()) => Ok(()),
            Err(e) => Err(output_error(e)),
        }
    }

    /// Close the recording.
    fn close(&mut self) -> (r: Result<(), IoError>)
        ensures
            final(self).book == old(self).book,
            final(self).log == old(self).log,
            old(self)@.finished ==> r is Ok && old(self).untouched(final(self)),
            final(self).spec_metadata() == old(self).spec_metadata(),
            final(self)@ == (RecordingView { finished: true, ..old(self)@ }),
            final(self).spec_muxer().spec_sink().written()
                == old(self).spec_muxer().spec_sink().written(),
            final(self).spec_muxer().spec_bytes_written()
                == old(self).spec_muxer().spec_bytes_written(),
            old(self).spec_muxer().steady() ==> r is Ok,
    {
        if self.finished {
            return Ok(());
        }
        self.finished = true;
        match self.muxer.finish() {
            Ok(()) => {},
            Err(e) => {
                return Err(output_error(e));
            },
        }
        self.muxer.sink_mut().shutdown()
    }
}

impl<W: Transport> PacketSink for RecordingOutput<W> {
    closed spec fn calls(&self) -> Seq<SinkCall> {
        self.log@
    }

    fn codecs(&mut self, avcc: Option<&[u8]>, asc: Option<&[u8]>)
        ensures
            old(self).introduced(final(self), opt_slice(avcc), opt_slice(asc)),
            old(self).warned(final(self)),
    {
        self.record_codecs(avcc, asc);
        self.log = Ghost(self.log@.push(SinkCall::Codecs(opt_slice(avcc), opt_slice(asc))));
    }

    fn packet(&mut self, pkt: &MediaPacket) -> (r: Result<(), IoError>)
        ensures
            final(self).spec_book() == old(self).spec_book(),
            old(self).took(final(self), pkt@, r),
    {
        let r: Result<(), IoError> = self.record_packet(pkt);
        self.log = Ghost(self.log@.push(SinkCall::Packet(pkt@, r is Ok)));
        r
    }

    fn finish(&mut self) -> (r: Result<(), IoError>)
        ensures
            final(self).spec_book() == old(self).spec_book(),
            old(self)@.finished ==> r is Ok && old(self).untouched(final(self)),
            final(self).spec_metadata() == old(self).spec_metadata(),
            final(self)@ == (RecordingView { finished: true, ..old(self)@ }),
            final(self).spec_muxer().spec_sink().written()
                == old(self).spec_muxer().spec_sink().written(),
            final(self).spec_muxer().spec_bytes_written()
                == old(self).spec_muxer().spec_bytes_written(),
            old(self).spec_muxer().steady() ==> r is Ok,
    {
        let r: Result<(), IoError> = self.close();
        self.log = Ghost(self.log@.push(SinkCall::Finish(r is Ok)));
        r
    }
}

/// Two steps of a recording one after the other.
proof fn lemma_recorded<W: Transport>(
    a: &RecordingOutput<W>,
    b: &RecordingOutput<W>,
    c: &RecordingOutput<W>,
    first: Seq<u8>,
    second: Seq<u8>,
)
    requires
        a.advanced(b, first, b@),
        b.advanced(c, second, c@),
    ensures
        a.advanced(c, first + second, c@),
{
    lemma_advanced(
        &a.spec_muxer(),
        &b.spec_muxer(),
        &c.spec_muxer(),
        first,
        second,
        b@.mux,
        c@.mux,
    );
}

} // verus!
