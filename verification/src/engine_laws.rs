//! What holds of the engine as a whole: of the stream it publishes, of packets
//! that are in flight when a connection dies, and of the connection after that.

use vstd::arithmetic::power2::pow2;
use vstd::prelude::*;

use crate::backpressure::pushed_onto;
use crate::batch::{
    awaited_keyframes_come_first, batches_are_in_decode_order, cut, cuts_keep_the_newest_keyframe,
    is_inter_frame, is_keyframe, passed,
};
use crate::bytes;
use crate::codecs::h264::annex_b_units;
use crate::engine::{
    budget_of, mux_run, opening, packet_after, reported_rate, same_time, stamped, stamped_run,
    threshold_of, Baseline, Engine, EngineError, EngineView, LatencyProfile,
};
use crate::figures::seconds;
use crate::flv::{flv_header, lemma_tags_concat, tag_body, tags_bytes, DecodedView, TagView};
use crate::models::{MediaKind, PacketView, StreamConfig};
use crate::mux::{flv_ts, MuxView};
use crate::mux_laws::{
    audio_frames_decode, in_order, lemma_in_order_concat, video_frames_decode,
};
use crate::outputs::{calls_of, packet_calls, surviving_outputs_get_everything};
use crate::rounding::{nearest, units};
use crate::sink::{recorded, recorded_tags, recordings_keep_order, PacketSink, SinkCall};
use crate::telemetry::QosView;
use crate::transport::Transport;

verus! {

/// The tags that go out for a run of packets.
pub open spec fn sent_tags(m: MuxView, ps: Seq<PacketView>) -> Seq<TagView>
    decreases ps.len(),
{
    if ps.len() == 0 {
        Seq::empty()
    } else {
        let before = mux_run(m, ps.drop_last(), true);
        if before.refusal is Some {
            sent_tags(m, ps.drop_last())
        } else {
            sent_tags(m, ps.drop_last()) + recorded_tags(before.mux, ps.last())
        }
    }
}

proof fn lemma_recorded_begun(m: MuxView, p: PacketView)
    ensures
        recorded(m, p).started,
{
}

/// What the engine publishes is a run of FLV tags whose timestamps never go
/// back, whatever the capture clock does; the FLV header stands before them
/// where it is still due.
pub proof fn published_timestamps_never_go_back(m: MuxView, ps: Seq<PacketView>)
    ensures
        mux_run(m, ps, true).out == (if ps.len() > 0 {
            m.preamble()
        } else {
            Seq::empty()
        }) + tags_bytes(sent_tags(m, ps)),
        in_order(
            sent_tags(m, ps),
            flv_ts(m.header_ts()),
            flv_ts(mux_run(m, ps, true).mux.header_ts()),
        ),
        ps.len() > 0 ==> mux_run(m, ps, true).mux.started,
    decreases ps.len(),
{
    if ps.len() == 0 {
        assert(tags_bytes(Seq::<TagView>::empty()) =~= Seq::<u8>::empty());
        assert(Seq::<u8>::empty() + Seq::<u8>::empty() =~= Seq::<u8>::empty());
    } else {
        let rest = ps.drop_last();
        let p = ps.last();
        let before = mux_run(m, rest, true);
        published_timestamps_never_go_back(m, rest);
        if before.refusal is None {
            recordings_keep_order(before.mux, p);
            lemma_recorded_begun(before.mux, p);
            let old_tags = sent_tags(m, rest);
            let new_tags = recorded_tags(before.mux, p);
            lemma_in_order_concat(
                old_tags,
                new_tags,
                flv_ts(m.header_ts()),
                flv_ts(before.mux.header_ts()),
                flv_ts(recorded(before.mux, p).header_ts()),
            );
            lemma_tags_concat(old_tags, new_tags);
            let head = m.preamble();
            if rest.len() > 0 {
                assert(Seq::<u8>::empty() + tags_bytes(new_tags) =~= tags_bytes(new_tags));
                bytes::lemma_concat(head, tags_bytes(old_tags), tags_bytes(new_tags));
            } else {
                assert(old_tags =~= Seq::<TagView>::empty());
                assert(old_tags + new_tags =~= new_tags);
                assert(Seq::<u8>::empty() + (head + tags_bytes(new_tags)) =~= head + tags_bytes(
                    new_tags,
                ));
            }
        } else {
            assert(rest.len() > 0);
        }
    }
}

/// A new connection continues the timestamp series of the one before it, and
/// starts over with everything else: whether the last tick came through or died
/// with its connection, the series goes on from the last packet that was sent,
/// and no header has gone out on the new connection yet.
pub proof fn reconnects_keep_the_timebase<W: Transport, O: PacketSink>(
    e: &Engine<W, O>,
    last: &Engine<W, O>,
    sent: nat,
    ok: bool,
)
    requires
        e.ticked(last, sent, ok),
    ensures
        ({
            let reached = mux_run(e.opened(), e@.batch().take(sent as int), true).mux;
            let fresh = last@.detached().attached();
            &&& fresh.mux == Some(
                MuxView {
                    origin: last@.mux->0.origin,
                    last_dts: reached.last_dts,
                    ..MuxView::fresh()
                },
            )
            &&& same_time(reached, packet_after(e@.batch(), sent as int), fresh.mux->0)
            &&& fresh.mux->0.header_ts() == reached.header_ts()
            &&& !fresh.described
        }),
{
    last.lemma_times_fit();
}

/// What a new connection sees first: the FLV header, the metadata and both
/// sequence headers, stamped with the point the stream has reached.
pub proof fn new_connections_are_introduced(
    m: MuxView,
    stream: StreamConfig,
    avcc: Seq<u8>,
    asc: Seq<u8>,
)
    requires
        !m.started,
        !m.video_seq,
        !m.audio_seq,
    ensures
        ({
            let tags = m.metadata_tags(stream) + m.video_sequence_tags(avcc)
                + m.audio_sequence_tags(asc);
            let (next, out) = opening(m, false, stream, Some(avcc), Some(asc));
            &&& out == flv_header() + tags_bytes(tags)
            &&& tags.len() == 3
            &&& forall|i: int| 0 <= i < 3 ==> (#[trigger] tags[i]).ts == flv_ts(m.header_ts())
            &&& next.header_ts() == m.header_ts()
            &&& next.video_seq && next.audio_seq
        }),
{
    let ready = m.begun();
    let meta = m.metadata_tags(stream);
    let codecs = ready.codec_tags(Some(avcc), Some(asc));
    let tags = meta + m.video_sequence_tags(avcc) + m.audio_sequence_tags(asc);
    assert(ready.video_sequence_tags(avcc) == m.video_sequence_tags(avcc));
    assert(ready.audio_sequence_tags(asc) == m.audio_sequence_tags(asc));
    assert(tags =~= meta + codecs);
    lemma_tags_concat(meta, codecs);
    assert(Seq::<u8>::empty() + tags_bytes(codecs) =~= tags_bytes(codecs));
    bytes::lemma_concat(flv_header(), tags_bytes(meta), tags_bytes(codecs));
}

/// The outputs get the packets of a batch with timestamps that never go back,
/// and that go on from where the stream had come.
pub proof fn outputs_get_times_in_order(m: MuxView, ps: Seq<PacketView>, i: int)
    requires
        0 <= i < ps.len(),
        mux_run(m, ps, true).refusal is None,
    ensures
        stamped_run(m, ps, true).len() == ps.len(),
        m.last_dts <= stamped_run(m, ps, true)[i].dts <= mux_run(m, ps, true).mux.last_dts,
        i + 1 < ps.len() ==> stamped_run(m, ps, true)[i].dts <= stamped_run(m, ps, true)[i + 1].dts,
    decreases ps.len(),
{
    let rest = ps.drop_last();
    let before = mux_run(m, rest, true);
    assert(before.refusal is None);
    assert(before.mux.last_dts <= mux_run(m, ps, true).mux.last_dts);
    if rest.len() > 0 {
        let k = if i < rest.len() {
            i
        } else {
            rest.len() - 1
        };
        outputs_get_times_in_order(m, rest, k);
        assert(stamped_run(m, ps, true)[k] == stamped_run(m, rest, true)[k]);
    } else {
        assert(stamped_run(m, rest, true) =~= Seq::<PacketView>::empty());
    }
}

/// The outputs get a packet as the transport did: decoding the tag that went
/// out for it gives the same kind, and the same timestamps. (As long as they
/// fit the 32-bit field of the tag; a video packet has to hold a NAL unit.)
pub proof fn outputs_get_what_the_transport_got(m: MuxView, p: PacketView)
    requires
        m.refusal(p) is None,
        0 <= m.muxed_dts(p) <= u32::MAX,
        p.kind == MediaKind::Video ==> annex_b_units(p.data).len() > 0 && forall|i: int|
            0 <= i < annex_b_units(p.data).len() ==> (#[trigger] annex_b_units(p.data)[i]).len()
                < 0x1_0000_0000,
    ensures
        ({
            let tag = m.frame_tag(p);
            let q = stamped(m.with_packet(p), p);
            &&& tag_body(tag.kind, tag.ts as int, tag.body) matches Some(DecodedView::Packet(d))
            &&& d.kind == q.kind
            &&& d.dts == q.dts
            &&& d.pts == q.pts
            &&& q.kind == MediaKind::Video ==> d.is_key == q.is_key
        }),
{
    let ts = flv_ts(m.muxed_dts(p));
    match p.kind {
        MediaKind::Video => {
            video_frames_decode(ts, p.is_key, m.offset_of(p), p.data);
        },
        MediaKind::Audio => {
            audio_frames_decode(ts, p.data);
        },
    }
}

/// An output that is still there behind a tick knew the configurations in
/// force before it got the first packet of the tick, and got them all.
pub proof fn codecs_come_before_packets<W: Transport, O: PacketSink>(
    e: &Engine<W, O>,
    next: &Engine<W, O>,
    sent: nat,
    ok: bool,
    i: int,
)
    requires
        e.ticked(next, sent, ok),
        0 <= i < next.spec_outputs().len(),
    ensures
        ({
            let known = if e@.told != (next@.avcc, next@.asc) {
                seq![SinkCall::Codecs(next@.avcc, next@.asc)]
            } else {
                Seq::empty()
            };
            let fed = packet_calls(
                stamped_run(e.opened(), e@.batch().take(sent as int), true),
            );
            &&& next@.told == (next@.avcc, next@.asc)
            &&& exists|k: int|
                0 <= k < e.spec_outputs().len() && next.spec_outputs()[i].calls() == (
                #[trigger] e.spec_outputs()[k]).calls() + known + fed
        }),
{
    let before = e.informed(next@.avcc, next@.asc);
    let after = calls_of(next.spec_outputs());
    let ps = stamped_run(e.opened(), e@.batch().take(sent as int), true);
    surviving_outputs_get_everything(before, after, ps, i);
    let k = choose|k: int|
        0 <= k < before.len() && after[i] == (#[trigger] before[k]) + packet_calls(ps);
    let known = if e@.told != (next@.avcc, next@.asc) {
        seq![SinkCall::Codecs(next@.avcc, next@.asc)]
    } else {
        Seq::empty()
    };
    assert(before[k] =~= e.spec_outputs()[k].calls() + known);
}

proof fn lemma_all_pass(s: Seq<PacketView>)
    ensures
        passed(s, false) == s,
    decreases s.len(),
{
    if s.len() > 0 {
        lemma_all_pass(s.drop_last());
        assert(s.drop_last().push(s.last()) =~= s);
    }
}

/// Once a connection with video is gone, whatever comes in later: on the next
/// connection no inter-frame goes out before a keyframe.
pub proof fn streams_resume_at_a_keyframe(v: EngineView, more: Seq<PacketView>, i: int)
    requires
        v.detached().avcc is Some,
        0 <= i < passed(v.detached().buffer + more, v.detached().awaiting).len(),
        is_inter_frame(passed(v.detached().buffer + more, v.detached().awaiting)[i]),
    ensures
        exists|k: int|
            0 <= k < i && is_keyframe(
                #[trigger] passed(v.detached().buffer + more, v.detached().awaiting)[k],
            ),
{
    let w = v.detached();
    let all = w.buffer + more;
    if w.awaiting {
        awaited_keyframes_come_first(all, i);
    } else {
        lemma_all_pass(all);
        assert(all[0] == w.buffer.first());
        assert(is_keyframe(passed(all, false)[0]));
    }
}

/// A connection that dies mid-batch loses nothing but what is older than the
/// newest keyframe: what had not reached the wire is back in the buffer, in
/// order, and the cut keeps everything from that keyframe on.
pub proof fn unsent_packets_survive(v: EngineView, sent: int)
    requires
        0 <= sent <= v.batch().len(),
    ensures
        v.batch().take(sent) + v.batch().skip(sent) == v.batch(),
        ({
            let back = v.batch().skip(sent);
            &&& cut(back).len() <= back.len()
            &&& cut(back) == back.skip(back.len() - cut(back).len())
            &&& cut(back) == back || is_keyframe(cut(back).first())
        }),
{
    let back = v.batch().skip(sent);
    assert(v.batch().take(sent) + back =~= v.batch());
    cuts_keep_the_newest_keyframe(back);
}

proof fn lemma_batch_len(v: EngineView)
    ensures
        v.batch().len() <= v.buffer.len(),
{
    lemma_passed_len(v.buffer, v.awaiting);
    batches_are_in_decode_order(passed(v.buffer, v.awaiting));
}

proof fn lemma_passed_len(s: Seq<PacketView>, awaiting: bool)
    ensures
        passed(s, awaiting).len() <= s.len(),
    decreases s.len(),
{
    if s.len() > 0 {
        lemma_passed_len(s.drop_last(), awaiting);
    }
}

/// A push keeps every packet accounted for: each is buffered, or counted as muxed
/// or as dropped. So do connections that come and go.
pub proof fn pushes_account_for_packets(v: EngineView, profile: LatencyProfile, p: PacketView)
    ensures
        ({
            let held = EngineView::held(pushed_onto(v.buffer, budget_of(profile), p), profile);
            &&& held.len() <= v.buffer.len() + 1
            &&& (EngineView {
                buffer: held,
                pushed: v.pushed + 1,
                dropped: (v.dropped + v.buffer.len() + 1 - held.len()) as nat,
                ..v
            }).unaccounted() == v.unaccounted()
        }),
        v.attached().unaccounted() == v.unaccounted(),
        v.detached().unaccounted() == v.unaccounted(),
{
    cuts_keep_the_newest_keyframe(pushed_onto(v.buffer, budget_of(profile), p));
    cuts_keep_the_newest_keyframe(v.buffer);
}

/// A tick keeps every packet accounted for, whatever the transport does in it.
pub proof fn ticks_account_for_packets<W: Transport, O: PacketSink>(
    e: &Engine<W, O>,
    next: &Engine<W, O>,
    now_ns: u64,
    wall_ms: u64,
    r: Result<usize, EngineError>,
)
    requires
        e.stepped(next, now_ns, wall_ms, r),
    ensures
        next@.unaccounted() == e@.unaccounted(),
{
    lemma_batch_len(e@);
}

/// An end that comes through keeps every packet accounted for. One in which
/// muxing fails does not count what it drained: so many are unaccounted for then.
pub proof fn ends_account_for_packets<W: Transport, O: PacketSink>(
    e: &Engine<W, O>,
    next: &Engine<W, O>,
    r: Result<(), EngineError>,
)
    requires
        e.ended(next, r),
    ensures
        next@.unaccounted() == e@.unaccounted() + match r {
            Err(EngineError::Mux(_)) => if e@.mux is Some {
                e@.batch().len() as int
            } else {
                0
            },
            _ => 0,
        },
{
    lemma_batch_len(e@);
}

// ---------------------------------------------------------------------------
// Samples and profiles
// ---------------------------------------------------------------------------

/// The rate that a sample reports for a counter is what the counter grew by, in
/// bits, over the seconds since the last sample, off by at most a 2^48th part; a
/// counter that was reset, and a gap of more than thirty seconds, make it zero.
pub proof fn sampled_rates_are_measured(now: u64, before: u64, elapsed_ns: u64)
    requires
        now < 0x4_0000_0000_0000,
    ensures
        ({
            let rate = units(reported_rate(now, before, elapsed_ns) as int);
            let exact = 8_000_000_000 * (now - before) * pow2(1074);
            &&& before <= now && 0 < elapsed_ns <= 30_000_000_000 ==> {
                &&& (rate * elapsed_ns - exact) * 0x1_0000_0000_0000 <= exact
                &&& (exact - rate * elapsed_ns) * 0x1_0000_0000_0000 <= exact
            }
            &&& elapsed_ns > 30_000_000_000 ==> rate == 0
            &&& elapsed_ns == 0 ==> rate == 0
        }),
{
    assert(units(0) == 0);
    if 0 < elapsed_ns <= 30_000_000_000 {
        crate::figures::seconds_are_close(elapsed_ns);
        if before <= now {
            crate::telemetry_laws::rates_are_bits_per_second((now - before) as u64, elapsed_ns);
        }
    } else if elapsed_ns == 0 {
        vstd::arithmetic::power2::lemma_pow2_pos(1074);
        crate::figures::seconds_are_close(0);
        if seconds(0) > 0 {
            crate::rounding::patterns_are_ordered(0, seconds(0) as int);
        }
    }
}

/// A sample is taken once the interval has gone by since the last one, and not
/// before. It tells the time since the start in milliseconds, the part of the
/// packets that was dropped, how many wait, and how far the newest of them is
/// from the present; its bitrate is that of the media, its throughput that of the
/// wire.
pub proof fn samples_tell_what_happened<W: Transport, O: PacketSink>(
    e: &Engine<W, O>,
    baseline: Baseline,
    qos: QosView,
    now_ns: u64,
    wall_ms: u64,
)
    requires
        baseline.at <= now_ns,
    ensures
        ({
            let elapsed = now_ns - baseline.at;
            let due = e.due_sample(baseline, qos, now_ns, wall_ms);
            &&& due is Some <==> elapsed >= e.spec_config().qos.interval
            &&& due matches Some(s) ==> {
                &&& s.wall_ms == wall_ms
                &&& s.uptime_ms * 1_000_000 <= now_ns < (s.uptime_ms + 1) * 1_000_000
                &&& s.buffered_count == e@.buffer.len() as usize
                &&& 0 < e@.pushed < 0x20_0000_0000_0000 && e@.dropped < 0x20_0000_0000_0000
                    ==> nearest(
                    e@.dropped as int * pow2(1074),
                    e@.pushed as int,
                    s.drop_ratio as int,
                )
                &&& e@.buffer.len() > 0 && -0x4000_0000_0000_0000 < e@.buffer.last().pts
                    < 0x4000_0000_0000_0000 ==> e@.buffer.last().pts + s.buffer_ms == s.uptime_ms
                &&& e@.buffer.len() == 0 ==> s.buffer_ms == 0
                &&& s.reconnects == qos.reconnects
                &&& s.reconnect_attempts == qos.reconnect_attempts
                &&& s.last_error == qos.last_error
                &&& 0 < elapsed <= 30_000_000_000 && baseline.media <= e.spec_media_bytes()
                    < 0x4_0000_0000_0000 ==> tells_rate(
                    s.bitrate_out_bps,
                    e.spec_media_bytes() - baseline.media,
                    elapsed,
                )
                &&& 0 < elapsed <= 30_000_000_000 && baseline.wire <= e.spec_wire_bytes()
                    < 0x4_0000_0000_0000 ==> tells_rate(
                    s.throughput_bps,
                    e.spec_wire_bytes() - baseline.wire,
                    elapsed,
                )
            }
        }),
{
    let elapsed = (now_ns - baseline.at) as u64;
    if 0 < e@.pushed < 0x20_0000_0000_0000 && e@.dropped < 0x20_0000_0000_0000 {
        crate::telemetry_laws::ratios_are_quotients(e@.dropped as u64, e@.pushed as u64);
    }
    if baseline.media <= e.spec_media_bytes() < 0x4_0000_0000_0000 {
        sampled_rates_are_measured(e.spec_media_bytes(), baseline.media, elapsed);
    }
    if baseline.wire <= e.spec_wire_bytes() < 0x4_0000_0000_0000 {
        sampled_rates_are_measured(e.spec_wire_bytes(), baseline.wire, elapsed);
    }
}

/// True if a double is the rate in bits per second of so many bytes in so many
/// nanoseconds, off by at most a 2^48th part.
pub open spec fn tells_rate(rate: u64, bytes: int, ns: int) -> bool {
    let exact = 8_000_000_000 * bytes * pow2(1074);
    &&& (units(rate as int) * ns - exact) * 0x1_0000_0000_0000 <= exact
    &&& (exact - units(rate as int) * ns) * 0x1_0000_0000_0000 <= exact
}

/// A buffer is cut when it has reached the profile's threshold, and not before:
/// what is left begins with the newest keyframe.
pub proof fn buffers_are_cut_at_the_threshold(
    buffer: Seq<PacketView>,
    profile: LatencyProfile,
    at: int,
)
    requires
        0 <= at < buffer.len(),
        is_keyframe(buffer[at]),
        forall|i: int| at < i < buffer.len() ==> !is_keyframe(#[trigger] buffer[i]),
    ensures
        EngineView::held(buffer, profile) == match profile {
            LatencyProfile::Aggressive => if buffer.len() < 15 {
                buffer
            } else {
                buffer.skip(at)
            },
            LatencyProfile::Balanced => if buffer.len() < 120 {
                buffer
            } else {
                buffer.skip(at)
            },
            LatencyProfile::Lenient => buffer,
        },
{
    cuts_keep_the_newest_keyframe(buffer);
    if let Some(k) = crate::batch::latest_keyframe(buffer) {
        assert(!(k < at)) by {
            if k < at {
                assert(!is_keyframe(buffer[at]));
            }
        }
        assert(!(at < k)) by {
            if at < k {
                assert(!is_keyframe(buffer[k]));
            }
        }
    }
}

/// A buffer without a keyframe is not cut.
pub proof fn buffers_without_a_keyframe_are_kept(
    buffer: Seq<PacketView>,
    profile: LatencyProfile,
)
    requires
        forall|i: int| 0 <= i < buffer.len() ==> !is_keyframe(#[trigger] buffer[i]),
    ensures
        EngineView::held(buffer, profile) == buffer,
{
    cuts_keep_the_newest_keyframe(buffer);
}

/// A profile that is more patient buffers more packets and cuts later, if at all;
/// no profile waits for a cut past a full buffer.
pub proof fn profiles_trade_latency_for_drops()
    ensures
        0 < budget_of(LatencyProfile::Aggressive) < budget_of(LatencyProfile::Balanced) < budget_of(
            LatencyProfile::Lenient,
        ),
        threshold_of(LatencyProfile::Aggressive) matches Some(n) && 2 * n == budget_of(
            LatencyProfile::Aggressive,
        ),
        threshold_of(LatencyProfile::Balanced) == Some(budget_of(LatencyProfile::Balanced)),
        threshold_of(LatencyProfile::Lenient) is None,
{
}

} // verus!
