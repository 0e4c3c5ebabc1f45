//! Laws of the HLS output: when samples are decoded and shown, how long segments
//! last, and what becomes of a packet.

use vstd::prelude::*;

use crate::codecs::aac::{adts_payload, asc_bytes, asc_round_trip, SAMPLE_RATES};
use crate::codecs::h264::{
    annex_b_units, avcc_record, avcc_round_trip, length_prefixed_round_trip, prefixed_units,
    sps_dimensions, units_are_not_empty,
};
use crate::hls::mp4::{FragmentView, SampleView};
use crate::hls::{audio_params, ConfigView, HlsView, PendingView, Published, TimebaseView};
use crate::models::{MediaKind, PacketView};

verus! {

// ---------------------------------------------------------------------------
// Sample timing
// ---------------------------------------------------------------------------

/// When the `k`-th sample of a fragment is decoded, in ticks of its track: behind
/// the samples before it.
pub open spec fn decode_tick(f: FragmentView, k: int) -> int
    decreases k,
{
    if k <= 0 {
        f.base_decode_time as int
    } else {
        decode_tick(f, k - 1) + f.samples[k - 1].duration
    }
}

/// When the `k`-th sample of a fragment is shown: its composition offset, in
/// two's complement, behind its decode time.
pub open spec fn show_tick(f: FragmentView, k: int) -> int {
    decode_tick(f, k) + if f.samples[k].composition_offset < 0x8000_0000 {
        f.samples[k].composition_offset as int
    } else {
        f.samples[k].composition_offset - 0x1_0000_0000
    }
}

/// True if samples wait in decode order, at times that fit: no time is before
/// zero or past the range of a 64-bit tick, and no gap past that of a 32-bit
/// duration (thirteen hours).
pub open spec fn in_time(s: Seq<PendingView>) -> bool {
    &&& forall|i: int| 0 <= i < s.len() ==> 0 <= (#[trigger] s[i]).dts < 0x8000_0000_0000
    &&& forall|i: int|
        0 < i < s.len() ==> 0 <= (#[trigger] s[i]).dts - s[i - 1].dts && 90 * (s[i].dts - s[i
            - 1].dts) <= u32::MAX
}

proof fn lemma_video_ticks(v: HlsView, k: int)
    requires
        in_time(v.video),
        0 <= k < v.video.len(),
    ensures
        decode_tick(v.video_fragment(), k) == v.video_fragment().base_decode_time + 90 * (
        v.video[k].dts - v.video[0].dts),
    decreases k,
{
    if k > 0 {
        lemma_video_ticks(v, k - 1);
        assert(v.video[k].dts - v.video[k - 1].dts >= 0);
        let ms = v.video[k].dts - v.video[k - 1].dts;
        assert(ms * 90_000 / 1000 == 90 * ms);
        assert(crate::hls::ticks(ms, 90_000) == 90 * ms);
        assert(v.video_fragment().samples[k - 1].duration == 90 * ms);
    }
}

/// Video decodes on time. A fragment's frames lie apart by 90 ticks for each
/// millisecond between their own decode times, however the frames are spaced. The
/// first lies at its own decode time, or where the segment before it ended if that
/// is later; so all of them are late by the same, and by nothing where the
/// segment before did not run over.
pub proof fn frames_decode_on_time(v: HlsView, i: int, k: int)
    requires
        in_time(v.video),
        0 <= i < v.video.len(),
        0 <= k < v.video.len(),
    ensures
        ({
            let f = v.video_fragment();
            let late = decode_tick(f, i) - 90 * v.video[i].dts;
            &&& f.samples.len() == v.video.len()
            &&& decode_tick(f, k) - decode_tick(f, i) == 90 * (v.video[k].dts - v.video[i].dts)
            &&& late >= 0
            &&& v.video_next is None ==> late == 0
            &&& v.video_next matches Some(t) ==> t <= 90 * v.video[0].dts ==> late == 0
            &&& v.video_next matches Some(t) ==> t > 90 * v.video[0].dts ==> late == t - 90
                * v.video[0].dts
        }),
{
    lemma_video_ticks(v, i);
    lemma_video_ticks(v, k);
    lemma_video_base(v);
}

proof fn lemma_video_base(v: HlsView)
    requires
        in_time(v.video),
        v.video.len() > 0,
    ensures
        v.video_fragment().samples.len() == v.video.len(),
        v.video_fragment().base_decode_time == match v.video_next {
            Some(t) => if t > 90 * v.video[0].dts {
                t as int
            } else {
                90 * v.video[0].dts
            },
            None => 90 * v.video[0].dts,
        },
{
    let first = v.video[0].dts;
    assert(0 <= first < 0x8000_0000_0000);
    assert(first * 90_000 / 1000 == 90 * first);
    assert(crate::hls::ticks(first, 90_000) == 90 * first);
}

/// The last frame of a segment, whose successor is not known yet, lasts 33
/// milliseconds; the next segment's frames come no earlier.
pub proof fn last_frames_last(v: HlsView, cfg: ConfigView)
    requires
        in_time(v.video),
        v.video.len() > 0,
        v.video_next matches Some(t) ==> t < 0x1000_0000_0000_0000,
    ensures
        ({
            let f = v.video_fragment();
            let last = v.video.len() - 1;
            &&& f.samples[last].duration == 33 * 90
            &&& v.sealed(cfg).video_next == Some((decode_tick(f, last) + 33 * 90) as u64)
        }),
{
    let f = v.video_fragment();
    let last = v.video.len() - 1;
    frames_decode_on_time(v, 0, last);
    lemma_total(f, v.video.len() as int);
    assert(f.samples.take(v.video.len() as int) =~= f.samples);
    assert(decode_tick(f, last + 1) == decode_tick(f, last) + f.samples[last].duration);
    assert(33int * 90_000 / 1000 == 33 * 90);
}

proof fn lemma_total(f: FragmentView, k: int)
    requires
        0 <= k <= f.samples.len(),
    ensures
        decode_tick(f, k) == f.base_decode_time + crate::hls::total_ticks(f.samples.take(k)),
    decreases k,
{
    if k > 0 {
        lemma_total(f, k - 1);
        assert(f.samples.take(k).drop_last() =~= f.samples.take(k - 1));
    } else {
        assert(f.samples.take(0) =~= Seq::<SampleView>::empty());
    }
}

/// Video is shown when it should be: as long behind its decode time as its
/// packet said, be that before or after.
pub proof fn frames_are_shown_on_time(v: HlsView, k: int)
    requires
        0 <= k < v.video.len(),
        -0x100_0000 < v.video[k].cts < 0x100_0000,
    ensures
        show_tick(v.video_fragment(), k) - decode_tick(v.video_fragment(), k) == 90
            * v.video[k].cts,
{
    let c = v.video[k].cts * 90;
    if c >= 0 {
        assert(c % 0x1_0000_0000 == c);
    } else {
        assert(c % 0x1_0000_0000 == c + 0x1_0000_0000);
    }
}

/// A player can start at the keyframes and nowhere else: they are marked as sync
/// samples that depend on no other, and all other frames as the contrary.
pub proof fn keyframes_are_marked(v: HlsView, k: int)
    requires
        0 <= k < v.video.len(),
    ensures
        v.video[k].is_sync ==> v.video_fragment().samples[k].flags == 0x0200_0000,
        !v.video[k].is_sync ==> v.video_fragment().samples[k].flags == 0x0101_0000,
        v.video_fragment().samples[k].payload == v.video[k].payload,
{
}

/// Audio decodes on time: a frame holds 1024 samples, and the track counts
/// samples. The first lies at its own time, rounded down to a sample, or where
/// the segment before it ended if that is later.
pub proof fn audio_decodes_on_time(v: HlsView, cfg: ConfigView, k: int)
    requires
        v.audio is Some,
        0 <= k < v.sound.len(),
        0 <= v.sound[0].dts < 0x1_0000_0000,
        v.sound.len() < 0x1_0000_0000,
        v.audio_next matches Some(t) ==> t < 0x1000_0000_0000_0000,
    ensures
        ({
            let f = v.audio_fragment();
            let rate = v.audio->0.sample_rate;
            let own = v.sound[0].dts * rate;
            let first = decode_tick(f, 0);
            &&& f.samples.len() == v.sound.len()
            &&& decode_tick(f, k) == first + 1024 * k
            &&& show_tick(f, k) == decode_tick(f, k)
            &&& v.audio_next is None ==> 1000 * first <= own < 1000 * (first + 1)
            &&& v.audio_next matches Some(t) ==> first >= t && (first == t || 1000 * first <= own
                < 1000 * (first + 1)) && own < 1000 * (first + 1)
            &&& f.samples[k].payload == v.sound[k].payload
            &&& v.sealed(cfg).audio_next == Some((first + 1024 * v.sound.len()) as u64)
        }),
{
    let f = v.audio_fragment();
    let rate = v.audio->0.sample_rate as int;
    let d = v.sound[0].dts;
    lemma_audio_ticks(v, k);
    assert(0 <= d * rate <= 0xFFFF_FFFF * 0xFFFF_FFFF) by (nonlinear_arith)
        requires
            0 <= d <= 0xFFFF_FFFF,
            0 <= rate <= 0xFFFF_FFFF,
    ;
    assert(crate::hls::ticks(d, v.audio->0.sample_rate) == d * rate / 1000);
}

proof fn lemma_audio_ticks(v: HlsView, k: int)
    requires
        0 <= k <= v.sound.len(),
    ensures
        decode_tick(v.audio_fragment(), k) == v.audio_fragment().base_decode_time + 1024 * k,
    decreases k,
{
    if k > 0 {
        lemma_audio_ticks(v, k - 1);
    }
}

// ---------------------------------------------------------------------------
// Packets
// ---------------------------------------------------------------------------

/// The timebase keeps distances: a packet that comes later is later by as much,
/// as long as the first of the two was where its own time put it. The first
/// packet of all is at zero.
pub proof fn distances_are_kept(t: TimebaseView, a: int, b: int)
    requires
        a <= b,
        -0x2000_0000_0000_0000 < a,
        b < 0x2000_0000_0000_0000,
        t.origin matches Some(o) ==> -0x2000_0000_0000_0000 < o < 0x2000_0000_0000_0000
            && t.normalized(a) == a - o,
        t.origin is None ==> t.last < 0,
    ensures
        t.behind(a).normalized(b) - t.normalized(a) == b - a,
        t.origin is None ==> t.normalized(a) == 0,
{
}

/// A clock that jumps back does not stop the stream: the packet comes where the
/// stream has got to, and those behind it keep their distance from it. A slip of
/// at most 100 milliseconds is no jump.
pub proof fn jumps_are_absorbed(t: TimebaseView, a: int, b: int)
    requires
        t.origin matches Some(o) && -0x2000_0000_0000_0000 < o < 0x2000_0000_0000_0000,
        0 <= t.last < 0x2000_0000_0000_0000,
        -0x2000_0000_0000_0000 < a <= b < 0x2000_0000_0000_0000,
    ensures
        a - t.origin->0 < t.last - 100 ==> t.normalized(a) == t.last && t.behind(a).normalized(b)
            == t.last + (b - a),
        t.last - 100 <= a - t.origin->0 <= t.last ==> t.normalized(a) == t.last && t.behind(
            a,
        ).origin == t.origin,
{
}

/// What a packet leaves in the open segment: a video packet its units, each
/// behind its length, and an audio packet its frame without the ADTS header; the
/// time that the timebase gives it; and for video how long after decoding it is
/// shown, and whether it is a keyframe.
pub proof fn samples_hold_their_packets(s: Published, cfg: ConfigView, p: PacketView)
    requires
        !s.view.finished,
        s.view.takes(p),
        s.with_packet(cfg, p) is Some,
        p.data.len() < 0x1_0000_0000,
        i64::MIN <= p.pts - p.dts <= i64::MAX,
    ensures
        ({
            let next = s.with_packet(cfg, p)->0.view;
            match p.kind {
                MediaKind::Video => next.video.len() > 0 && {
                    let last = next.video.last();
                    &&& prefixed_units(last.payload) == Some(annex_b_units(p.data))
                    &&& last.dts == s.view.time.normalized(p.dts)
                    &&& last.cts == p.pts - p.dts
                    &&& last.is_sync == p.is_key
                },
                MediaKind::Audio => next.sound.len() > 0 && {
                    let last = next.sound.last();
                    &&& last.payload == adts_payload(p.data)
                    &&& last.dts == s.view.time.normalized(p.dts)
                },
            }
        }),
{
    let units = annex_b_units(p.data);
    units_are_not_empty(p.data);
    crate::codecs::h264::units_are_parts(p.data);
    length_prefixed_round_trip(units);
}

/// A packet that does not close the open segment adds its sample to it and leaves
/// all others; one that does opens a segment with it.
pub proof fn packets_are_added_or_open_a_segment(s: Published, cfg: ConfigView, p: PacketView)
    requires
        !s.view.finished,
        s.view.takes(p),
        s.with_packet(cfg, p) is Some,
    ensures
        ({
            let next = s.with_packet(cfg, p)->0.view;
            let kept = !s.view.cuts(p, cfg);
            &&& p.kind is Video ==> next.video.drop_last() == if kept {
                s.view.video
            } else {
                Seq::empty()
            }
            &&& p.kind is Video ==> next.sound == if kept {
                s.view.sound
            } else {
                Seq::empty()
            }
            &&& p.kind is Audio ==> next.sound.drop_last() == if kept {
                s.view.sound
            } else {
                Seq::empty()
            }
            &&& p.kind is Audio ==> next.video == if kept {
                s.view.video
            } else {
                Seq::empty()
            }
        }),
{
    let next = s.with_packet(cfg, p)->0.view;
    let kept = !s.view.cuts(p, cfg);
    let none = Seq::<PendingView>::empty();
    if p.kind is Video {
        assert(next.video.drop_last() =~= if kept {
            s.view.video
        } else {
            none
        });
    } else {
        assert(next.sound.drop_last() =~= if kept {
            s.view.sound
        } else {
            none
        });
    }
}

/// A segment that spans the target duration is closed by the next keyframe, or in
/// a stream without video by the next audio; and one segment more is counted.
pub proof fn full_segments_are_closed(s: Published, cfg: ConfigView, p: PacketView)
    requires
        !s.view.finished,
        s.view.takes(p),
        s.view.init,
        s.view.seg_start is Some,
        p.kind is Video ==> p.is_key,
        p.kind is Audio ==> !s.view.saw_video,
        s.view.video.len() > 0 && s.view.video.last().dts - s.view.seg_start->0 >= 1000
            * cfg.target || s.view.sound.len() > 0 && s.view.sound.last().dts - s.view.seg_start->0
            >= 1000 * cfg.target,
    ensures
        s.with_packet(cfg, p) matches Some(next) && {
            &&& next.view.sequence == s.view.sequence.wrapping_add(1)
            &&& next.view.seg_start == Some(s.view.time.normalized(p.dts))
            &&& next.view.video.len() + next.view.sound.len() == 1
        },
{
}

// ---------------------------------------------------------------------------
// Segments
// ---------------------------------------------------------------------------

proof fn lemma_latest(ends: Seq<int>, floor: int)
    ensures
        crate::hls::latest(ends, floor) >= floor,
        forall|i: int| 0 <= i < ends.len() ==> crate::hls::latest(ends, floor) >= #[trigger] ends[i],
        crate::hls::latest(ends, floor) == floor || exists|i: int|
            0 <= i < ends.len() && crate::hls::latest(ends, floor) == #[trigger] ends[i],
    decreases ends.len(),
{
    if ends.len() > 0 {
        let rest = ends.drop_last();
        lemma_latest(rest, floor);
        assert forall|i: int| 0 <= i < ends.len() implies crate::hls::latest(ends, floor)
            >= #[trigger] ends[i] by {
            if i < rest.len() {
                assert(rest[i] == ends[i]);
            }
        }
        if crate::hls::latest(ends, floor) != ends[ends.len() - 1] && crate::hls::latest(
            rest,
            floor,
        ) != floor {
            let i = choose|i: int|
                0 <= i < rest.len() && crate::hls::latest(rest, floor) == #[trigger] rest[i];
            assert(ends[i] == rest[i]);
        }
    }
}

/// A segment lasts from its first sample to the end of the one that ends last. A
/// frame ends where the next begins, the last frame 33 milliseconds after it
/// begins, and a frame of audio after 1024 samples.
pub proof fn segments_last_to_their_end(v: HlsView, start: int)
    requires
        in_time(v.video),
        in_time(v.sound),
        v.seg_start == Some(start),
        0 <= start,
        forall|i: int| 0 <= i < v.video.len() ==> (#[trigger] v.video[i]).dts >= start,
        forall|i: int| 0 <= i < v.sound.len() ==> (#[trigger] v.sound[i]).dts >= start,
        v.sound.len() > 0 ==> v.audio is Some && v.audio->0.sample_rate > 0,
    ensures
        ({
            let n = v.video.len() - 1;
            let m = v.sound.len() - 1;
            let video_end = v.video[n].dts + 33;
            let audio_end = v.sound[m].dts + 1_024_000int / v.audio->0.sample_rate as int;
            &&& n >= 0 ==> start + v.duration() >= video_end
            &&& m >= 0 ==> start + v.duration() >= audio_end
            &&& n >= 0 || m >= 0 ==> n >= 0 && start + v.duration() == video_end || m >= 0 && start
                + v.duration() == audio_end
            &&& n < 0 && m < 0 ==> v.duration() == 0
        }),
{
    let frame = crate::hls::frame_ms(v.audio);
    let n = v.video.len() - 1;
    let m = v.sound.len() - 1;
    let ends = Seq::new(v.video.len(), |i: int| v.video[i].dts + crate::hls::gap(v.video, i));
    let tones = Seq::new(v.sound.len(), |i: int| v.sound[i].dts + frame);
    let low = crate::hls::latest(ends, start);
    lemma_latest(ends, start);
    lemma_latest(tones, low);
    assert forall|i: int| 0 <= i < v.video.len() implies v.video[i].dts <= v.video[n].dts by {
        lemma_in_order(v.video, i, n);
    }
    assert forall|i: int| 0 <= i < v.sound.len() implies v.sound[i].dts <= v.sound[m].dts by {
        lemma_in_order(v.sound, i, m);
    }
    if n >= 0 {
        assert(ends[n] == v.video[n].dts + 33);
        assert forall|i: int| 0 <= i < ends.len() implies #[trigger] ends[i] <= ends[n] by {
            if i < n {
                assert(v.video[i + 1].dts - v.video[i].dts >= 0);
                lemma_in_order(v.video, i + 1, n);
            }
        }
        assert(low == ends[n]);
    } else {
        assert(ends =~= Seq::<int>::empty());
        assert(low == start);
    }
    if m >= 0 {
        assert(tones[m] == v.sound[m].dts + frame);
        assert forall|i: int| 0 <= i < tones.len() implies #[trigger] tones[i] <= tones[m] by {
            lemma_in_order(v.sound, i, m);
        }
        assert(frame >= 0) by {
            vstd::arithmetic::div_mod::lemma_div_pos_is_pos(
                1_024_000,
                v.audio->0.sample_rate as int,
            );
        }
        vstd::arithmetic::div_mod::lemma_div_is_ordered_by_denominator(
            1_024_000,
            1,
            v.audio->0.sample_rate as int,
        );
    } else {
        assert(tones =~= Seq::<int>::empty());
    }
}

proof fn lemma_in_order(s: Seq<PendingView>, i: int, k: int)
    requires
        in_time(s),
        0 <= i <= k < s.len(),
    ensures
        s[i].dts <= s[k].dts,
    decreases k - i,
{
    if i < k {
        lemma_in_order(s, i, k - 1);
        assert(s[k].dts - s[k - 1].dts >= 0);
    }
}

/// The video track tells the size that the parameter set in the configuration
/// tells, and carries the configuration as it is.
pub proof fn video_tracks_tell_the_picture(
    v: HlsView,
    sps: Seq<u8>,
    pps: Seq<u8>,
    width: u32,
    height: u32,
)
    requires
        v.avcc == Some(avcc_record(sps, pps)),
        0 < sps.len() < 0x1_0000,
        0 < pps.len() < 0x1_0000,
        sps_dimensions(sps) == Some((width, height)),
    ensures
        v.video_track() matches Some(t) && {
            &&& t.width == width
            &&& t.height == height
            &&& t.avcc == avcc_record(sps, pps)
        },
{
    avcc_round_trip(sps, pps);
}

/// A configuration of one of the thirteen sampling frequencies tells that
/// frequency and its channels; an audio track made of it tells the same, and the
/// bitrate that was asked for.
pub proof fn audio_tracks_tell_the_sound(
    v: HlsView,
    cfg: ConfigView,
    object_type: u8,
    frequency: u8,
    channels: u8,
)
    requires
        1 <= object_type <= 32,
        frequency < 13,
        0 < channels < 16,
        v.audio == audio_params(
            asc_bytes(object_type as int, frequency as int, channels as int),
        ),
    ensures
        v.audio_track(cfg) matches Some(t) && {
            &&& t.sample_rate == SAMPLE_RATES@[frequency as int]
            &&& t.channels == channels
            &&& t.bitrate == cfg.audio_bitrate
            &&& t.asc == asc_bytes(object_type as int, frequency as int, channels as int)
        },
{
    asc_round_trip(object_type, frequency, channels);
}

} // verus!
