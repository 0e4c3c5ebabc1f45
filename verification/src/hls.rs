//! HLS output — packetizes the encoded stream into CMAF-style fMP4 segments
//! and maintains the `m3u8` media playlist that players poll.
//!
//! ```text
//! MediaPacket ──▶ HlsOutput ──▶ HlsStorage ──▶ init.mp4 / segN.m4s / playlist.m3u8
//! ```
//!
//! Design choices (the "modern HLS" shape):
//! - **fMP4 segments** (not MPEG-TS): one `init.mp4` (`ftyp`+`moov`) referenced
//!   by `#EXT-X-MAP`, media segments as `styp`+`moof`/`mdat` (`EXT-X-VERSION:7`).
//! - **Sliding window**: only the newest `window_size` segments stay in the
//!   playlist; retired segment files are deleted from storage.
//! - **Keyframe-aligned cuts**: a segment closes when a video keyframe arrives
//!   *and* the segment already spans the target duration, so every segment is
//!   independently joinable (`#EXT-X-INDEPENDENT-SEGMENTS`).
//! - Timestamps ride two accurate clocks: 90 kHz for video, the sample rate
//!   for audio — no rounding drift inside a segment.
//!
//! The output is a [`crate::sink::PacketSink`]: attach it to the engine with
//! [`crate::engine::Engine::attach_output`] and it survives reconnects of the
//! publish path untouched (the playlist simply keeps growing).

pub mod laws;
pub mod mp4;
pub mod mp4_laws;
pub mod playlist_laws;
pub mod storage;

use vstd::prelude::*;
use vstd::string::*;
use vstd::utf8::encode_utf8;

pub use crate::hls::storage::{HlsStorage, MemoryStorage};

use crate::bytes;
use crate::codecs::aac;
use crate::codecs::aac::{adts_payload, asc_fields, SAMPLE_RATES};
use crate::codecs::h264;
use crate::codecs::h264::{annex_b_units, avcc_sets, length_prefixed, opt_bytes, sps_dimensions};
use crate::hls::mp4::{
    flags_of, fragment_views, init_bytes, media_segment, sample_flags, sample_views, segment_bytes,
    AudioTrack, AudioTrackView, Fragment, FragmentSample, FragmentView, SampleView, VideoTrack,
    VideoTrackView, AUDIO_TRACK_ID, VIDEO_TRACK_ID,
};
use crate::io::{IoError, IoErrorKind};
use crate::models::{MediaKind, MediaPacket, PacketView};
use crate::mux::{audio_config_in, clamp_i64, opt_slice, video_config_in};
use crate::sink::{PacketSink, SinkCall};
use crate::telemetry::{
    entry_views, BookView, Entry, Field, FieldValue, FieldView, Level, LogBook, Record,
};
use crate::text::{append_decimal, append_three_digits, decimal, lemma_decimal_tells, three_digits};

verus! {

/// DTS may slip backwards this far (encoder jitter) before it counts as a real
/// clock jump — mirrors the FLV muxer's tolerance so both outputs agree.
pub const REORDER_TOLERANCE_MS: i64 = 100;

/// Video sample duration assumed for the final sample of a segment when no
/// successor reveals the true spacing (30 fps).
pub const DEFAULT_VIDEO_FRAME_MS: i64 = 33;

/// Samples per AAC-LC frame — the audio track's sample duration in its own
/// timescale (the track timescale *is* the sample rate).
pub const AAC_FRAME_SAMPLES: u32 = 1024;

/// Tuning knobs for the HLS output.
#[derive(Debug, Clone)]
pub struct HlsConfig {
    /// Nominal segment duration in seconds. A segment actually closes on the
    /// first keyframe *after* spanning this long, so real segments run
    /// slightly longer — exactly what `EXT-X-TARGETDURATION` accounts for.
    pub target_duration_secs: u32,
    /// How many recent segments the playlist keeps (its sliding window).
    /// Older segment files are removed from storage.
    pub window_size: usize,
    /// File name of the initialization segment.
    pub init_segment_name: String,
    /// Prefix for media segment files; `<prefix><sequence>.m4s`.
    pub segment_prefix: String,
    /// File name of the media playlist.
    pub playlist_name: String,
    /// Nominal audio bitrate in bits/s, recorded in the `esds` box.
    pub audio_bitrate: u32,
}

/// A configuration as a mathematical value.
#[verifier::ext_equal]
pub struct ConfigView {
    /// Nominal segment duration in seconds.
    pub target: u32,
    /// How many recent segments the playlist keeps.
    pub window: usize,
    /// File name of the initialization segment.
    pub init_name: Seq<char>,
    /// Prefix for media segment files.
    pub prefix: Seq<char>,
    /// File name of the media playlist.
    pub playlist_name: Seq<char>,
    /// Nominal audio bitrate.
    pub audio_bitrate: u32,
}

impl View for HlsConfig {
    type V = ConfigView;

    open spec fn view(&self) -> ConfigView {
        ConfigView {
            target: self.target_duration_secs,
            window: self.window_size,
            init_name: self.init_segment_name@,
            prefix: self.segment_prefix@,
            playlist_name: self.playlist_name@,
            audio_bitrate: self.audio_bitrate,
        }
    }
}

impl Default for HlsConfig {
    fn default() -> (c: Self)
        ensures
            c@ == (ConfigView {
                target: 4,
                window: 6,
                init_name: "init.mp4"@,
                prefix: "seg"@,
                playlist_name: "playlist.m3u8"@,
                audio_bitrate: 128_000,
            }),
    {
        HlsConfig {
            target_duration_secs: 4,
            window_size: 6,
            init_segment_name: "init.mp4".to_owned(),
            segment_prefix: "seg".to_owned(),
            playlist_name: "playlist.m3u8".to_owned(),
            audio_bitrate: 128_000,
        }
    }
}

// ---------------------------------------------------------------------------
// The model
// ---------------------------------------------------------------------------

/// AAC track parameters.
#[verifier::ext_equal]
pub struct AudioView {
    /// The `AudioSpecificConfig`.
    pub asc: Seq<u8>,
    /// Samples per second.
    pub sample_rate: u32,
    /// Channels, at least one.
    pub channels: u8,
}

/// The parameters that an `AudioSpecificConfig` stands for; `None` when it is
/// too short or names no known sampling frequency.
pub open spec fn audio_params(asc: Seq<u8>) -> Option<AudioView> {
    if asc.len() >= 2 && asc_fields(asc).sampling_frequency_index < 13 {
        Some(
            AudioView {
                asc,
                sample_rate: SAMPLE_RATES@[asc_fields(asc).sampling_frequency_index as int],
                channels: if asc_fields(asc).channel_config > 0 {
                    asc_fields(asc).channel_config
                } else {
                    1
                },
            },
        )
    } else {
        None
    }
}

/// One sample waiting to be written into the current segment.
#[verifier::ext_equal]
pub struct PendingView {
    /// The sample's bytes.
    pub payload: Seq<u8>,
    /// Normalized decode time in milliseconds.
    pub dts: int,
    /// Composition offset in milliseconds.
    pub cts: int,
    /// Keyframe / sync sample.
    pub is_sync: bool,
}

/// The stream's own timebase.
#[verifier::ext_equal]
pub struct TimebaseView {
    /// The decode timestamp that counts as zero.
    pub origin: Option<int>,
    /// The timestamp the stream has reached.
    pub last: int,
}

/// The larger of two numbers.
pub open spec fn larger(a: int, b: int) -> int {
    if a > b {
        a
    } else {
        b
    }
}

/// A number, held to the range of an unsigned 64-bit one.
pub open spec fn clamp_u64(x: int) -> int {
    if x < 0 {
        0
    } else if x > u64::MAX {
        u64::MAX as int
    } else {
        x
    }
}

impl TimebaseView {
    /// The decode timestamp on this timebase, before it is kept from going
    /// back.
    pub open spec fn relative(self, dts: int) -> int {
        clamp_i64(
            dts - match self.origin {
                Some(o) => o,
                None => dts,
            },
        )
    }

    /// True if the capture clock jumped back.
    pub open spec fn jumped(self, dts: int) -> bool {
        self.last - self.relative(dts) > REORDER_TOLERANCE_MS
    }

    /// The timestamp for `dts`: small backward slips stay at the point reached,
    /// and so does a jump.
    pub open spec fn normalized(self, dts: int) -> int {
        if self.jumped(dts) {
            larger(self.last, 0)
        } else {
            larger(self.relative(dts), self.last)
        }
    }

    /// The timebase behind `dts`: a jump re-anchors it.
    pub open spec fn behind(self, dts: int) -> TimebaseView {
        TimebaseView {
            origin: Some(
                if self.jumped(dts) {
                    clamp_i64(dts - larger(self.last, 0))
                } else {
                    match self.origin {
                        Some(o) => o,
                        None => dts,
                    }
                },
            ),
            last: self.normalized(dts),
        }
    }
}

/// Normalized timestamps never go back, and the first is zero.
pub proof fn segment_times_never_go_back(t: TimebaseView, dts: int)
    ensures
        t.normalized(dts) >= t.last,
        t.behind(dts).last == t.normalized(dts),
        t.origin is None && t.last <= 0 && !t.jumped(dts) ==> t.normalized(dts) == 0,
{
}

/// The state of an output.
#[verifier::ext_equal]
pub struct HlsView {
    /// The timebase.
    pub time: TimebaseView,
    /// The video decoder configuration.
    pub avcc: Option<Seq<u8>>,
    /// The audio parameters.
    pub audio: Option<AudioView>,
    /// The initialization segment is out.
    pub init: bool,
    /// It holds a video track.
    pub init_video: bool,
    /// It holds an audio track.
    pub init_audio: bool,
    /// There has been video (decides whether audio waits for a keyframe start).
    pub saw_video: bool,
    /// Media flows.
    pub started: bool,
    /// The open segment's video.
    pub video: Seq<PendingView>,
    /// The open segment's audio.
    pub sound: Seq<PendingView>,
    /// Normalized DTS of the open segment's first sample.
    pub seg_start: Option<int>,
    /// Next free video tick on the exact sample grid.
    pub video_next: Option<u64>,
    /// Next free audio tick.
    pub audio_next: Option<u64>,
    /// How many segments have been written.
    pub sequence: u32,
    /// The segments in the playlist: name and milliseconds.
    pub window: Seq<(Seq<char>, u64)>,
    /// The longest segment so far, in milliseconds.
    pub longest: u64,
    /// The playlist is complete.
    pub finished: bool,
}

impl HlsView {
    /// An output that nothing has happened to yet.
    pub open spec fn fresh() -> HlsView {
        HlsView {
            time: TimebaseView { origin: None, last: i64::MIN as int },
            avcc: None,
            audio: None,
            init: false,
            init_video: false,
            init_audio: false,
            saw_video: false,
            started: false,
            video: Seq::empty(),
            sound: Seq::empty(),
            seg_start: None,
            video_next: None,
            audio_next: None,
            sequence: 0,
            window: Seq::empty(),
            longest: 0,
            finished: false,
        }
    }

    /// True if the open segment holds anything.
    pub open spec fn has_samples(self) -> bool {
        self.video.len() > 0 || self.sound.len() > 0
    }

    /// Span of the open segment in milliseconds (0 when empty).
    pub open spec fn span(self) -> int {
        match self.seg_start {
            None => 0,
            Some(start) => {
                let v = if self.video.len() > 0 {
                    larger(start, self.video.last().dts)
                } else {
                    start
                };
                let a = if self.sound.len() > 0 {
                    larger(v, self.sound.last().dts)
                } else {
                    v
                };
                a - start
            },
        }
    }

    /// True if the open segment spans the target duration.
    pub open spec fn full(self, cfg: ConfigView) -> bool {
        self.has_samples() && self.span() >= cfg.target * 1000
    }

    /// The output once codec configurations are known: the first ones stay.
    pub open spec fn with_codecs(self, avcc: Option<Seq<u8>>, asc: Option<Seq<u8>>) -> HlsView {
        HlsView {
            avcc: if self.avcc is Some {
                self.avcc
            } else {
                avcc
            },
            audio: if self.audio is Some {
                self.audio
            } else {
                match asc {
                    Some(a) => audio_params(a),
                    None => None,
                }
            },
            ..self
        }
    }

    /// The output with one more video sample in the open segment.
    pub open spec fn with_video_sample(self, dts: int, p: PacketView) -> HlsView {
        HlsView {
            seg_start: Some(
                match self.seg_start {
                    Some(s) => s,
                    None => dts,
                },
            ),
            video: self.video.push(
                PendingView {
                    payload: length_prefixed(annex_b_units(p.data)),
                    dts,
                    cts: clamp_i64(p.pts - p.dts),
                    is_sync: p.is_key,
                },
            ),
            ..self
        }
    }

    /// The output with one more audio sample in the open segment.
    pub open spec fn with_audio_sample(self, dts: int, p: PacketView) -> HlsView {
        HlsView {
            seg_start: Some(
                match self.seg_start {
                    Some(s) => s,
                    None => dts,
                },
            ),
            sound: self.sound.push(
                PendingView { payload: adts_payload(p.data), dts, cts: 0, is_sync: true },
            ),
            ..self
        }
    }

    /// The output once it has looked at a packet: configurations are sniffed,
    /// and media starts with a keyframe, or with audio where there is no video.
    pub open spec fn noticed(self, p: PacketView) -> HlsView {
        match p.kind {
            MediaKind::Video => {
                let known = HlsView {
                    saw_video: true,
                    avcc: if self.avcc is Some {
                        self.avcc
                    } else {
                        video_config_in(p.data)
                    },
                    ..self
                };
                HlsView {
                    started: self.started || (known.avcc is Some && !(self.init
                        && !self.init_video) && p.is_key),
                    ..known
                }
            },
            MediaKind::Audio => {
                let known = HlsView {
                    audio: if self.audio is Some {
                        self.audio
                    } else {
                        match audio_config_in(p.data) {
                            Some(asc) => audio_params(asc),
                            None => None,
                        }
                    },
                    ..self
                };
                HlsView {
                    started: self.started || (known.audio is Some && !(self.init
                        && !self.init_audio) && !self.saw_video),
                    ..known
                }
            },
        }
    }

    /// True if a packet goes into a segment: its track is configured, is not
    /// one that appeared after the init segment, and media flows.
    pub open spec fn takes(self, p: PacketView) -> bool {
        let n = self.noticed(p);
        n.started && match p.kind {
            MediaKind::Video => n.avcc is Some && !(self.init && !self.init_video),
            MediaKind::Audio => n.audio is Some && !(self.init && !self.init_audio),
        }
    }

    /// True if a packet that is taken closes the open segment first: a keyframe
    /// does, and in an audio-only stream every packet, once the target duration
    /// is spanned.
    pub open spec fn cuts(self, p: PacketView, cfg: ConfigView) -> bool {
        (match p.kind {
            MediaKind::Video => p.is_key,
            MediaKind::Audio => !self.noticed(p).saw_video,
        }) && self.full(cfg)
    }
}

/// Milliseconds in ticks of a timescale; earlier times count as zero.
pub open spec fn ticks(ms: int, timescale: u32) -> int {
    clamp_u64(larger(ms, 0) * timescale) / 1000
}

/// How long after the `i`-th sample the next one follows.
pub open spec fn gap(s: Seq<PendingView>, i: int) -> int {
    if i + 1 < s.len() {
        larger(s[i + 1].dts - s[i].dts, 0)
    } else {
        DEFAULT_VIDEO_FRAME_MS as int
    }
}

/// The smaller of two numbers.
pub open spec fn smaller(a: int, b: int) -> int {
    if a < b {
        a
    } else {
        b
    }
}

/// The `i`-th video sample as it is written.
pub open spec fn video_sample(s: Seq<PendingView>, i: int) -> SampleView {
    SampleView {
        duration: smaller(ticks(gap(s, i), 90_000), u32::MAX as int) as u32,
        payload: s[i].payload,
        flags: flags_of(
            if s[i].is_sync {
                2
            } else {
                1
            },
            s[i].is_sync,
        ),
        composition_offset: ((s[i].cts * 90) % 0x1_0000_0000) as u32,
    }
}

/// The video samples as they are written.
pub open spec fn video_run(s: Seq<PendingView>) -> Seq<SampleView> {
    Seq::new(s.len(), |i: int| video_sample(s, i))
}

/// The audio samples as they are written.
pub open spec fn audio_run(s: Seq<PendingView>) -> Seq<SampleView> {
    Seq::new(
        s.len(),
        |i: int|
            SampleView {
                duration: AAC_FRAME_SAMPLES,
                payload: s[i].payload,
                flags: flags_of(2, true),
                composition_offset: 0,
            },
    )
}

/// The ticks that samples take together.
pub open spec fn total_ticks(s: Seq<SampleView>) -> int
    decreases s.len(),
{
    if s.len() == 0 {
        0
    } else {
        total_ticks(s.drop_last()) + s.last().duration
    }
}

/// Where a fragment starts: on the grid of the ones before it, but never before
/// its own time.
pub open spec fn base_tick(next: Option<u64>, own: int) -> int {
    match next {
        Some(t) => larger(t as int, own),
        None => own,
    }
}

/// Milliseconds that an AAC frame lasts.
pub open spec fn frame_ms(audio: Option<AudioView>) -> int {
    match audio {
        Some(a) => if a.sample_rate > 0 {
            1_024_000int / a.sample_rate as int
        } else {
            23
        },
        None => 23,
    }
}

/// The timescale of the audio track.
pub open spec fn audio_timescale(audio: Option<AudioView>) -> u32 {
    match audio {
        Some(a) => a.sample_rate,
        None => 0,
    }
}

/// The latest of some times, and of `floor`.
pub open spec fn latest(ends: Seq<int>, floor: int) -> int
    decreases ends.len(),
{
    if ends.len() == 0 {
        floor
    } else {
        larger(latest(ends.drop_last(), floor), ends.last())
    }
}

impl HlsView {
    /// The open segment's video fragment.
    pub open spec fn video_fragment(self) -> FragmentView {
        FragmentView {
            track_id: VIDEO_TRACK_ID,
            base_decode_time: base_tick(
                self.video_next,
                ticks(self.video[0].dts, 90_000),
            ) as u64,
            samples: video_run(self.video),
        }
    }

    /// The open segment's audio fragment.
    pub open spec fn audio_fragment(self) -> FragmentView {
        FragmentView {
            track_id: AUDIO_TRACK_ID,
            base_decode_time: base_tick(
                self.audio_next,
                ticks(self.sound[0].dts, audio_timescale(self.audio)),
            ) as u64,
            samples: audio_run(self.sound),
        }
    }

    /// The open segment's fragments.
    pub open spec fn fragments(self) -> Seq<FragmentView> {
        (if self.video.len() > 0 {
            seq![self.video_fragment()]
        } else {
            Seq::empty()
        }) + (if self.sound.len() > 0 {
            seq![self.audio_fragment()]
        } else {
            Seq::empty()
        })
    }

    /// When the open segment ends.
    pub open spec fn seg_end(self) -> int {
        let start = match self.seg_start {
            Some(s) => s,
            None => 0,
        };
        latest(
            Seq::new(self.sound.len(), |i: int| self.sound[i].dts + frame_ms(self.audio)),
            latest(
                Seq::new(self.video.len(), |i: int| self.video[i].dts + gap(self.video, i)),
                start,
            ),
        )
    }

    /// How long the open segment lasts, in milliseconds.
    pub open spec fn duration(self) -> u64 {
        clamp_u64(
            self.seg_end() - match self.seg_start {
                Some(s) => s,
                None => self.seg_end(),
            },
        ) as u64
    }

    /// The video track of the initialization segment.
    pub open spec fn video_track(self) -> Option<VideoTrackView> {
        match self.avcc {
            Some(avcc) => {
                let size = match avcc_sets(avcc) {
                    Some((sps, pps)) => match sps_dimensions(sps) {
                        Some(s) => s,
                        None => (0u32, 0u32),
                    },
                    None => (0u32, 0u32),
                };
                Some(VideoTrackView { avcc, width: size.0, height: size.1 })
            },
            None => None,
        }
    }

    /// The audio track of the initialization segment.
    pub open spec fn audio_track(self, cfg: ConfigView) -> Option<AudioTrackView> {
        match self.audio {
            Some(a) => Some(
                AudioTrackView {
                    asc: a.asc,
                    sample_rate: a.sample_rate,
                    channels: a.channels,
                    bitrate: cfg.audio_bitrate,
                },
            ),
            None => None,
        }
    }

    /// The output once its initialization segment is out.
    pub open spec fn begun(self) -> HlsView {
        if self.init {
            self
        } else {
            HlsView {
                init: true,
                init_video: self.avcc is Some,
                init_audio: self.audio is Some,
                ..self
            }
        }
    }

    /// The name of the open segment.
    pub open spec fn segment_name(self, cfg: ConfigView) -> Seq<char> {
        cfg.prefix + decimal(self.sequence as nat) + ".m4s"@
    }

    /// The output once the open segment is sealed, before the window moves.
    pub open spec fn sealed(self, cfg: ConfigView) -> HlsView {
        HlsView {
            video_next: if self.video.len() > 0 {
                Some(
                    clamp_u64(
                        self.video_fragment().base_decode_time + total_ticks(
                            video_run(self.video),
                        ),
                    ) as u64,
                )
            } else {
                self.video_next
            },
            audio_next: if self.sound.len() > 0 {
                Some(
                    clamp_u64(
                        self.audio_fragment().base_decode_time + AAC_FRAME_SAMPLES
                            * self.sound.len(),
                    ) as u64,
                )
            } else {
                self.audio_next
            },
            video: Seq::empty(),
            sound: Seq::empty(),
            seg_start: None,
            sequence: self.sequence.wrapping_add(1),
            longest: larger(self.longest as int, self.duration() as int) as u64,
            window: self.window.push((self.segment_name(cfg), self.duration())),
            ..self
        }
    }
}

impl HlsView {
    /// The output when the open segment could not be stored: its samples are
    /// gone and the grids have moved on, but no segment was added.
    pub open spec fn spilled(self, cfg: ConfigView) -> HlsView {
        HlsView {
            seg_start: self.seg_start,
            sequence: self.sequence,
            longest: self.longest,
            window: self.window,
            ..self.sealed(cfg)
        }
    }

    /// The names of the segments that fall out of the window when the open
    /// segment is closed.
    pub open spec fn leaving(self, cfg: ConfigView) -> Set<Seq<char>> {
        retired(
            self.window.push((self.segment_name(cfg), self.duration())),
            window_size(cfg),
        )
    }
}

/// The names of the segments that do not fit the window.
pub open spec fn retired(window: Seq<(Seq<char>, u64)>, keep: nat) -> Set<Seq<char>> {
    Set::new(
        |name: Seq<char>|
            exists|i: int| 0 <= i < window.len() - keep && (#[trigger] window[i]).0 == name,
    )
}

/// True if two sets of files differ in these names at most.
pub open spec fn same_but(
    a: Map<Seq<char>, Seq<u8>>,
    b: Map<Seq<char>, Seq<u8>>,
    names: Set<Seq<char>>,
) -> bool {
    a.remove_keys(names) == b.remove_keys(names)
}

/// How many segments the playlist keeps, at least one.
pub open spec fn window_size(cfg: ConfigView) -> nat {
    if cfg.window >= 1 {
        cfg.window as nat
    } else {
        1
    }
}

/// The files once the segments that fell out of the window are gone.
pub open spec fn pruned(
    window: Seq<(Seq<char>, u64)>,
    files: Map<Seq<char>, Seq<u8>>,
    keep: nat,
) -> Map<Seq<char>, Seq<u8>>
    decreases window.len(),
{
    if window.len() > keep && window.len() > 0 {
        pruned(window.drop_first(), files.remove(window.first().0), keep)
    } else {
        files
    }
}

/// The newest entries of the window.
pub open spec fn newest(window: Seq<(Seq<char>, u64)>, keep: nat) -> Seq<(Seq<char>, u64)> {
    if window.len() > keep {
        window.skip(window.len() - keep)
    } else {
        window
    }
}

/// The playlist's entries.
pub open spec fn entries(window: Seq<(Seq<char>, u64)>) -> Seq<char>
    decreases window.len(),
{
    if window.len() == 0 {
        Seq::empty()
    } else {
        entries(window.drop_last()) + "#EXTINF:"@ + decimal((window.last().1 / 1000) as nat)
            + "."@ + three_digits((window.last().1 % 1000) as int) + ",\n"@ + window.last().0
            + "\n"@
    }
}

/// The target duration to announce: no segment is longer.
pub open spec fn target_duration(cfg: ConfigView, longest: u64) -> int {
    let secs = larger((longest + 999) / 1000, 1);
    smaller(larger(cfg.target as int, secs), u32::MAX as int)
}

/// The media playlist.
#[verifier::opaque]
pub open spec fn playlist(cfg: ConfigView, v: HlsView, finished: bool) -> Seq<char> {
    "#EXTM3U\n"@ + "#EXT-X-VERSION:7\n"@ + "#EXT-X-TARGETDURATION:"@ + decimal(
        target_duration(cfg, v.longest) as nat,
    ) + "\n"@ + "#EXT-X-MEDIA-SEQUENCE:"@ + decimal(
        larger(v.sequence - v.window.len(), 0) as nat,
    ) + "\n"@ + "#EXT-X-INDEPENDENT-SEGMENTS\n"@ + "#EXT-X-MAP:URI=\""@ + cfg.init_name + "\"\n"@
        + entries(v.window) + (if finished {
        "#EXT-X-ENDLIST\n"@
    } else {
        Seq::empty()
    })
}

/// True of the failure to close a segment for want of a track.
pub open spec fn no_config(r: Result<(), IoError>) -> bool {
    r matches Err(e) && e.kind == IoErrorKind::Other && e.message@
        == "hls: no codec config for init segment"@
}

/// An output and the files it has written.
#[verifier::ext_equal]
pub struct Published {
    /// The output.
    pub view: HlsView,
    /// The files.
    pub files: Map<Seq<char>, Seq<u8>>,
}

impl Published {
    /// The files with the playlist (re)written.
    pub open spec fn listed(self, cfg: ConfigView, finished: bool) -> Published {
        Published {
            files: self.files.insert(
                cfg.playlist_name,
                encode_utf8(playlist(cfg, self.view, finished)),
            ),
            ..self
        }
    }

    /// The files with the initialization segment written.
    pub open spec fn initialized(self, cfg: ConfigView) -> Published {
        if self.view.init {
            self
        } else {
            Published {
                view: self.view.begun(),
                files: self.files.insert(
                    cfg.init_name,
                    init_bytes(self.view.video_track(), self.view.audio_track(cfg)),
                ),
            }
        }
    }

    /// True if there is no track to initialize.
    pub open spec fn unconfigured(self) -> bool {
        !self.view.init && self.view.avcc is None && self.view.audio is None
    }

    /// The open segment sealed: it is stored, and the playlist rolls on.
    pub open spec fn rolled(self, cfg: ConfigView) -> Published {
        let ready = self.initialized(cfg);
        let sealed = ready.view.sealed(cfg);
        Published {
            view: HlsView { window: newest(sealed.window, window_size(cfg)), ..sealed },
            files: pruned(
                sealed.window,
                ready.files.insert(
                    ready.view.segment_name(cfg),
                    segment_bytes(ready.view.sequence, ready.view.fragments()),
                ),
                window_size(cfg),
            ),
        }.listed(cfg, false)
    }

    /// The open segment closed, if it holds anything; `None` where there is no
    /// track to initialize.
    pub open spec fn closed(self, cfg: ConfigView) -> Option<Published> {
        if !self.view.has_samples() {
            Some(self)
        } else if self.unconfigured() {
            None
        } else {
            Some(self.rolled(cfg))
        }
    }

    /// True if `now` is this output once closing the open segment failed in the
    /// storage: at the initialization segment, at the segment, or at the
    /// playlist. Only then has the segment been added to the window.
    pub open spec fn close_failed(self, cfg: ConfigView, now: Published) -> bool {
        let ready = self.initialized(cfg);
        let over = self.rolled(cfg);
        ||| !self.view.init && now.view == self.view && same_but(
            now.files,
            self.files,
            set![cfg.init_name],
        )
        ||| now.view == ready.view.spilled(cfg) && same_but(
            now.files,
            ready.files,
            set![ready.view.segment_name(cfg)],
        )
        ||| now.view == over.view && same_but(
            now.files,
            over.files,
            ready.view.leaving(cfg).insert(cfg.playlist_name),
        )
    }

    /// True if `now` is this output once the open segment has been closed, which
    /// was reported as `r`. A segment that fell out of the window and could not
    /// be removed is left behind. Without a track to initialize, the storage is
    /// not even asked.
    pub open spec fn closing(
        self,
        cfg: ConfigView,
        now: Published,
        r: Result<(), IoError>,
    ) -> bool {
        match self.closed(cfg) {
            None => no_config(r) && now == self,
            Some(over) => match r {
                Ok(()) => now.view == over.view && if self.view.has_samples() {
                    same_but(now.files, over.files, self.initialized(cfg).view.leaving(cfg))
                } else {
                    now.files == self.files
                },
                Err(_) => self.view.has_samples() && self.close_failed(cfg, now),
            },
        }
    }

    /// The output behind what a packet that is taken does before its sample is
    /// added.
    pub open spec fn timed(self, p: PacketView) -> Published {
        Published {
            view: HlsView { time: self.view.time.behind(p.dts), ..self.view.noticed(p) },
            ..self
        }
    }

    /// The output with the sample of a packet added.
    pub open spec fn with_sample(self, dts: int, p: PacketView) -> Published {
        Published {
            view: match p.kind {
                MediaKind::Video => self.view.with_video_sample(dts, p),
                MediaKind::Audio => self.view.with_audio_sample(dts, p),
            },
            ..self
        }
    }

    /// True if `now` is this output behind a packet that was reported as `r`. A
    /// packet whose cut fails is lost.
    pub open spec fn packeted(
        self,
        cfg: ConfigView,
        p: PacketView,
        now: Published,
        r: Result<(), IoError>,
    ) -> bool {
        if self.view.takes(p) && !self.view.finished && self.view.cuts(p, cfg) {
            let dts = self.view.time.normalized(p.dts);
            match r {
                Ok(()) => exists|cut: Published| #[trigger]
                    self.timed(p).closing(cfg, cut, r) && now == cut.with_sample(dts, p),
                Err(_) => self.timed(p).closing(cfg, now, r),
            }
        } else {
            r is Ok && self.with_packet(cfg, p) == Some(now)
        }
    }

    /// True if `now` is this output at its end, which was reported as `r`.
    pub open spec fn finishing(
        self,
        cfg: ConfigView,
        now: Published,
        r: Result<(), IoError>,
    ) -> bool {
        let last = Published { view: HlsView { finished: true, ..self.view }, ..self };
        if self.view.finished {
            r is Ok && now == self
        } else {
            ||| r is Err && last.closing(cfg, now, r)
            ||| exists|over: Published| #[trigger]
                last.closing(cfg, over, Ok(())) && now.view == over.view && match r {
                    Ok(()) => now == over.listed(cfg, true),
                    Err(_) => same_but(now.files, over.files, set![cfg.playlist_name]),
                }
        }
    }

    /// The output behind a packet; `None` where a segment could not be closed.
    pub open spec fn with_packet(self, cfg: ConfigView, p: PacketView) -> Option<Published> {
        let noticed = Published { view: self.view.noticed(p), ..self };
        if self.view.finished {
            Some(self)
        } else if !self.view.takes(p) {
            Some(noticed)
        } else {
            let dts = self.view.time.normalized(p.dts);
            let timed = Published {
                view: HlsView { time: self.view.time.behind(p.dts), ..noticed.view },
                ..noticed
            };
            let ready = if self.view.cuts(p, cfg) {
                timed.closed(cfg)
            } else {
                Some(timed)
            };
            match ready {
                None => None,
                Some(r) => Some(
                    Published {
                        view: match p.kind {
                            MediaKind::Video => r.view.with_video_sample(dts, p),
                            MediaKind::Audio => r.view.with_audio_sample(dts, p),
                        },
                        ..r
                    },
                ),
            }
        }
    }

    /// The output at its end; `None` where the last segment could not be closed.
    pub open spec fn ended(self, cfg: ConfigView) -> Option<Published> {
        if self.view.finished {
            Some(self)
        } else {
            let last = Published { view: HlsView { finished: true, ..self.view }, ..self };
            match last.closed(cfg) {
                Some(c) => Some(c.listed(cfg, true)),
                None => None,
            }
        }
    }
}

// ---------------------------------------------------------------------------
// Carrying it out
// ---------------------------------------------------------------------------

/// Decoded AAC track parameters derived from the `AudioSpecificConfig`.
#[derive(Debug)]
struct AudioParams {
    asc: Vec<u8>,
    sample_rate: u32,
    channels: u8,
}

impl View for AudioParams {
    type V = AudioView;

    closed spec fn view(&self) -> AudioView {
        AudioView { asc: self.asc@, sample_rate: self.sample_rate, channels: self.channels }
    }
}

spec fn opt_params(a: Option<AudioParams>) -> Option<AudioView> {
    match a {
        Some(p) => Some(p@),
        None => None,
    }
}

fn parse_audio_params(asc: &[u8]) -> (params: Option<AudioParams>)
    ensures
        opt_params(params) == audio_params(asc@),
{
    match aac::parse_asc(asc) {
        None => None,
        Some(parsed) => {
            let index: usize = parsed.sampling_frequency_index as usize;
            if index >= 13 {
                return None;
            }
            let params = AudioParams {
                asc: bytes::copy_of(asc),
                sample_rate: SAMPLE_RATES[index],
                channels: if parsed.channel_config > 0 {
                    parsed.channel_config
                } else {
                    1
                },
            };
            Some(params)
        },
    }
}

/// One sample waiting to be written into the current segment.
#[derive(Debug)]
struct PendingSample {
    payload: Vec<u8>,
    /// Normalized decode time in milliseconds.
    dts: i64,
    /// Composition offset (PTS − DTS) in milliseconds.
    cts: i64,
    /// Keyframe / sync sample.
    is_sync: bool,
}

impl View for PendingSample {
    type V = PendingView;

    closed spec fn view(&self) -> PendingView {
        PendingView {
            payload: self.payload@,
            dts: self.dts as int,
            cts: self.cts as int,
            is_sync: self.is_sync,
        }
    }
}

spec fn pending(s: Seq<PendingSample>) -> Seq<PendingView> {
    s.map_values(|x: PendingSample| x@)
}

/// Stream time normalization — the same discipline as the FLV muxer: first DTS
/// becomes 0, small backward slips clamp, jumps beyond the tolerance re-anchor.
#[derive(Debug)]
pub struct Timebase {
    origin: Option<i64>,
    last_dts: i64,
}

impl View for Timebase {
    type V = TimebaseView;

    closed spec fn view(&self) -> TimebaseView {
        TimebaseView {
            origin: match self.origin {
                Some(o) => Some(o as int),
                None => None,
            },
            last: self.last_dts as int,
        }
    }
}

/// A wide number, held to the range of a signed 64-bit one.
fn narrow(x: i128) -> (y: i64)
    ensures
        y == clamp_i64(x as int),
{
    if x < i64::MIN as i128 {
        i64::MIN
    } else if x > i64::MAX as i128 {
        i64::MAX
    } else {
        x as i64
    }
}

impl Timebase {
    /// A timebase that has seen nothing yet.
    pub fn new() -> (t: Self)
        ensures
            t@ == (TimebaseView { origin: None, last: i64::MIN as int }),
    {
        Timebase { origin: None, last_dts: i64::MIN }
    }

    /// True if the capture clock jumped back to `dts`.
    pub fn jumps(&self, dts: i64) -> (jumps: bool)
        ensures
            jumps == self@.jumped(dts as int),
    {
        let origin: i64 = match self.origin {
            Some(o) => o,
            None => dts,
        };
        let ts: i64 = narrow(dts as i128 - origin as i128);
        self.last_dts as i128 - ts as i128 > REORDER_TOLERANCE_MS as i128
    }

    /// The timestamp for `dts` on this timebase.
    pub fn normalize(&mut self, dts: i64) -> (ts: i64)
        ensures
            ts == old(self)@.normalized(dts as int),
            final(self)@ == old(self)@.behind(dts as int),
    {
        let origin: i64 = match self.origin {
            Some(o) => o,
            None => dts,
        };
        let mut ts: i64 = narrow(dts as i128 - origin as i128);
        let reached: i64 = if self.last_dts > 0 {
            self.last_dts
        } else {
            0
        };
        if self.last_dts as i128 - ts as i128 > REORDER_TOLERANCE_MS as i128 {
            // Capture clock jump: continue the series from the high-water mark
            // instead of emitting backward timestamps.
            self.origin = Some(narrow(dts as i128 - reached as i128));
            ts = reached;
        } else {
            self.origin = Some(origin);
            if ts < self.last_dts {
                ts = self.last_dts;
            }
        }
        self.last_dts = ts;
        ts
    }
}

/// Milliseconds → ticks in a timescale.
fn to_ticks(ms: i128, timescale: u32) -> (n: u64)
    requires
        ms <= 0x1_0000_0000_0000_0000,
    ensures
        n == ticks(ms as int, timescale),
{
    if ms <= 0 {
        assert(0 * timescale == 0);
        return 0;
    }
    proof {
        assert(ms * timescale <= 0x1_0000_0000_0000_0000 * 0xFFFF_FFFF) by (nonlinear_arith)
            requires
                0 < ms <= 0x1_0000_0000_0000_0000,
                0 <= timescale <= 0xFFFF_FFFF,
        ;
        assert(ms * timescale >= 0) by (nonlinear_arith)
            requires
                0 < ms,
                0 <= timescale,
        ;
    }
    let wide: u128 = ms as u128 * timescale as u128;
    if wide > u64::MAX as u128 {
        u64::MAX / 1000
    } else {
        wide as u64 / 1000
    }
}

/// Segments a live stream into HLS fMP4 files. Feed it through the engine
/// ([`crate::engine::Engine::attach_output`]) or directly via [`PacketSink`].
pub struct HlsOutput<S: HlsStorage> {
    cfg: HlsConfig,
    storage: S,
    timebase: Timebase,
    avcc: Option<Vec<u8>>,
    audio: Option<AudioParams>,
    init_written: bool,
    init_has_video: bool,
    init_has_audio: bool,
    /// Saw any video ever (decides whether audio waits for a keyframe start).
    saw_video: bool,
    /// The first segment is open: media flows from the first keyframe on.
    started: bool,
    video_samples: Vec<PendingSample>,
    audio_samples: Vec<PendingSample>,
    /// Normalized DTS of the current segment's first sample.
    seg_start: Option<i64>,
    /// Next free video tick (90 kHz) on the exact sample grid. Segment bases
    /// continue this grid so consecutive fragments stay gap- and overlap-free
    /// despite millisecond quantization; a real timestamp jump (packet loss,
    /// clock rebase) still wins via the ms-derived floor.
    video_next_tick: Option<u64>,
    /// Same idea for audio ticks (track timescale = sample rate).
    audio_next_tick: Option<u64>,
    sequence: u32,
    window: Vec<(String, u64)>,
    longest_ms: u64,
    finished: bool,
    log: Ghost<Seq<SinkCall>>,
    warned: Warned,
    /// The log records that wait to be delivered.
    book: LogBook,
}

/// Conditions worth logging once (not per packet).
#[derive(Debug, Clone, Copy, PartialEq, Eq, Structural)]
pub struct Warned {
    /// Video came without a configuration.
    pub no_video_config: bool,
    /// Audio came without a configuration.
    pub no_audio_config: bool,
    /// Video came before the first keyframe.
    pub before_first_key: bool,
    /// A track appeared behind the initialization segment.
    pub track_not_in_init: bool,
    /// The video configuration changed behind the initialization segment.
    pub config_changed: bool,
}

/// What an output has logged: the conditions that are not logged again, and the
/// records that wait.
#[verifier::ext_equal]
pub struct HlsLog {
    /// Conditions that have been logged.
    pub warned: Warned,
    /// The records.
    pub book: BookView,
}

impl HlsLog {
    /// With one more record.
    pub open spec fn noted(self, level: Level, message: Seq<char>) -> HlsLog {
        HlsLog { book: self.book.noted(level, "stream::hls"@, message, Seq::empty()), ..self }
    }

    /// The log once `p` has come to an output in state `v`, before a segment is
    /// closed for it. Why a packet is not taken is logged once for each reason;
    /// a jump of the clock is logged each time.
    pub open spec fn seeing(self, v: HlsView, p: PacketView) -> HlsLog {
        let n = v.noticed(p);
        let unknown = match p.kind {
            MediaKind::Video => n.avcc is None,
            MediaKind::Audio => n.audio is None,
        };
        let absent = v.init && match p.kind {
            MediaKind::Video => !v.init_video,
            MediaKind::Audio => !v.init_audio,
        };
        let w = self.warned;
        if unknown {
            match p.kind {
                MediaKind::Video => if w.no_video_config {
                    self
                } else {
                    HlsLog { warned: Warned { no_video_config: true, ..w }, ..self }.noted(
                        Level::Warn,
                        "hls waiting for video config"@,
                    )
                },
                MediaKind::Audio => if w.no_audio_config {
                    self
                } else {
                    HlsLog { warned: Warned { no_audio_config: true, ..w }, ..self }.noted(
                        Level::Warn,
                        "hls waiting for audio config"@,
                    )
                },
            }
        } else if absent {
            if w.track_not_in_init {
                self
            } else {
                HlsLog { warned: Warned { track_not_in_init: true, ..w }, ..self }.noted(
                    Level::Warn,
                    "hls track appeared after the init segment; dropping it"@,
                )
            }
        } else if !n.started {
            if p.kind == MediaKind::Audio || w.before_first_key {
                self
            } else {
                HlsLog { warned: Warned { before_first_key: true, ..w }, ..self }.noted(
                    Level::Debug,
                    "hls waiting for first keyframe"@,
                )
            }
        } else if v.time.jumped(p.dts) {
            HlsLog {
                book: self.book.noted(
                    Level::Warn,
                    "stream::hls"@,
                    "hls clock rebase"@,
                    seq![("dts"@, FieldView::Int(p.dts as i64))],
                ),
                ..self
            }
        } else {
            self
        }
    }

    /// The log once an output in state `v` has been told of a video
    /// configuration.
    pub open spec fn told(self, v: HlsView, avcc: Option<Seq<u8>>) -> HlsLog {
        if avcc is Some && v.init && v.avcc != avcc && !self.warned.config_changed {
            HlsLog { warned: Warned { config_changed: true, ..self.warned }, ..self }.noted(
                Level::Warn,
                "hls video config changed mid-stream; keeping the original init"@,
            )
        } else {
            self
        }
    }

    /// True if `next` is this log once segments have left the window: those that
    /// could not be removed are logged, at most `n`.
    pub open spec fn swept(self, next: HlsLog, n: nat) -> bool {
        &&& next.warned == self.warned
        &&& self.book.grown(next.book)
        &&& next.book.records.len() <= self.book.records.len() + n
        &&& forall|i: int|
            self.book.records.len() <= i < next.book.records.len() ==> (
            #[trigger] next.book.records[i]).level == Level::Warn && next.book.records[i].module
                == "stream::hls"@ && next.book.records[i].message
                == "hls failed to remove old segment"@
    }
}

spec fn window_view(w: Seq<(String, u64)>) -> Seq<(Seq<char>, u64)> {
    w.map_values(|x: (String, u64)| (x.0@, x.1))
}

impl<S: HlsStorage> View for HlsOutput<S> {
    type V = HlsView;

    closed spec fn view(&self) -> HlsView {
        HlsView {
            time: self.timebase@,
            avcc: opt_bytes(self.avcc),
            audio: opt_params(self.audio),
            init: self.init_written,
            init_video: self.init_has_video,
            init_audio: self.init_has_audio,
            saw_video: self.saw_video,
            started: self.started,
            video: pending(self.video_samples@),
            sound: pending(self.audio_samples@),
            seg_start: match self.seg_start {
                Some(s) => Some(s as int),
                None => None,
            },
            video_next: self.video_next_tick,
            audio_next: self.audio_next_tick,
            sequence: self.sequence,
            window: window_view(self.window@),
            longest: self.longest_ms,
            finished: self.finished,
        }
    }
}

/// The video samples of a segment as they are written, and when they end.
fn video_samples_of(samples: &Vec<PendingSample>, floor: i128) -> (r: (
    Vec<FragmentSample>,
    u128,
    i128,
))
    requires
        i64::MIN <= floor <= i64::MAX,
    ensures
        ({
            let s = pending(samples@);
            &&& sample_views(r.0@) == video_run(s)
            &&& r.1 == total_ticks(video_run(s))
            &&& r.2 == latest(
                Seq::new(s.len(), |i: int| s[i].dts + gap(s, i)),
                floor as int,
            )
            &&& i64::MIN <= r.2 <= 0x1_8000_0000_0000_0000
            &&& r.1 <= samples@.len() * u32::MAX
        }),
{
    let ghost s = pending(samples@);
    let ghost run = video_run(s);
    let ghost ends = Seq::new(s.len(), |i: int| s[i].dts + gap(s, i));
    let n: usize = samples.len();
    let mut out: Vec<FragmentSample> = Vec::new();
    let mut span: u128 = 0;
    let mut end: i128 = floor;
    let mut i: usize = 0;
    proof {
        assert(run.take(0) =~= Seq::<SampleView>::empty());
        assert(ends.take(0) =~= Seq::<int>::empty());
        assert(sample_views(out@) =~= run.take(0));
    }
    while i < n
        invariant
            i <= n == samples@.len(),
            s == pending(samples@),
            run == video_run(s),
            ends == Seq::new(s.len(), |i: int| s[i].dts + gap(s, i)),
            i64::MIN <= floor <= i64::MAX,
            sample_views(out@) == run.take(i as int),
            span == total_ticks(run.take(i as int)),
            span <= i * u32::MAX,
            end == latest(ends.take(i as int), floor as int),
            i64::MIN <= end <= 0x1_8000_0000_0000_0000,
        decreases n - i,
    {
        let dts: i64 = samples[i].dts;
        let next: i128 = if i + 1 < n {
            let wide: i128 = samples[i + 1].dts as i128 - dts as i128;
            if wide > 0 {
                wide
            } else {
                0
            }
        } else {
            DEFAULT_VIDEO_FRAME_MS as i128
        };
        assert(s[i as int].dts == dts);
        assert(next == gap(s, i as int)) by {
            if i + 1 < n {
                assert(s[i + 1].dts == samples@[i + 1].dts);
            }
        }
        if dts as i128 + next > end {
            end = dts as i128 + next;
        }
        let ticks: u64 = to_ticks(next, 90_000);
        let duration: u32 = if ticks > u32::MAX as u64 {
            u32::MAX
        } else {
            ticks as u32
        };
        let is_sync: bool = samples[i].is_sync;
        let offset: i128 = samples[i].cts as i128 * 90;
        let low: i128 = if offset >= 0 {
            offset % 0x1_0000_0000
        } else {
            let back: i128 = (-offset) % 0x1_0000_0000;
            if back == 0 {
                0
            } else {
                0x1_0000_0000 - back
            }
        };
        proof {
            lemma_low(offset as int, low as int);
        }
        let sample = FragmentSample {
            duration,
            payload: bytes::copy_of(samples[i].payload.as_slice()),
            flags: sample_flags(
                if is_sync {
                    2
                } else {
                    1
                },
                is_sync,
            ),
            composition_offset: low as u32,
        };
        assert(sample@ == video_sample(s, i as int));
        let ghost before = out@;
        out.push(sample);
        span = span + duration as u128;
        proof {
            assert(sample_views(out@) =~= sample_views(before).push(sample@));
            assert(run.take(i + 1) =~= run.take(i as int).push(run[i as int]));
            assert(run.take(i + 1).drop_last() =~= run.take(i as int));
            assert(ends.take(i + 1).drop_last() =~= ends.take(i as int));
            assert(ends.take(i + 1).last() == ends[i as int]);
        }
        i = i + 1;
    }
    assert(run.take(n as int) =~= run);
    assert(ends.take(n as int) =~= ends);
    (out, span, end)
}

proof fn lemma_low(x: int, low: int)
    requires
        x >= 0 ==> low == x % 0x1_0000_0000,
        x < 0 ==> low == if (-x) % 0x1_0000_0000 == 0 {
            0
        } else {
            0x1_0000_0000 - (-x) % 0x1_0000_0000
        },
    ensures
        low == x % 0x1_0000_0000,
        0 <= low < 0x1_0000_0000,
{
}

/// The audio samples of a segment as they are written, and when they end.
fn audio_samples_of(samples: &Vec<PendingSample>, frame: i128, floor: i128) -> (r: (
    Vec<FragmentSample>,
    i128,
))
    requires
        i64::MIN <= floor <= 0x1_8000_0000_0000_0000,
        0 <= frame <= 1_024_000,
    ensures
        ({
            let s = pending(samples@);
            &&& sample_views(r.0@) == audio_run(s)
            &&& r.1 == latest(
                Seq::new(s.len(), |i: int| s[i].dts + frame),
                floor as int,
            )
            &&& i64::MIN <= r.1 <= 0x1_8000_0000_0000_0000
        }),
{
    let ghost s = pending(samples@);
    let ghost run = audio_run(s);
    let ghost ends = Seq::new(s.len(), |i: int| s[i].dts + frame);
    let n: usize = samples.len();
    let mut out: Vec<FragmentSample> = Vec::new();
    let mut end: i128 = floor;
    let mut i: usize = 0;
    proof {
        assert(run.take(0) =~= Seq::<SampleView>::empty());
        assert(ends.take(0) =~= Seq::<int>::empty());
        assert(sample_views(out@) =~= run.take(0));
    }
    while i < n
        invariant
            i <= n == samples@.len(),
            s == pending(samples@),
            run == audio_run(s),
            ends == Seq::new(s.len(), |i: int| s[i].dts + frame),
            0 <= frame <= 1_024_000,
            sample_views(out@) == run.take(i as int),
            end == latest(ends.take(i as int), floor as int),
            i64::MIN <= end <= 0x1_8000_0000_0000_0000,
        decreases n - i,
    {
        let dts: i64 = samples[i].dts;
        assert(s[i as int].dts == dts);
        if dts as i128 + frame > end {
            end = dts as i128 + frame;
        }
        let sample = FragmentSample {
            duration: AAC_FRAME_SAMPLES,
            payload: bytes::copy_of(samples[i].payload.as_slice()),
            flags: sample_flags(2, true),
            composition_offset: 0,
        };
        assert(sample@ == run[i as int]);
        let ghost before = out@;
        out.push(sample);
        proof {
            assert(sample_views(out@) =~= sample_views(before).push(sample@));
            assert(run.take(i + 1) =~= run.take(i as int).push(run[i as int]));
            assert(ends.take(i + 1).drop_last() =~= ends.take(i as int));
            assert(ends.take(i + 1).last() == ends[i as int]);
        }
        i = i + 1;
    }
    assert(run.take(n as int) =~= run);
    assert(ends.take(n as int) =~= ends);
    (out, end)
}

/// Where a fragment starts.
fn base_of(next: Option<u64>, own: u64) -> (base: u64)
    ensures
        base == base_tick(next, own as int),
{
    match next {
        Some(t) => if t > own {
            t
        } else {
            own
        },
        None => own,
    }
}

/// A tick later by `span`, held to the range of the type.
fn tick_behind(base: u64, span: u128) -> (next: u64)
    requires
        span <= 0xFFFF_FFFF_FFFF_FFFF_FFFF_FFFF,
    ensures
        next == clamp_u64(base + span),
{
    let wide: u128 = base as u128 + span;
    if wide > u64::MAX as u128 {
        u64::MAX
    } else {
        wide as u64
    }
}

impl<S: HlsStorage> HlsOutput<S> {
    /// The configuration.
    pub closed spec fn spec_config(&self) -> ConfigView {
        self.cfg@
    }

    /// Where the files go.
    pub closed spec fn spec_storage(&self) -> S {
        self.storage
    }

    /// The output and its files.
    pub open spec fn published(&self) -> Published {
        Published { view: self@, files: self.spec_storage().files() }
    }

    /// What has been logged.
    pub closed spec fn spec_log(&self) -> HlsLog {
        HlsLog { warned: self.warned, book: self.book@ }
    }

    /// Keep log records up to this level, and no others; `None` keeps none.
    pub fn set_log_level(&mut self, max: Option<Level>)
        ensures
            final(self).published() == old(self).published(),
            final(self).spec_config() == old(self).spec_config(),
            final(self).spec_storage() == old(self).spec_storage(),
            final(self).calls() == old(self).calls(),
            final(self).spec_log() == (HlsLog {
                book: BookView { max, ..old(self).spec_log().book },
                ..old(self).spec_log()
            }),
    {
        self.book.set_level(max);
    }

    /// The log records to deliver, in the order in which they came.
    pub fn take_records(&mut self) -> (records: Vec<Entry>)
        ensures
            final(self).published() == old(self).published(),
            final(self).spec_config() == old(self).spec_config(),
            final(self).spec_storage() == old(self).spec_storage(),
            final(self).calls() == old(self).calls(),
            entry_views(records@) == old(self).spec_log().book.records,
            final(self).spec_log() == (HlsLog {
                book: BookView { records: Seq::empty(), ..old(self).spec_log().book },
                ..old(self).spec_log()
            }),
    {
        self.book.take()
    }

    /// True if everything but the state and the files is the same.
    spec fn kept(&self, next: &Self) -> bool {
        &&& next.cfg == self.cfg
        &&& next.log == self.log
        &&& self.storage.dependable() ==> next.storage.dependable()
    }

    /// True if `next` has logged what comes of a packet: why it is not taken, or
    /// that its clock jumped; and the segments that a cut could not remove.
    pub open spec fn logged(&self, next: &Self, p: PacketView) -> bool {
        let log = self.spec_log();
        if self@.finished {
            next.spec_log() == log
        } else if self@.takes(p) && self@.cuts(p, self.spec_config()) {
            &&& log.seeing(self@, p).swept(next.spec_log(), self@.window.len() + 1)
            &&& self.spec_storage().dependable() ==> next.spec_log() == log.seeing(self@, p)
        } else {
            next.spec_log() == log.seeing(self@, p)
        }
    }

    /// Create an output writing through `storage`.
    pub fn new(cfg: HlsConfig, storage: S) -> (o: Self)
        ensures
            o@ == HlsView::fresh(),
            o.spec_config() == cfg@,
            o.spec_storage() == storage,
            o.calls() == Seq::<SinkCall>::empty(),
            o.spec_log() == (HlsLog {
                warned: Warned {
                    no_video_config: false,
                    no_audio_config: false,
                    before_first_key: false,
                    track_not_in_init: false,
                    config_changed: false,
                },
                book: BookView::closed(),
            }),
    {
        let o = HlsOutput {
            cfg,
            storage,
            timebase: Timebase::new(),
            avcc: None,
            audio: None,
            init_written: false,
            init_has_video: false,
            init_has_audio: false,
            saw_video: false,
            started: false,
            video_samples: Vec::new(),
            audio_samples: Vec::new(),
            seg_start: None,
            video_next_tick: None,
            audio_next_tick: None,
            sequence: 0,
            window: Vec::new(),
            longest_ms: 0,
            finished: false,
            log: Ghost(Seq::empty()),
            warned: Warned {
                no_video_config: false,
                no_audio_config: false,
                before_first_key: false,
                track_not_in_init: false,
                config_changed: false,
            },
            book: LogBook::new(),
        };
        proof {
            assert(o@.video =~= Seq::<PendingView>::empty());
            assert(o@.sound =~= Seq::<PendingView>::empty());
            assert(o@.window =~= Seq::<(Seq<char>, u64)>::empty());
        }
        o
    }

    /// Borrow the storage (tests inspect written files).
    pub fn storage(&self) -> (s: &S)
        ensures
            *s == self.spec_storage(),
    {
        &self.storage
    }

    /// Recover the storage once the output is done.
    pub fn into_storage(self) -> (s: S)
        ensures
            s == self.spec_storage(),
    {
        self.storage
    }

    /// Number of media segments written so far.
    pub fn segment_count(&self) -> (n: u32)
        ensures
            n == self@.sequence,
    {
        self.sequence
    }

    fn has_samples(&self) -> (yes: bool)
        ensures
            yes == self@.has_samples(),
    {
        self.video_samples.len() > 0 || self.audio_samples.len() > 0
    }

    /// Does the open segment span the target duration?
    fn is_full(&self) -> (full: bool)
        ensures
            full == self@.full(self.spec_config()),
    {
        if !self.has_samples() {
            return false;
        }
        let span: i128 = match self.seg_start {
            None => 0,
            Some(start) => {
                let mut end: i64 = start;
                let n: usize = self.video_samples.len();
                if n > 0 {
                    assert(self@.video.last() == self.video_samples@[n - 1]@);
                    if self.video_samples[n - 1].dts > end {
                        end = self.video_samples[n - 1].dts;
                    }
                }
                let m: usize = self.audio_samples.len();
                if m > 0 {
                    assert(self@.sound.last() == self.audio_samples@[m - 1]@);
                    if self.audio_samples[m - 1].dts > end {
                        end = self.audio_samples[m - 1].dts;
                    }
                }
                end as i128 - start as i128
            },
        };
        span >= self.cfg.target_duration_secs as i128 * 1000
    }

    /// Write `init.mp4` once, with whichever tracks are configured by now.
    fn ensure_init(&mut self) -> (r: Result<(), IoError>)
        ensures
            final(self).spec_log() == old(self).spec_log(),
            r is Ok ==> !old(self).published().unconfigured() && final(self).published()
                == old(self).published().initialized(old(self).spec_config()),
            old(self).kept(final(self)),
            final(self)@.finished == old(self)@.finished,
            old(self).published().unconfigured() ==> no_config(r) && *final(self) == *old(self),
            r is Err ==> !old(self)@.init && final(self)@ == old(self)@ && same_but(
                final(self).spec_storage().files(),
                old(self).spec_storage().files(),
                set![old(self).spec_config().init_name],
            ),
            old(self).spec_storage().dependable() ==> (r is Ok
                <==> !old(self).published().unconfigured()),
    {
        if self.init_written {
            return Ok(());
        }
        let video: Option<VideoTrack> = match &self.avcc {
            Some(avcc) => {
                let size: (u32, u32) = match h264::extract_sps_pps_from_avcc(avcc.as_slice()) {
                    Some((sps, _)) => match h264::parse_sps_dimensions(sps.as_slice()) {
                        Some(s) => s,
                        None => (0, 0),
                    },
                    None => (0, 0),
                };
                Some(
                    VideoTrack {
                        avcc: bytes::copy_of(avcc.as_slice()),
                        width: size.0,
                        height: size.1,
                    },
                )
            },
            None => None,
        };
        let audio: Option<AudioTrack> = match &self.audio {
            Some(a) => Some(
                AudioTrack {
                    asc: bytes::copy_of(a.asc.as_slice()),
                    sample_rate: a.sample_rate,
                    channels: a.channels,
                    bitrate: self.cfg.audio_bitrate,
                },
            ),
            None => None,
        };
        if video.is_none() && audio.is_none() {
            return Err(IoError::new(IoErrorKind::Other, "hls: no codec config for init segment"));
        }
        let init: Vec<u8> = mp4::init_segment(&video, &audio);
        if let Err(e) = self.storage.write_file(
            self.cfg.init_segment_name.as_str(),
            init.as_slice(),
        ) {
            proof {
                lemma_only(self.storage.files(), old(self).storage.files(), self.cfg@.init_name);
            }
            return Err(e);
        }
        self.init_written = true;
        self.init_has_video = video.is_some();
        self.init_has_audio = audio.is_some();
        Ok(())
    }

    /// The open segment's fragments, and when it ends. The samples leave the
    /// output, and the grids move on.
    #[verifier::rlimit(40)]
    fn take_fragments(&mut self) -> (r: (Vec<Fragment>, i128))
        ensures
            final(self).spec_log() == old(self).spec_log(),
            fragment_views(r.0@) == old(self)@.fragments(),
            r.0@.len() <= 2,
            r.1 == old(self)@.seg_end(),
            i64::MIN <= r.1 <= 0x1_8000_0000_0000_0000,
            final(self)@ == (HlsView {
                video: Seq::empty(),
                sound: Seq::empty(),
                video_next: old(self)@.sealed(old(self).spec_config()).video_next,
                audio_next: old(self)@.sealed(old(self).spec_config()).audio_next,
                ..old(self)@
            }),
            final(self).storage == old(self).storage,
            final(self).window == old(self).window,
            old(self).kept(final(self)),
    {
        let ghost v = self@;
        let mut fragments: Vec<Fragment> = Vec::new();
        let mut end: i128 = match self.seg_start {
            Some(s) => s as i128,
            None => 0,
        };
        let ghost none = Seq::<FragmentView>::empty();
        assert(fragment_views(fragments@) =~= none);
        if self.video_samples.len() > 0 {
            let mut samples: Vec<PendingSample> = Vec::new();
            std::mem::swap(&mut samples, &mut self.video_samples);
            let own: u64 = to_ticks(samples[0].dts as i128, 90_000);
            assert(v.video[0].dts == samples@[0].dts);
            let (out, span, last): (Vec<FragmentSample>, u128, i128) = video_samples_of(
                &samples,
                end,
            );
            end = last;
            // Continue the exact grid; fall back to (and never undercut) the
            // ms-derived base when the grid is empty or the stream jumped.
            let base: u64 = base_of(self.video_next_tick, own);
            self.video_next_tick = Some(tick_behind(base, span));
            let fragment = Fragment {
                track_id: VIDEO_TRACK_ID,
                base_decode_time: base,
                samples: out,
            };
            assert(fragment@ == v.video_fragment());
            fragments.push(fragment);
            assert(fragment_views(fragments@) =~= seq![v.video_fragment()]);
        } else {
            assert(Seq::new(v.video.len(), |i: int| v.video[i].dts + gap(v.video, i)) =~= Seq::<
                int,
            >::empty());
        }
        let ghost first = fragment_views(fragments@);
        if self.audio_samples.len() > 0 {
            let mut samples: Vec<PendingSample> = Vec::new();
            std::mem::swap(&mut samples, &mut self.audio_samples);
            let rate: u32 = match &self.audio {
                Some(a) => a.sample_rate,
                None => 0,
            };
            let frame: i128 = if rate > 0 {
                1_024_000 / rate as i128
            } else {
                23
            };
            let own: u64 = to_ticks(samples[0].dts as i128, rate);
            assert(v.sound[0].dts == samples@[0].dts);
            let (out, last): (Vec<FragmentSample>, i128) = audio_samples_of(&samples, frame, end);
            assert(Seq::new(v.sound.len(), |i: int| v.sound[i].dts + frame) =~= Seq::new(
                v.sound.len(),
                |i: int| v.sound[i].dts + frame_ms(v.audio),
            ));
            end = last;
            let base: u64 = base_of(self.audio_next_tick, own);
            let span: u128 = AAC_FRAME_SAMPLES as u128 * samples.len() as u128;
            self.audio_next_tick = Some(tick_behind(base, span));
            let fragment = Fragment {
                track_id: AUDIO_TRACK_ID,
                base_decode_time: base,
                samples: out,
            };
            assert(fragment@ == v.audio_fragment());
            fragments.push(fragment);
            assert(fragment_views(fragments@) =~= first + seq![v.audio_fragment()]);
        } else {
            assert(Seq::new(
                v.sound.len(),
                |i: int| v.sound[i].dts + frame_ms(v.audio),
            ) =~= Seq::<int>::empty());
            assert(first + none =~= first);
        }
        proof {
            assert(none + first =~= first);
            if v.video.len() == 0 && v.sound.len() > 0 {
                assert(none + seq![v.audio_fragment()] =~= seq![v.audio_fragment()]);
            }
            assert(fragment_views(fragments@) =~= v.fragments());
            assert(self@.video =~= Seq::<PendingView>::empty());
            assert(self@.sound =~= Seq::<PendingView>::empty());
        }
        (fragments, end)
    }

    /// Drop the segments that fell out of the window, and their files.
    fn prune(&mut self)
        ensures
            old(self).spec_log().swept(final(self).spec_log(), old(self)@.window.len()),
            old(self).spec_storage().dependable() ==> final(self).spec_log() == old(
                self,
            ).spec_log(),
            final(self)@ == (HlsView {
                window: newest(old(self)@.window, window_size(old(self).spec_config())),
                ..old(self)@
            }),
            old(self).kept(final(self)),
            same_but(
                final(self).spec_storage().files(),
                pruned(
                    old(self)@.window,
                    old(self).spec_storage().files(),
                    window_size(old(self).spec_config()),
                ),
                retired(old(self)@.window, window_size(old(self).spec_config())),
            ),
            old(self).spec_storage().dependable() ==> final(self).spec_storage().files()
                == pruned(
                old(self)@.window,
                old(self).spec_storage().files(),
                window_size(old(self).spec_config()),
            ),
    {
        let keep: usize = if self.cfg.window_size >= 1 {
            self.cfg.window_size
        } else {
            1
        };
        let ghost all = window_view(self.window@);
        assert(all.skip(0) =~= all);
        assert(self.book@.records =~= self.book@.records.subrange(
            0,
            self.book@.records.len() as int,
        ));
        while self.window.len() > keep
            invariant
                keep == window_size(old(self).spec_config()),
                keep >= 1,
                all == window_view(old(self).window@),
                self.window@.len() <= all.len(),
                all.len() > keep ==> self.window@.len() >= keep,
                all.len() <= keep ==> self.window@.len() == all.len(),
                window_view(self.window@) == all.skip(all.len() - self.window@.len()),
                self@ == (HlsView { window: window_view(self.window@), ..old(self)@ }),
                old(self).kept(self),
                old(self).spec_storage().dependable() ==> pruned(
                    window_view(self.window@),
                    self.spec_storage().files(),
                    keep as nat,
                ) == pruned(all, old(self).spec_storage().files(), keep as nat),
                same_but(
                    self.spec_storage().files(),
                    old(self).spec_storage().files(),
                    retired(all, keep as nat),
                ),
                old(self).spec_log().swept(
                    self.spec_log(),
                    (all.len() - self.window@.len()) as nat,
                ),
                old(self).spec_storage().dependable() ==> self.spec_log() == old(self).spec_log(),
            decreases self.window@.len(),
        {
            let ghost before = window_view(self.window@);
            let (name, _length): (String, u64) = self.window.remove(0);
            assert(before.first().0 == name@);
            assert(window_view(self.window@) =~= before.drop_first());
            assert(all.skip(all.len() - before.len()).drop_first() =~= all.skip(
                all.len() - before.len() + 1,
            ));
            let ghost files = self.storage.files();
            let ghost log = self.spec_log();
            // A segment that cannot be removed is left behind.
            if let Err(e) = self.storage.remove_file(name.as_str()) {
                let fields: [Field<'_>; 2] = [
                    Field { key: "file", value: FieldValue::Str(name.as_str()) },
                    Field { key: "error", value: FieldValue::Str(e.message.as_str()) },
                ];
                self.book.note(
                    Level::Warn,
                    "stream::hls",
                    "hls failed to remove old segment",
                    fields.as_slice(),
                );
            }
            proof {
                lemma_swept(old(self).spec_log(), log, self.spec_log(), (all.len()
                    - before.len()) as nat);
                assert(all[all.len() - before.len()].0 == name@);
                assert(retired(all, keep as nat).contains(name@));
                lemma_one_more(
                    self.storage.files(),
                    files,
                    old(self).storage.files(),
                    name@,
                    retired(all, keep as nat),
                );
            }
        }
        proof {
            lemma_pruned(all, old(self).storage.files(), keep as nat);
            if all.len() <= keep {
                assert(all.skip(0) =~= all);
            }
        }
    }

    /// (Re)write the media playlist over the current window.
    fn write_playlist(&mut self, finished: bool) -> (r: Result<(), IoError>)
        ensures
            final(self).spec_log() == old(self).spec_log(),
            r is Ok ==> final(self).published() == old(self).published().listed(
                old(self).spec_config(),
                finished,
            ),
            same_but(
                final(self).spec_storage().files(),
                old(self).spec_storage().files(),
                set![old(self).spec_config().playlist_name],
            ),
            final(self)@ == old(self)@,
            old(self).kept(final(self)),
            old(self).spec_storage().dependable() ==> r is Ok,
    {
        let text: String = self.playlist_text(finished);
        let r: Result<(), IoError> = self.storage.write_file(
            self.cfg.playlist_name.as_str(),
            text.as_str().as_bytes(),
        );
        proof {
            lemma_only(self.storage.files(), old(self).storage.files(), self.cfg@.playlist_name);
        }
        r
    }

    /// The media playlist over the current window.
    fn playlist_text(&self, finished: bool) -> (text: String)
        ensures
            text@ == playlist(self.spec_config(), self@, finished),
    {
        proof {
            reveal(playlist);
        }
        let secs: u64 = if self.longest_ms > 0 {
            (self.longest_ms - 1) / 1000 + 1
        } else {
            1
        };
        let target: u64 = if self.cfg.target_duration_secs as u64 > secs {
            self.cfg.target_duration_secs as u64
        } else if secs > u32::MAX as u64 {
            u32::MAX as u64
        } else {
            secs
        };
        assert(target == target_duration(self.cfg@, self.longest_ms));
        let n: usize = self.window.len();
        let first: u64 = if n as u64 > self.sequence as u64 {
            0
        } else {
            self.sequence as u64 - n as u64
        };
        let mut text: String = "#EXTM3U\n".to_owned();
        text.append("#EXT-X-VERSION:7\n");
        text.append("#EXT-X-TARGETDURATION:");
        append_decimal(&mut text, target);
        text.append("\n");
        text.append("#EXT-X-MEDIA-SEQUENCE:");
        append_decimal(&mut text, first);
        text.append("\n");
        text.append("#EXT-X-INDEPENDENT-SEGMENTS\n");
        text.append("#EXT-X-MAP:URI=\"");
        text.append(self.cfg.init_segment_name.as_str());
        text.append("\"\n");
        let list: String = self.entries_text();
        text.append(list.as_str());
        if finished {
            text.append("#EXT-X-ENDLIST\n");
        } else {
            assert(text@ + Seq::<char>::empty() =~= text@);
        }
        text
    }

    /// The playlist's entries.
    fn entries_text(&self) -> (text: String)
        ensures
            text@ == entries(self@.window),
    {
        let ghost all = window_view(self.window@);
        let n: usize = self.window.len();
        let mut text: String = "".to_owned();
        let mut i: usize = 0;
        proof {
            reveal_strlit("");
            assert(all.take(0) =~= Seq::<(Seq<char>, u64)>::empty());
            assert(text@ =~= entries(all.take(0)));
        }
        while i < n
            invariant
                i <= n == self.window@.len(),
                all == window_view(self.window@),
                text@ == entries(all.take(i as int)),
            decreases n - i,
        {
            let length: u64 = self.window[i].1;
            text.append("#EXTINF:");
            append_decimal(&mut text, length / 1000);
            text.append(".");
            append_three_digits(&mut text, length % 1000);
            text.append(",\n");
            text.append(self.window[i].0.as_str());
            text.append("\n");
            proof {
                let next = all.take(i + 1);
                assert(next.drop_last() =~= all.take(i as int));
                assert(next.last() == all[i as int]);
            }
            i = i + 1;
        }
        assert(all.take(n as int) =~= all);
        text
    }

    /// Build `moof`+`mdat` for the open segment and store it.
    #[verifier::rlimit(80)]
    fn seal_segment(&mut self) -> (r: Result<(), IoError>)
        ensures
            final(self).spec_log() == old(self).spec_log(),
            r is Ok ==> final(self)@ == old(self)@.sealed(old(self).spec_config())
                && final(self).spec_storage().files() == old(self).spec_storage().files().insert(
                old(self)@.segment_name(old(self).spec_config()),
                segment_bytes(old(self)@.sequence, old(self)@.fragments()),
            ),
            r is Err ==> final(self)@ == old(self)@.spilled(old(self).spec_config()) && same_but(
                final(self).spec_storage().files(),
                old(self).spec_storage().files(),
                set![old(self)@.segment_name(old(self).spec_config())],
            ),
            final(self)@.finished == old(self)@.finished,
            old(self).kept(final(self)),
            old(self).spec_storage().dependable() ==> r is Ok,
    {
        let ghost ready = self@;
        let ghost cfg = self.spec_config();
        let sequence: u32 = self.sequence;
        let begin: Option<i64> = self.seg_start;
        let (fragments, end): (Vec<Fragment>, i128) = self.take_fragments();
        let segment: Vec<u8> = media_segment(sequence, &fragments);
        let mut name: String = self.cfg.segment_prefix.clone();
        append_decimal(&mut name, sequence as u64);
        name.append(".m4s");
        if let Err(e) = self.storage.write_file(name.as_str(), segment.as_slice()) {
            proof {
                assert(name@ == ready.segment_name(cfg));
                lemma_only(self.storage.files(), old(self).storage.files(), name@);
                assert(self@ =~= ready.spilled(cfg));
            }
            return Err(e);
        }
        let wide: i128 = match begin {
            Some(s) => end - s as i128,
            None => 0,
        };
        let duration: u64 = if wide < 0 {
            0
        } else if wide > u64::MAX as i128 {
            u64::MAX
        } else {
            wide as u64
        };
        if duration > self.longest_ms {
            self.longest_ms = duration;
        }
        self.sequence = self.sequence.wrapping_add(1);
        self.seg_start = None;
        let ghost before = self.window@;
        self.window.push((name, duration));
        proof {
            assert(window_view(self.window@) =~= window_view(before).push((name@, duration)));
            assert(duration == ready.duration());
            assert(self@ =~= ready.sealed(cfg));
        }
        Ok(())
    }

    /// Seal the open segment: build `moof`+`mdat`, store it, roll the playlist.
    fn close_segment(&mut self) -> (r: Result<(), IoError>)
        ensures
            old(self).kept(final(self)),
            final(self)@.finished == old(self)@.finished,
            old(self).published().closing(old(self).spec_config(), final(self).published(), r),
            old(self).spec_log().swept(final(self).spec_log(), old(self)@.window.len() + 1),
            old(self).spec_storage().dependable() ==> final(self).spec_log() == old(
                self,
            ).spec_log(),
            old(self).spec_storage().dependable() ==> match old(self).published().closed(
                old(self).spec_config(),
            ) {
                Some(p) => r is Ok && final(self).published() == p,
                None => no_config(r),
            },
    {
        assert(self.book@.records =~= self.book@.records.subrange(
            0,
            self.book@.records.len() as int,
        ));
        if !self.has_samples() {
            return Ok(());
        }
        let ghost start = self.published();
        let ghost cfg = self.spec_config();
        self.ensure_init()?;
        let ghost ready = self.published();
        self.seal_segment()?;
        let ghost sealed = self.published();
        self.prune();
        let ghost trimmed = self.published();
        let r: Result<(), IoError> = self.write_playlist(false);
        proof {
            assert(ready == start.initialized(cfg));
            assert(sealed.view == ready.view.sealed(cfg));
            let keep = window_size(cfg);
            let ideal = Published { files: pruned(sealed.view.window, sealed.files, keep), ..trimmed };
            assert(start.rolled(cfg) == ideal.listed(cfg, false));
            lemma_rolled(
                self.published(),
                trimmed,
                ideal,
                cfg.playlist_name,
                encode_utf8(playlist(cfg, trimmed.view, false)),
                ready.view.leaving(cfg),
            );
            if old(self).storage.dependable() {
                assert(ready == start.initialized(cfg));
                assert(sealed.view == ready.view.sealed(cfg));
                assert(start.rolled(cfg) == trimmed.listed(cfg, false));
            }
        }
        r
    }

    /// Take a packet in.
    fn take_packet(&mut self, pkt: &MediaPacket) -> (r: Result<(), IoError>)
        requires
            !old(self)@.finished,
        ensures
            old(self).kept(final(self)),
            final(self)@.finished == old(self)@.finished,
            old(self).spec_storage().dependable() ==> match old(self).published().with_packet(
                old(self).spec_config(),
                pkt@,
            ) {
                Some(p) => r is Ok && final(self).published() == p,
                None => no_config(r),
            },
            old(self).published().packeted(
                old(self).spec_config(),
                pkt@,
                final(self).published(),
                r,
            ),
            old(self).logged(final(self), pkt@),
    {
        match pkt.kind {
            MediaKind::Video => self.video_packet(pkt),
            MediaKind::Audio => self.audio_packet(pkt),
        }
    }

    /// Add a video sample to the open segment.
    fn add_video(&mut self, pkt: &MediaPacket, dts: i64)
        ensures
            final(self).spec_log() == old(self).spec_log(),
            final(self)@ == old(self)@.with_video_sample(dts as int, pkt@),
            final(self).storage == old(self).storage,
            old(self).kept(final(self)),
    {
        let payload: Vec<u8> = h264::annexb_to_length_prefixed(pkt.data.as_slice());
        let cts: i64 = narrow(pkt.pts as i128 - pkt.dts as i128);
        if self.seg_start.is_none() {
            self.seg_start = Some(dts);
        }
        let sample = PendingSample { payload, dts, cts, is_sync: pkt.is_key };
        let ghost before = self.video_samples@;
        self.video_samples.push(sample);
        proof {
            assert(pending(self.video_samples@) =~= pending(before).push(sample@));
            assert(self@ =~= old(self)@.with_video_sample(dts as int, pkt@));
        }
    }

    /// Add an audio sample to the open segment.
    fn add_audio(&mut self, pkt: &MediaPacket, dts: i64)
        ensures
            final(self).spec_log() == old(self).spec_log(),
            final(self)@ == old(self)@.with_audio_sample(dts as int, pkt@),
            final(self).storage == old(self).storage,
            old(self).kept(final(self)),
    {
        let payload: Vec<u8> = aac::strip_adts(pkt.data.as_slice());
        if self.seg_start.is_none() {
            self.seg_start = Some(dts);
        }
        let sample = PendingSample { payload, dts, cts: 0, is_sync: true };
        let ghost before = self.audio_samples@;
        self.audio_samples.push(sample);
        proof {
            assert(pending(self.audio_samples@) =~= pending(before).push(sample@));
            assert(self@ =~= old(self)@.with_audio_sample(dts as int, pkt@));
        }
    }

    /// Note once that a track came too late for the initialization segment.
    fn warn_track_not_in_init(&mut self)
        ensures
            *final(self) == (HlsOutput {
                warned: final(self).warned,
                book: final(self).book,
                ..*old(self)
            }),
            final(self).spec_log() == if old(self).warned.track_not_in_init {
                old(self).spec_log()
            } else {
                HlsLog {
                    warned: Warned { track_not_in_init: true, ..old(self).warned },
                    ..old(self).spec_log()
                }.noted(Level::Warn, "hls track appeared after the init segment; dropping it"@)
            },
    {
        if !self.warned.track_not_in_init {
            self.warned.track_not_in_init = true;
            self.book.mark(
                Level::Warn,
                "stream::hls",
                "hls track appeared after the init segment; dropping it",
            );
        }
    }

    /// The timestamp for `dts`; a jump of the clock is noted.
    fn take_time(&mut self, dts: i64) -> (ts: i64)
        ensures
            ts == old(self)@.time.normalized(dts as int),
            *final(self) == (HlsOutput {
                timebase: final(self).timebase,
                book: final(self).book,
                ..*old(self)
            }),
            final(self).timebase@ == old(self).timebase@.behind(dts as int),
            final(self).book@ == if old(self)@.time.jumped(dts as int) {
                old(self).book@.noted(
                    Level::Warn,
                    "stream::hls"@,
                    "hls clock rebase"@,
                    seq![("dts"@, FieldView::Int(dts))],
                )
            } else {
                old(self).book@
            },
    {
        if self.timebase.jumps(dts) {
            let fields: [Field<'_>; 1] = [Field { key: "dts", value: FieldValue::Int(dts) }];
            let list: &[Field<'_>] = fields.as_slice();
            let ghost level = Level::Warn;
            assert((Record {
                level,
                module: "stream::hls",
                message: "hls clock rebase",
                fields: list,
            })@.fields =~= seq![("dts"@, FieldView::Int(dts))]);
            self.book.note(Level::Warn, "stream::hls", "hls clock rebase", list);
        }
        self.timebase.normalize(dts)
    }

    #[verifier::rlimit(80)]
    fn video_packet(&mut self, pkt: &MediaPacket) -> (r: Result<(), IoError>)
        requires
            pkt.kind == MediaKind::Video,
            !old(self)@.finished,
        ensures
            old(self).kept(final(self)),
            final(self)@.finished == old(self)@.finished,
            old(self).spec_storage().dependable() ==> match old(self).published().with_packet(
                old(self).spec_config(),
                pkt@,
            ) {
                Some(p) => r is Ok && final(self).published() == p,
                None => no_config(r),
            },
            old(self).published().packeted(
                old(self).spec_config(),
                pkt@,
                final(self).published(),
                r,
            ),
            old(self).logged(final(self), pkt@),
    {
        self.saw_video = true;
        // Config: explicit first, else sniffed from a keyframe's SPS/PPS.
        if self.avcc.is_none() {
            self.avcc = h264::annexb_to_avcc(pkt.data.as_slice());
        }
        if self.avcc.is_none() {
            if !self.warned.no_video_config {
                self.warned.no_video_config = true;
                self.book.mark(Level::Warn, "stream::hls", "hls waiting for video config");
            }
            return Ok(());
        }
        if self.init_written && !self.init_has_video {
            self.warn_track_not_in_init();
            return Ok(());
        }
        if !self.started {
            if !pkt.is_key {
                if !self.warned.before_first_key {
                    self.warned.before_first_key = true;
                    self.book.mark(Level::Debug, "stream::hls", "hls waiting for first keyframe");
                }
                return Ok(());
            }
            self.started = true;
        }
        assert(self@ == old(self)@.noticed(pkt@));
        let dts: i64 = self.take_time(pkt.dts);
        // Keyframe-aligned cut: close the open segment once it spans the
        // target duration and a fresh keyframe arrives.
        assert(self.published() == old(self).published().timed(pkt@));
        if pkt.is_key && self.is_full() {
            self.close_segment()?;
        }
        let ghost cut = self.published();
        self.add_video(pkt, dts);
        assert(self.published() == cut.with_sample(dts as int, pkt@));
        Ok(())
    }

    #[verifier::rlimit(80)]
    fn audio_packet(&mut self, pkt: &MediaPacket) -> (r: Result<(), IoError>)
        requires
            pkt.kind == MediaKind::Audio,
            !old(self)@.finished,
        ensures
            old(self).kept(final(self)),
            final(self)@.finished == old(self)@.finished,
            old(self).spec_storage().dependable() ==> match old(self).published().with_packet(
                old(self).spec_config(),
                pkt@,
            ) {
                Some(p) => r is Ok && final(self).published() == p,
                None => no_config(r),
            },
            old(self).published().packeted(
                old(self).spec_config(),
                pkt@,
                final(self).published(),
                r,
            ),
            old(self).logged(final(self), pkt@),
    {
        // Config: explicit ASC first, else sniffed from an ADTS wrapper.
        if self.audio.is_none() {
            if let Some(asc) = aac::adts_to_asc(pkt.data.as_slice()) {
                self.audio = parse_audio_params(asc.as_slice());
            }
        }
        if self.audio.is_none() {
            if !self.warned.no_audio_config {
                self.warned.no_audio_config = true;
                self.book.mark(Level::Warn, "stream::hls", "hls waiting for audio config");
            }
            return Ok(());
        }
        if self.init_written && !self.init_has_audio {
            self.warn_track_not_in_init();
            return Ok(());
        }
        // Streams that carry video start on a video keyframe; audio waits so
        // the first segment begins with aligned A/V. Audio-only streams start
        // on the first packet.
        if !self.started {
            if self.saw_video {
                return Ok(());
            }
            self.started = true;
        }
        assert(self@ == old(self)@.noticed(pkt@));
        let dts: i64 = self.take_time(pkt.dts);
        // Audio-only streams cut on duration alone (no keyframes exist).
        assert(self.published() == old(self).published().timed(pkt@));
        if !self.saw_video && self.is_full() {
            self.close_segment()?;
        }
        let ghost cut = self.published();
        self.add_audio(pkt, dts);
        assert(self.published() == cut.with_sample(dts as int, pkt@));
        Ok(())
    }
}

impl<S: HlsStorage> PacketSink for HlsOutput<S> {
    closed spec fn calls(&self) -> Seq<SinkCall> {
        self.log@
    }

    #[verifier::rlimit(40)]
    fn codecs(&mut self, avcc: Option<&[u8]>, asc: Option<&[u8]>)
        ensures
            final(self)@ == old(self)@.with_codecs(opt_slice(avcc), opt_slice(asc)),
            final(self).spec_config() == old(self).spec_config(),
            final(self).spec_storage() == old(self).spec_storage(),
            final(self).spec_log() == old(self).spec_log().told(old(self)@, opt_slice(avcc)),
    {
        if let Some(v) = avcc {
            let changed: bool = match &self.avcc {
                Some(known) => !bytes::same_bytes(known.as_slice(), v),
                None => true,
            };
            if self.init_written && changed && !self.warned.config_changed {
                self.warned.config_changed = true;
                self.book.mark(
                    Level::Warn,
                    "stream::hls",
                    "hls video config changed mid-stream; keeping the original init",
                );
            }
            if self.avcc.is_none() {
                self.avcc = Some(bytes::copy_of(v));
            }
        }
        if let Some(a) = asc {
            if self.audio.is_none() {
                self.audio = parse_audio_params(a);
            }
        }
        self.log = Ghost(self.log@.push(SinkCall::Codecs(opt_slice(avcc), opt_slice(asc))));
    }

    fn packet(&mut self, pkt: &MediaPacket) -> (r: Result<(), IoError>)
        ensures
            final(self).spec_config() == old(self).spec_config(),
            old(self)@.finished ==> r is Ok && final(self)@ == old(self)@
                && final(self).spec_storage() == old(self).spec_storage(),
            old(self).spec_storage().dependable() ==> final(self).spec_storage().dependable()
                && match old(self).published().with_packet(old(self).spec_config(), pkt@) {
                Some(p) => r is Ok && final(self).published() == p,
                None => no_config(r),
            },
            old(self).published().packeted(
                old(self).spec_config(),
                pkt@,
                final(self).published(),
                r,
            ),
            old(self).logged(final(self), pkt@),
    {
        let r: Result<(), IoError> = if self.finished {
            Ok(())
        } else {
            self.take_packet(pkt)
        };
        self.log = Ghost(self.log@.push(SinkCall::Packet(pkt@, r is Ok)));
        r
    }

    fn finish(&mut self) -> (r: Result<(), IoError>)
        ensures
            old(self).spec_log().swept(final(self).spec_log(), old(self)@.window.len() + 1),
            old(self)@.finished || old(self).spec_storage().dependable() ==> final(self).spec_log()
                == old(self).spec_log(),
            final(self).spec_config() == old(self).spec_config(),
            final(self)@.finished,
            old(self)@.finished ==> r is Ok && final(self)@ == old(self)@
                && final(self).spec_storage() == old(self).spec_storage(),
            old(self).spec_storage().dependable() ==> final(self).spec_storage().dependable()
                && match old(self).published().ended(old(self).spec_config()) {
                Some(p) => r is Ok && final(self).published() == p,
                None => no_config(r),
            },
            old(self).published().finishing(
                old(self).spec_config(),
                final(self).published(),
                r,
            ),
    {
        assert(self.book@.records =~= self.book@.records.subrange(
            0,
            self.book@.records.len() as int,
        ));
        let r: Result<(), IoError> = if self.finished {
            Ok(())
        } else {
            self.finished = true;
            let ghost last = self.published();
            match self.close_segment() {
                Ok(()) => {
                    let ghost over = self.published();
                    assert(last.closing(self.spec_config(), over, Ok(())));
                    self.write_playlist(true)
                },
                Err(e) => Err(e),
            }
        };
        self.log = Ghost(self.log@.push(SinkCall::Finish(r is Ok)));
        r
    }
}

// ---------------------------------------------------------------------------
// Files
// ---------------------------------------------------------------------------

proof fn lemma_swept(a: HlsLog, b: HlsLog, c: HlsLog, n: nat)
    requires
        a.swept(b, n),
        c.warned == b.warned,
        c.book == b.book || exists|fields: Seq<(Seq<char>, FieldView)>|
            c.book == #[trigger] b.book.noted(
                Level::Warn,
                "stream::hls"@,
                "hls failed to remove old segment"@,
                fields,
            ),
    ensures
        a.swept(c, n + 1),
{
    assert forall|i: int| 0 <= i < a.book.records.len() implies a.book.records[i]
        == c.book.records[i] by {
        assert(b.book.records[i] == a.book.records[i]);
        assert(c.book.records[i] == b.book.records[i]);
    }
    assert(a.book.records =~= c.book.records.subrange(0, a.book.records.len() as int));
    assert forall|i: int| a.book.records.len() <= i < c.book.records.len() implies (
    #[trigger] c.book.records[i]).level == Level::Warn && c.book.records[i].module
        == "stream::hls"@ && c.book.records[i].message == "hls failed to remove old segment"@ by {
        if i < b.book.records.len() {
            assert(c.book.records[i] == b.book.records[i]);
        }
    }
}

proof fn lemma_only(a: Map<Seq<char>, Seq<u8>>, b: Map<Seq<char>, Seq<u8>>, name: Seq<char>)
    requires
        a.remove(name) == b.remove(name),
    ensures
        same_but(a, b, set![name]),
{
    assert(a.remove_keys(set![name]) =~= a.remove(name));
    assert(b.remove_keys(set![name]) =~= b.remove(name));
}

proof fn lemma_one_more(
    a: Map<Seq<char>, Seq<u8>>,
    b: Map<Seq<char>, Seq<u8>>,
    c: Map<Seq<char>, Seq<u8>>,
    name: Seq<char>,
    names: Set<Seq<char>>,
)
    requires
        a.remove(name) == b.remove(name),
        same_but(b, c, names),
        names.contains(name),
    ensures
        same_but(a, c, names),
{
    assert(a.remove_keys(names) =~= a.remove(name).remove_keys(names));
    assert(b.remove_keys(names) =~= b.remove(name).remove_keys(names));
}

proof fn lemma_pruned(
    window: Seq<(Seq<char>, u64)>,
    files: Map<Seq<char>, Seq<u8>>,
    keep: nat,
)
    requires
        keep >= 1,
    ensures
        same_but(pruned(window, files, keep), files, retired(window, keep)),
{
    let names = retired(window, keep);
    let left = pruned(window, files, keep);
    assert forall|name: Seq<char>|
        #![trigger left.remove_keys(names).contains_key(name)]
        #![trigger files.remove_keys(names).contains_key(name)]
        (left.remove_keys(names).contains_key(name) <==> files.remove_keys(names).contains_key(name))
            && (files.remove_keys(names).contains_key(name) ==> left.remove_keys(names)[name]
            == files.remove_keys(names)[name]) by {
        retired_segments_are_deleted(window, files, keep, name);
    }
    assert(left.remove_keys(names) =~= files.remove_keys(names));
}

/// Rewriting the playlist over files that are as they should be, but for some
/// leftovers.
proof fn lemma_rolled(
    now: Published,
    was: Published,
    ideal: Published,
    name: Seq<char>,
    text: Seq<u8>,
    names: Set<Seq<char>>,
)
    requires
        same_but(was.files, ideal.files, names),
        same_but(now.files, was.files, set![name]),
    ensures
        now.files == was.files.insert(name, text) ==> same_but(
            now.files,
            ideal.files.insert(name, text),
            names,
        ),
        same_but(now.files, ideal.files.insert(name, text), names.insert(name)),
{
    let goal = ideal.files.insert(name, text);
    let all = names.insert(name);
    assert forall|n: Seq<char>| !all.contains(n) implies (now.files.contains_key(n)
        <==> goal.contains_key(n)) && (now.files.contains_key(n) ==> now.files[n] == goal[n]) by {
        assert(!set![name].contains(n));
        assert(now.files.remove_keys(set![name]).contains_key(n) == now.files.contains_key(n));
        assert(was.files.remove_keys(set![name]).contains_key(n) == was.files.contains_key(n));
        assert(was.files.remove_keys(names).contains_key(n) == was.files.contains_key(n));
        assert(ideal.files.remove_keys(names).contains_key(n) == ideal.files.contains_key(n));
        if now.files.contains_key(n) {
            assert(now.files.remove_keys(set![name])[n] == was.files.remove_keys(set![name])[n]);
            assert(was.files.remove_keys(names)[n] == ideal.files.remove_keys(names)[n]);
        }
    }
    assert(now.files.remove_keys(all) =~= goal.remove_keys(all));
    if now.files == was.files.insert(name, text) {
        assert forall|n: Seq<char>| !names.contains(n) implies (now.files.contains_key(n)
            <==> goal.contains_key(n)) && (now.files.contains_key(n) ==> now.files[n]
            == goal[n]) by {
            assert(was.files.remove_keys(names).contains_key(n) == was.files.contains_key(n));
            assert(ideal.files.remove_keys(names).contains_key(n) == ideal.files.contains_key(n));
            if n != name && now.files.contains_key(n) {
                assert(was.files.remove_keys(names)[n] == ideal.files.remove_keys(names)[n]);
            }
        }
        assert(now.files.remove_keys(names) =~= goal.remove_keys(names));
    }
}

// ---------------------------------------------------------------------------
// Laws
// ---------------------------------------------------------------------------

/// A segment is only closed once it spans the target duration, and only by a
/// keyframe or, in a stream without video, by audio.
pub proof fn cuts_come_on_keyframes(s: Published, cfg: ConfigView, p: PacketView)
    ensures
        s.with_packet(cfg, p) matches Some(next) ==> next.view.sequence != s.view.sequence ==> {
            &&& s.view.has_samples()
            &&& s.view.span() >= cfg.target * 1000
            &&& match p.kind {
                MediaKind::Video => p.is_key,
                MediaKind::Audio => !s.view.saw_video,
            }
            &&& next.view.sequence == s.view.sequence.wrapping_add(1)
        },
{
}

/// True if the open segment of a stream with video begins with a keyframe, and
/// there is none before media flows.
pub open spec fn joinable(v: HlsView) -> bool {
    &&& v.started && v.saw_video ==> v.video.len() > 0 && v.video[0].is_sync
    &&& !v.started ==> v.video.len() == 0
}

/// Every segment of a stream with video begins its video with a keyframe, so
/// that a player can join there: a packet keeps it so, unless the stream was
/// started by audio alone.
pub proof fn segments_begin_with_a_keyframe(s: Published, cfg: ConfigView, p: PacketView)
    requires
        joinable(s.view),
        s.view.started ==> s.view.saw_video,
    ensures
        s.with_packet(cfg, p) matches Some(next) ==> joinable(next.view),
{
}

/// The playlist never lists more segments than the window holds.
pub proof fn windows_stay_bounded(s: Published, cfg: ConfigView)
    requires
        s.view.window.len() <= window_size(cfg),
    ensures
        s.rolled(cfg).view.window.len() <= window_size(cfg),
        s.rolled(cfg).view.window.len() >= 1,
        s.rolled(cfg).view.window.last() == (
            s.initialized(cfg).view.segment_name(cfg),
            s.initialized(cfg).view.duration(),
        ),
{
}

/// No segment that is listed lasts longer than the target duration that is
/// announced (which must fit its number).
pub proof fn segments_fit_the_announced_target(cfg: ConfigView, longest: u64, duration: u64)
    requires
        duration <= longest,
        longest <= 1000 * u32::MAX,
    ensures
        duration <= 1000 * target_duration(cfg, longest),
{
}

/// The longest segment is remembered: it bounds every segment that is listed.
pub proof fn the_longest_segment_is_remembered(s: Published, cfg: ConfigView)
    requires
        forall|i: int|
            0 <= i < s.view.window.len() ==> (#[trigger] s.view.window[i]).1 <= s.view.longest,
    ensures
        forall|i: int|
            0 <= i < s.rolled(cfg).view.window.len() ==> (#[trigger] s.rolled(
                cfg,
            ).view.window[i]).1 <= s.rolled(cfg).view.longest,
{
    let ready = s.initialized(cfg).view;
    let all = ready.sealed(cfg).window;
    let kept = s.rolled(cfg).view.window;
    assert forall|i: int| 0 <= i < kept.len() implies (#[trigger] kept[i]).1 <= s.rolled(
        cfg,
    ).view.longest by {
        let k = i + all.len() - kept.len();
        assert(kept[i] == all[k]);
        if k < s.view.window.len() {
            assert(all[k] == s.view.window[k]);
        }
    }
}

/// Consecutive fragments of a track neither overlap nor, while the clock runs
/// evenly, leave gaps: each starts on the grid of the one before it, or later.
pub proof fn fragments_follow_the_grid(v: HlsView, cfg: ConfigView)
    requires
        v.video.len() > 0,
    ensures
        v.video_next matches Some(t) ==> v.video_fragment().base_decode_time >= t,
        v.video_next matches Some(t) ==> ticks(v.video[0].dts, 90_000) <= t
            ==> v.video_fragment().base_decode_time == t,
        v.video_fragment().base_decode_time + total_ticks(video_run(v.video)) <= u64::MAX
            ==> v.sealed(cfg).video_next == Some(
            (v.video_fragment().base_decode_time + total_ticks(video_run(v.video))) as u64,
        ),
{
    lemma_total_ticks(video_run(v.video));
}

proof fn lemma_total_ticks(s: Seq<SampleView>)
    ensures
        total_ticks(s) >= 0,
    decreases s.len(),
{
    if s.len() > 0 {
        lemma_total_ticks(s.drop_last());
    }
}

/// A segment that fell out of the window is deleted, and the files of the
/// segments that stay are kept.
pub proof fn retired_segments_are_deleted(
    window: Seq<(Seq<char>, u64)>,
    files: Map<Seq<char>, Seq<u8>>,
    keep: nat,
    name: Seq<char>,
)
    requires
        keep >= 1,
    ensures
        ({
            let retired = exists|i: int|
                0 <= i < window.len() - keep && (#[trigger] window[i]).0 == name;
            &&& retired ==> !pruned(window, files, keep).contains_key(name)
            &&& !retired ==> (pruned(window, files, keep).contains_key(name)
                <==> files.contains_key(name)) && (files.contains_key(name) ==> pruned(
                window,
                files,
                keep,
            )[name] == files[name])
        }),
    decreases window.len(),
{
    if window.len() > keep {
        let rest = window.drop_first();
        let fewer = files.remove(window.first().0);
        retired_segments_are_deleted(rest, fewer, keep, name);
        let before = exists|i: int|
            0 <= i < window.len() - keep && (#[trigger] window[i]).0 == name;
        let after = exists|i: int| 0 <= i < rest.len() - keep && (#[trigger] rest[i]).0 == name;
        if after {
            let i = choose|i: int| 0 <= i < rest.len() - keep && (#[trigger] rest[i]).0 == name;
            assert(window[i + 1] == rest[i]);
        }
        if before {
            let i = choose|i: int|
                0 <= i < window.len() - keep && (#[trigger] window[i]).0 == name;
            if i > 0 {
                assert(rest[i - 1] == window[i]);
            } else {
                assert(!fewer.contains_key(name));
            }
        } else {
            assert(window[0].0 != name);
        }
    }
}

/// True if the window lists the segments before the open one, without a gap.
pub open spec fn numbered(v: HlsView, cfg: ConfigView) -> bool {
    &&& v.window.len() <= v.sequence
    &&& forall|i: int|
        0 <= i < v.window.len() ==> (#[trigger] v.window[i]).0 == cfg.prefix + decimal(
            (v.sequence - v.window.len() + i) as nat,
        ) + ".m4s"@
}

/// Every segment that the playlist lists has been stored: closing a segment
/// keeps it so, even where old segments cannot be removed.
pub proof fn listed_segments_are_stored(s: Published, cfg: ConfigView, now: Published)
    requires
        numbered(s.view, cfg),
        s.view.sequence < u32::MAX,
        forall|i: int|
            0 <= i < s.view.window.len() ==> s.files.contains_key(
                (#[trigger] s.view.window[i]).0,
            ),
        s.closing(cfg, now, Ok(())),
    ensures
        numbered(now.view, cfg),
        forall|i: int|
            0 <= i < now.view.window.len() ==> now.files.contains_key(
                (#[trigger] now.view.window[i]).0,
            ),
{
    if s.view.has_samples() {
        let ready = s.initialized(cfg);
        let sealed = ready.view.sealed(cfg);
        let keep = window_size(cfg);
        let all = sealed.window;
        let kept = newest(all, keep);
        let stored = ready.files.insert(
            ready.view.segment_name(cfg),
            segment_bytes(ready.view.sequence, ready.view.fragments()),
        );
        let over = s.rolled(cfg);
        let names = ready.view.leaving(cfg);
        assert(numbered(sealed, cfg)) by {
            assert forall|i: int| 0 <= i < all.len() implies (#[trigger] all[i]).0 == cfg.prefix
                + decimal((sealed.sequence - all.len() + i) as nat) + ".m4s"@ by {
                if i < s.view.window.len() {
                    assert(all[i] == s.view.window[i]);
                }
            }
        }
        assert forall|i: int| 0 <= i < kept.len() implies now.files.contains_key(
            (#[trigger] now.view.window[i]).0,
        ) && kept[i].0 == cfg.prefix + decimal((sealed.sequence - kept.len() + i) as nat)
            + ".m4s"@ by {
            let k = i + all.len() - kept.len();
            assert(kept[i] == all[k]);
            let name = all[k].0;
            if k < s.view.window.len() {
                assert(all[k] == s.view.window[k]);
                assert(s.files.contains_key(s.view.window[k].0));
            }
            assert(stored.contains_key(name));
            if names.contains(name) {
                let j = choose|j: int| 0 <= j < all.len() - keep && (#[trigger] all[j]).0 == name;
                lemma_names_differ(
                    cfg.prefix,
                    (sealed.sequence - all.len() + j) as nat,
                    (sealed.sequence - all.len() + k) as nat,
                );
            }
            retired_segments_are_deleted(all, stored, keep, name);
            assert(over.files.contains_key(name));
            assert(over.files.remove_keys(names).contains_key(name));
            assert(now.files.remove_keys(names).contains_key(name));
        }
    }
}

proof fn lemma_names_differ(prefix: Seq<char>, a: nat, b: nat)
    requires
        prefix + decimal(a) + ".m4s"@ == prefix + decimal(b) + ".m4s"@,
    ensures
        a == b,
{
    let x = prefix + decimal(a) + ".m4s"@;
    let y = prefix + decimal(b) + ".m4s"@;
    assert(x.len() == y.len());
    assert(x.subrange(prefix.len() as int, x.len() - ".m4s"@.len()) =~= decimal(a));
    assert(y.subrange(prefix.len() as int, y.len() - ".m4s"@.len()) =~= decimal(b));
    lemma_decimal_tells(a, b);
}

/// A segment that the storage refused is not listed: closing it fails with the
/// window and the numbering unchanged, unless only the playlist was refused.
pub proof fn refused_segments_are_not_listed(s: Published, cfg: ConfigView, now: Published)
    requires
        s.close_failed(cfg, now),
    ensures
        now.view.window == s.view.window && now.view.sequence == s.view.sequence || now.view
            == s.rolled(cfg).view,
{
}

} // verus!
