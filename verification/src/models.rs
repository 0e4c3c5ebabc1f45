//! Core domain data types. The platform side hands these over; the core turns
//! them into a live stream. Everything here is transport-agnostic and
//! codec-opaque: pixel and audio content is never inspected, only the headers
//! that muxing needs.

use vstd::prelude::*;

use crate::bytes;
use crate::figures::{ratio, ratio_of};

verus! {

/// Whether a packet carries compressed (already-encoded) video or audio.
#[derive(Debug, Clone, Copy, PartialEq, Eq, Hash, Structural)]
pub enum MediaKind {
    /// Compressed video frame.
    Video,
    /// Compressed audio frame.
    Audio,
}

/// One unit of compressed media, ready for muxing.
///
/// Timestamps are in **milliseconds**, relative to a single shared clock
/// source. Both `pts` and `dts` are kept so the muxer can pack the
/// composition-time offset used by players.
#[derive(Debug, PartialEq, Eq)]
pub struct MediaPacket {
    /// Whether this packet carries video or audio.
    pub kind: MediaKind,
    /// Presentation timestamp: when the viewer should *see* this.
    pub pts: i64,
    /// Decode timestamp: when the decoder must *process* this. Differs from
    /// `pts` whenever frames are reordered (B-frames). Often == `pts` in live.
    pub dts: i64,
    /// True when this is a keyframe (I-frame) / IDR.
    pub is_key: bool,
    /// Compressed payload. For video this is an **Annex-B** packet (start-code
    /// separated NALs); for audio it is an AAC-LC frame.
    pub data: Vec<u8>,
}

/// What a [`MediaPacket`] says, as a mathematical value.
#[verifier::ext_equal]
pub struct PacketView {
    /// Video or audio.
    pub kind: MediaKind,
    /// Presentation timestamp.
    pub pts: int,
    /// Decode timestamp.
    pub dts: int,
    /// Keyframe flag.
    pub is_key: bool,
    /// Payload.
    pub data: Seq<u8>,
}

impl View for MediaPacket {
    type V = PacketView;

    open spec fn view(&self) -> PacketView {
        PacketView {
            kind: self.kind,
            pts: self.pts as int,
            dts: self.dts as int,
            is_key: self.is_key,
            data: self.data@,
        }
    }
}

impl Clone for MediaPacket {
    fn clone(&self) -> (packet: Self)
        ensures
            packet@ == self@,
    {
        MediaPacket {
            kind: self.kind,
            pts: self.pts,
            dts: self.dts,
            is_key: self.is_key,
            data: bytes::copy_of(self.data.as_slice()),
        }
    }
}

impl MediaPacket {
    /// Build a video packet; `dts` defaults to `pts` (no B-frame reorder).
    pub fn video(pts: i64, is_key: bool, data: Vec<u8>) -> (packet: Self)
        ensures
            packet@ == (PacketView {
                kind: MediaKind::Video,
                pts: pts as int,
                dts: pts as int,
                is_key,
                data: data@,
            }),
    {
        MediaPacket { kind: MediaKind::Video, pts, dts: pts, is_key, data }
    }

    /// Build an audio packet; `dts` defaults to `pts`.
    pub fn audio(pts: i64, data: Vec<u8>) -> (packet: Self)
        ensures
            packet@ == (PacketView {
                kind: MediaKind::Audio,
                pts: pts as int,
                dts: pts as int,
                is_key: false,
                data: data@,
            }),
    {
        MediaPacket { kind: MediaKind::Audio, pts, dts: pts, is_key: false, data }
    }
}

/// Static values the muxer writes into container headers / metadata.
#[derive(Debug, Clone, Copy, PartialEq, Eq, Structural)]
pub struct StreamConfig {
    /// Encoded video width in pixels (metadata only).
    pub width: u32,
    /// Encoded video height in pixels (metadata only).
    pub height: u32,
    /// Nominal frames per second (metadata only): the bit pattern of a double.
    pub framerate: u64,
    /// video bitrate in bits/s (informational, metadata only)
    pub video_bitrate: u32,
    /// audio bitrate in bits/s (informational, metadata only)
    pub audio_bitrate: u32,
    /// nominal audio sampling rate recorded in metadata
    pub sample_rate: u32,
}

impl Default for StreamConfig {
    fn default() -> (c: Self)
        ensures
            c == (StreamConfig {
                width: 0,
                height: 0,
                framerate: 0x403E_0000_0000_0000,
                video_bitrate: 2_500_000,
                audio_bitrate: 128_000,
                sample_rate: 44_100,
            }),
    {
        StreamConfig {
            width: 0,
            height: 0,
            framerate: 0x403E_0000_0000_0000,  // 30.0
            video_bitrate: 2_500_000,
            audio_bitrate: 128_000,
            sample_rate: 44_100,
        }
    }
}

/// Summary of how the stream is behaving, surfaced to the platform so it can
/// react to a weak network (e.g., lower bitrate). A cheaper, counter-level view
/// than the full [`crate::telemetry::QosSample`]s retained by the collector.
#[derive(Debug, Clone, Copy, PartialEq, Eq, Structural)]
pub struct PacketStats {
    /// Packets accepted from the platform.
    pub pushed: u64,
    /// Packets successfully muxed to the transport.
    pub muxed: u64,
    /// Packets evicted/dropped to stay near the live edge.
    pub dropped: u64,
    /// Packets currently sitting in the buffer.
    pub in_buffered_count: usize,
    /// current buffer lag in ms (largest pts not yet muxed minus exposure)
    pub buffer_ms: i64,
    /// Bytes written into the container (FLV), header + tags included.
    pub media_bytes: u64,
    /// Bytes the transport accepted for the wire, framing included.
    pub wire_bytes: u64,
    /// Latest measured round-trip time to the peer in ms, when the transport
    /// reports it; the bit pattern of a double.
    pub rtt_ms: Option<u64>,
    /// Successful reconnects since the engine was created.
    pub reconnects: u64,
    /// Failed reconnect attempts since the engine was created.
    pub reconnect_attempts: u64,
    /// Milliseconds since the engine (and its clock) was created.
    pub uptime_ms: u64,
}

impl Default for PacketStats {
    fn default() -> (s: Self)
        ensures
            s == (PacketStats {
                pushed: 0,
                muxed: 0,
                dropped: 0,
                in_buffered_count: 0,
                buffer_ms: 0,
                media_bytes: 0,
                wire_bytes: 0,
                rtt_ms: None,
                reconnects: 0,
                reconnect_attempts: 0,
                uptime_ms: 0,
            }),
    {
        PacketStats {
            pushed: 0,
            muxed: 0,
            dropped: 0,
            in_buffered_count: 0,
            buffer_ms: 0,
            media_bytes: 0,
            wire_bytes: 0,
            rtt_ms: None,
            reconnects: 0,
            reconnect_attempts: 0,
            uptime_ms: 0,
        }
    }
}

impl PacketStats {
    /// Fraction of pushed packets that were dropped, from 0 to 1: the bit pattern
    /// of a double.
    pub fn drop_ratio(&self) -> (r: u64)
        ensures
            r == ratio(self.dropped, self.pushed),
    {
        ratio_of(self.dropped, self.pushed)
    }
}

} // verus!
