//! The FLV muxer: tags, timestamps and sequence headers.

use stream::flv::{TAG_AUDIO, TAG_VIDEO};
use stream::io::{IoError, IoErrorKind, Sink};
use stream::models::{MediaKind, MediaPacket, StreamConfig};
use stream::mux::{on_metadata, FlvMuxer, MuxError};
use stream::rtmp::FlvTagParser;

/// A muxer writing into a Vec<u8> with both sequence headers already emitted.
fn muxer() -> (FlvMuxer<Vec<u8>>, StreamConfig) {
    let config = StreamConfig::default();
    let mut m = FlvMuxer::new(Vec::new());
    m.write_metadata(&config).unwrap();
    m.init_codecs(
        Some(&[
            0x01, 0x42, 0x00, 0x1F, 0xFF, 0xE1, 0x00, 0x03, 0x67, 0x42, 0x00, 0x0A, 0x01, 0x00, 0x03, 0x68, 0xCE,
        ]),
        Some(&[0x0A, 0x10]),
    )
    .unwrap();
    (m, config)
}

fn video(pts: i64, dts: i64, key: bool) -> MediaPacket {
    MediaPacket {
        kind: MediaKind::Video,
        pts,
        dts,
        is_key: key,
        data: vec![0, 0, 0, 1, 0x65, 0x88],
    }
}

fn audio(pts: i64) -> MediaPacket {
    MediaPacket {
        kind: MediaKind::Audio,
        pts,
        dts: pts,
        is_key: false,
        data: vec![0x21, 0x00, 0x49],
    }
}

/// Walk tags out of FLV bytes, returning `(kind, ts, data)`.
fn parse(bytes: &[u8]) -> Vec<(u8, u32, Vec<u8>)> {
    let mut out = Vec::new();
    let mut pos = 13;
    while pos + 11 <= bytes.len() {
        let kind = bytes[pos];
        let size = ((bytes[pos + 1] as usize) << 16) | ((bytes[pos + 2] as usize) << 8) | bytes[pos + 3] as usize;
        let ts24 = ((bytes[pos + 4] as u32) << 16) | ((bytes[pos + 5] as u32) << 8) | bytes[pos + 6] as u32;
        let ts = (u32::from(bytes[pos + 7]) << 24) | ts24;
        let start = pos + 11;
        out.push((kind, ts, bytes[start..start + size].to_vec()));
        pos = start + size + 4;
    }
    out
}

#[test]
fn dts_is_monotonic_after_small_backward_slip() {
    let (mut m, _) = muxer();
    m.write_packet(&video(0, 0, true)).unwrap();
    m.write_packet(&video(40, 40, false)).unwrap();
    // 3 ms backward: clamped, stream stays monotonic.
    m.write_packet(&video(37, 37, false)).unwrap();
    let bytes = m.into_inner();
    let tags = parse(&bytes);
    let ts: Vec<u32> = tags.iter().map(|t| t.1).collect();
    assert!(ts.windows(2).all(|w| w[0] <= w[1]), "monotonic: {ts:?}");
}

#[test]
fn dts_out_of_tolerance_is_ordering_error() {
    let (mut m, _) = muxer();
    m.write_packet(&video(0, 0, true)).unwrap();
    m.write_packet(&video(40, 40, false)).unwrap();
    // 1 second backward: a real ordering violation.
    let err = m.write_packet(&video(0, 40 - 1000, false)).unwrap_err();
    assert!(matches!(err, MuxError::OutOfOrder(_)), "got {err:?}");
}

#[test]
fn negative_cts_is_encoded_within_signed_24bit() {
    let (mut m, _) = muxer();
    // B-frame: pts behind dts -> negative composition offset.
    m.write_packet(&video(10, 20, true)).unwrap();
    let bytes = m.into_inner();
    let tags = parse(&bytes);
    let vtags: Vec<_> = tags.iter().filter(|(k, _, _)| *k == TAG_VIDEO).collect();
    // sequence header ts 0, frame ts 0 (20-20 origin=20 -> 0)
    let frame = vtags.last().unwrap();
    let raw = (i32::from(frame.2[2]) << 16) | (i32::from(frame.2[3]) << 8) | i32::from(frame.2[4]);
    // sign-extend the 24-bit two's complement field
    let cts = (raw << 8) >> 8;
    assert!(cts < 0, "expected negative cts, got {cts}");
    // FLV spec: signed 24-bit, so 10-20 = -10 encoded as 0xFFFFF6
    assert_eq!(cts, -10);
}

#[test]
fn ts_beyond_24bit_uses_extended_byte() {
    let (mut m, _) = muxer();
    // First frame anchors the origin; a later frame at 0x0100_0000 ms
    // (16,777,216 ms after it) needs the 8-bit extended timestamp.
    m.write_packet(&video(0, 0, true)).unwrap();
    m.write_packet(&video(0x0100_0000, 0x0100_0000, false)).unwrap();
    let bytes = m.into_inner();
    let tags = parse(&bytes);
    let vtags: Vec<_> = tags.iter().filter(|(k, _, _)| *k == TAG_VIDEO).collect();
    let frame = vtags.last().unwrap();
    assert_eq!(frame.1, 0x0100_0000, "24-bit + extended byte must round-trip");
}

#[test]
fn negative_origin_ts_clamped_to_zero() {
    let (mut m, _) = muxer();
    // First frame at 10s, a reordered frame arriving at 9.999s relative to
    // the true origin would have gone negative before normalization; the
    // muxer must never emit a huge unsigned ts.
    m.write_packet(&video(10_000, 10_000, true)).unwrap();
    let bytes = m.into_inner();
    let tags = parse(&bytes);
    let vtags: Vec<_> = tags.iter().filter(|(k, _, _)| *k == TAG_VIDEO).collect();
    assert_eq!(vtags.last().unwrap().1, 0);
}

#[test]
fn audio_negative_cts_not_applied() {
    let (mut m, _) = muxer();
    m.write_packet(&audio(0)).unwrap();
    let bytes = m.into_inner();
    let tags = parse(&bytes);
    let atags: Vec<_> = tags.iter().filter(|(k, _, _)| *k == TAG_AUDIO).collect();
    assert_eq!(atags.last().unwrap().1, 0);
}

#[test]
fn restored_timebase_continues_timestamp_series() {
    // First muxer reaches ts 5000; a replacement (reconnect) carrying the
    // timebase over must continue from there, not restart at 0.
    let (mut m, _) = muxer();
    m.write_packet(&video(0, 0, true)).unwrap();
    m.write_packet(&video(5000, 5000, false)).unwrap();
    let (origin, last) = (m.origin(), m.last_dts());

    let mut resumed = FlvMuxer::new(Vec::new());
    resumed.restore_timebase(origin, last);
    resumed.write_packet(&video(5040, 5040, false)).unwrap();
    let bytes = resumed.into_inner();
    let tags = parse(&bytes);
    let vtags: Vec<_> = tags.iter().filter(|(k, _, _)| *k == TAG_VIDEO).collect();
    assert_eq!(vtags.last().unwrap().1, 5040);
}

#[test]
fn rebase_keeps_output_monotonic_after_clock_reset() {
    let (mut m, _) = muxer();
    m.write_packet(&video(0, 0, true)).unwrap();
    m.write_packet(&video(10_000, 10_000, false)).unwrap();
    // Capture clock resets far backwards: rebasing continues from the
    // high-water mark instead of an ordering error.
    m.rebase(40);
    m.write_packet(&video(40, 40, true)).unwrap();
    m.write_packet(&video(80, 80, false)).unwrap();
    let bytes = m.into_inner();
    let tags = parse(&bytes);
    let ts: Vec<u32> = tags.iter().map(|t| t.1).collect();
    assert!(ts.windows(2).all(|w| w[0] <= w[1]), "monotonic: {ts:?}");
    assert_eq!(*ts.last().unwrap(), 10_040);
}

#[test]
fn sequence_headers_are_cached_and_remembered() {
    let (mut m, _) = muxer();
    m.write_packet(&video(0, 0, true)).unwrap();
    assert!(m.video_config().is_some());
    assert!(m.audio_config().is_some());
}

#[test]
fn reemitted_headers_after_resume_are_monotonic() {
    // After a reconnect the fresh muxer re-emits metadata + sequence
    // headers at the resumed time, never below it.
    let (mut m, cfg) = muxer();
    m.write_packet(&video(0, 0, true)).unwrap();
    m.write_packet(&video(3000, 3000, false)).unwrap();
    let (origin, last) = (m.origin(), m.last_dts());
    let (avcc, asc) = (m.video_config().unwrap().to_vec(), m.audio_config().unwrap().to_vec());

    let mut resumed = FlvMuxer::new(Vec::new());
    resumed.restore_timebase(origin, last);
    resumed.write_metadata(&cfg).unwrap();
    resumed.write_video_sequence(&avcc).unwrap();
    resumed.write_audio_sequence(&asc).unwrap();
    resumed.write_packet(&video(3040, 3040, true)).unwrap();
    let bytes = resumed.into_inner();
    let tags = parse(&bytes);
    let ts: Vec<u32> = tags.iter().map(|t| t.1).collect();
    assert!(ts.windows(2).all(|w| w[0] <= w[1]), "monotonic: {ts:?}");
    assert_eq!(ts[0], 3000, "re-emitted headers sit at the resumed time");
}

#[test]
fn metadata_roundtrip_shape() {
    let c = StreamConfig {
        width: 128,
        height: 96,
        ..Default::default()
    };
    let b = on_metadata(&c);
    assert_eq!(&b[0..1], &[0x02]);
    assert_eq!(&b[1..3], &10u16.to_be_bytes()); // "onMetaData" length
    assert_eq!(&b[3..13], b"onMetaData");
    assert_eq!(&b[13..14], &[0x08]);
    assert!(b.ends_with(&[0x00, 0x00, 0x09]));
    // Every number is written as a double.
    let width = b.windows(5).position(|w| w == b"width").unwrap() + 5;
    assert_eq!(b[width], 0);
    assert_eq!(&b[width + 1..width + 9], &128.0f64.to_be_bytes());
    let framerate = b.windows(9).position(|w| w == b"framerate").unwrap() + 9;
    assert_eq!(&b[framerate + 1..framerate + 9], &30.0f64.to_be_bytes());
}

/// A sink with room for so many bytes.
struct Room(usize);

impl Sink for Room {
    fn write_all(&mut self, data: &[u8]) -> Result<(), IoError> {
        if data.len() > self.0 {
            return Err(IoError::new(IoErrorKind::Other, "full"));
        }
        self.0 -= data.len();
        Ok(())
    }

    fn flush(&mut self) -> Result<(), IoError> {
        Ok(())
    }
}

#[test]
fn a_frame_that_was_not_written_is_not_the_last() {
    let mut m = FlvMuxer::new(Room(13));
    assert!(matches!(m.write_packet(&video(40, 40, false)), Err(MuxError::Io(_))));
    assert_eq!(m.last_dts(), i64::MIN);
    assert_eq!(m.bytes_written(), 13);

    // Room for one frame: the second leaves the mark where the first put it.
    let mut probe = FlvMuxer::new(Vec::new());
    probe.write_packet(&video(0, 0, false)).unwrap();
    let mut m = FlvMuxer::new(Room(probe.into_inner().len()));
    m.write_packet(&video(0, 0, false)).unwrap();
    assert!(m.write_packet(&video(500, 500, false)).is_err());
    assert_eq!(m.last_dts(), 0);
}

#[test]
fn a_mixed_run_parses_back_in_order() {
    let (mut m, config) = muxer();
    m.write_packet(&video(0, 0, true)).unwrap();
    m.write_packet(&audio(21)).unwrap();
    m.write_metadata(&config).unwrap();
    m.rebase(5);
    m.write_packet(&video(5, 5, false)).unwrap();
    assert!(matches!(m.write_packet(&video(-90_000, -90_000, false)), Err(MuxError::OutOfOrder(_))));
    let bytes = m.into_inner();
    let tags = FlvTagParser::new().feed(&bytes).unwrap();
    let kinds: Vec<(u8, u32)> = tags.iter().map(|t| (t.mtype, t.ts)).collect();
    assert_eq!(kinds, vec![(18, 0), (9, 0), (8, 0), (9, 0), (8, 21), (18, 21), (9, 21)]);
    assert_eq!(bytes.len(), 13 + tags.iter().map(|t| 15 + t.body.len()).sum::<usize>());
}
