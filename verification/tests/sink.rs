//! Recording to a container file.

use stream::models::{MediaKind, MediaPacket, StreamConfig};
use stream::sink::{PacketSink, RecordingOutput};
use stream::transport::FileTransport;

const AVCC: &[u8] = &[
    0x01, 0x42, 0x00, 0x1F, 0xFF, 0xE1, 0x00, 0x03, 0x67, 0x42, 0x00, 0x0A, 0x01, 0x00, 0x03, 0x68, 0xCE,
];
const ASC: &[u8] = &[0x0A, 0x10];

fn key(pts: i64) -> MediaPacket {
    MediaPacket::video(pts, true, vec![0, 0, 0, 1, 0x65, 0x88])
}

fn inter(pts: i64) -> MediaPacket {
    MediaPacket::video(pts, false, vec![0, 0, 0, 1, 0x41, 0x77])
}

fn audio(pts: i64) -> MediaPacket {
    MediaPacket {
        kind: MediaKind::Audio,
        pts,
        dts: pts,
        is_key: false,
        data: vec![0x21, 0x00, 0x49],
    }
}

/// Parse FLV bytes into `(tag_type, timestamp, body)` triples.
fn parse_flv(bytes: &[u8]) -> Vec<(u8, u32, Vec<u8>)> {
    let mut out = Vec::new();
    let mut pos = 13;
    while pos + 11 <= bytes.len() {
        let kind = bytes[pos];
        let size = ((bytes[pos + 1] as usize) << 16) | ((bytes[pos + 2] as usize) << 8) | bytes[pos + 3] as usize;
        let ts = ((bytes[pos + 7] as u32) << 24)
            | ((bytes[pos + 4] as u32) << 16)
            | ((bytes[pos + 5] as u32) << 8)
            | bytes[pos + 6] as u32;
        let start = pos + 11;
        if start + size + 4 > bytes.len() {
            break;
        }
        out.push((kind, ts, bytes[start..start + size].to_vec()));
        pos = start + size + 4;
    }
    out
}

#[test]
fn records_one_contiguous_stream() {
    let mut rec = RecordingOutput::new(FileTransport::new(Vec::new()), StreamConfig::default());
    rec.codecs(Some(AVCC), Some(ASC));
    rec.packet(&key(0)).unwrap();
    rec.packet(&audio(10)).unwrap();
    rec.packet(&inter(40)).unwrap();
    rec.packet(&key(2000)).unwrap();
    rec.finish().unwrap();

    let bytes = rec.into_inner().into_inner();
    assert_eq!(&bytes[..3], b"FLV");
    let tags = parse_flv(&bytes);
    let kinds: Vec<u8> = tags.iter().map(|t| t.0).collect();
    // metadata, video seq, audio seq, key, audio, inter, key
    assert_eq!(kinds, vec![18, 9, 8, 9, 8, 9, 9]);
    let ts: Vec<u32> = tags.iter().map(|t| t.1).collect();
    assert!(ts.windows(2).all(|w| w[0] <= w[1]), "monotonic: {ts:?}");
}

#[test]
fn recording_survives_a_simulated_reconnect_gap() {
    // The publish path would detach/re-attach here and re-emit headers;
    // the recorder simply keeps consuming packets — one header, one series.
    let mut rec = RecordingOutput::new(FileTransport::new(Vec::new()), StreamConfig::default());
    rec.codecs(Some(AVCC), Some(ASC));
    rec.packet(&key(0)).unwrap();
    rec.packet(&inter(40)).unwrap();
    // ...connection drops; the engine cuts to the next keyframe...
    rec.packet(&key(5000)).unwrap();
    rec.packet(&inter(5040)).unwrap();
    rec.finish().unwrap();

    let bytes = rec.into_inner().into_inner();
    let tags = parse_flv(&bytes);
    let headers = tags.iter().filter(|t| t.0 == 9 && t.2.get(1) == Some(&0)).count();
    assert_eq!(headers, 1, "exactly one video sequence header in the whole file");
    let flv_headers = bytes.windows(3).filter(|w| *w == b"FLV").count();
    assert_eq!(flv_headers, 1, "exactly one FLV file header");
}

#[test]
fn clock_jump_rebases_instead_of_failing() {
    let mut rec = RecordingOutput::new(FileTransport::new(Vec::new()), StreamConfig::default());
    rec.codecs(Some(AVCC), Some(ASC));
    rec.packet(&key(10_000)).unwrap();
    rec.packet(&inter(10_040)).unwrap();
    // Capture clock resets far backwards: the recorder re-anchors.
    rec.packet(&key(40)).unwrap();
    rec.finish().unwrap();
    let bytes = rec.into_inner().into_inner();
    let tags = parse_flv(&bytes);
    let ts: Vec<u32> = tags.iter().map(|t| t.1).collect();
    assert!(ts.windows(2).all(|w| w[0] <= w[1]), "monotonic: {ts:?}");
}

#[test]
fn finished_recorder_ignores_late_packets() {
    let mut rec = RecordingOutput::new(FileTransport::new(Vec::new()), StreamConfig::default());
    rec.codecs(Some(AVCC), Some(ASC));
    rec.packet(&key(0)).unwrap();
    rec.finish().unwrap();
    let before = rec.bytes_written();
    rec.packet(&inter(40)).unwrap();
    rec.codecs(Some(AVCC), None);
    rec.finish().unwrap();
    assert_eq!(rec.bytes_written(), before);
}

#[test]
fn sniffs_configs_from_packets_when_none_provided() {
    // No codecs() call: the first keyframe carries SPS/PPS inline, the first
    // audio packet is ADTS-wrapped — the muxer derives both configs itself.
    let mut rec = RecordingOutput::new(FileTransport::new(Vec::new()), StreamConfig::default());
    let mut keyframe = vec![0, 0, 0, 1];
    keyframe.extend_from_slice(&[0x67, 0x42, 0x00, 0x0A]);
    keyframe.extend_from_slice(&[0, 0, 0, 1]);
    keyframe.extend_from_slice(&[0x68, 0xCE]);
    keyframe.extend_from_slice(&[0, 0, 0, 1]);
    keyframe.extend_from_slice(&[0x65, 0x88]);
    rec.packet(&MediaPacket::video(0, true, keyframe)).unwrap();
    // ADTS-wrapped audio (AAC-LC, 44.1 kHz, stereo) so the ASC is derivable.
    rec.packet(&audio_adts(10)).unwrap();
    rec.finish().unwrap();

    let bytes = rec.into_inner().into_inner();
    let tags = parse_flv(&bytes);
    let seq = tags
        .iter()
        .filter(|t| matches!(t.0, 8 | 9) && t.2.get(1) == Some(&0))
        .count();
    assert_eq!(seq, 2, "video + audio sequence headers were derived");
}

/// An ADTS-wrapped AAC packet, mirroring what a real encoder emits.
fn audio_adts(pts: i64) -> MediaPacket {
    let payload: &[u8] = &[0x21, 0x00, 0x49];
    let frame_length = 7 + payload.len();
    let mut out = vec![
        0xFF,
        0xF1,
        0x50,
        0x80,
        ((frame_length >> 3) & 0xFF) as u8,
        (((frame_length & 0x07) as u8) << 5) | 0x1F,
        0xFC,
    ];
    out.extend_from_slice(payload);
    MediaPacket {
        kind: MediaKind::Audio,
        pts,
        dts: pts,
        is_key: false,
        data: out,
    }
}
