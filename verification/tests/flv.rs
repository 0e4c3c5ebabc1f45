//! FLV tag bodies.

use stream::flv::{decode_tag, Decoded, TAG_AUDIO, TAG_SCRIPT, TAG_VIDEO};
use stream::models::MediaKind;

#[test]
fn decodes_video_sequence_header() {
    let avcc = [0x01, 0x42, 0x00, 0x1F, 0xFF, 0xE1];
    let mut body = vec![0x17, 0x00, 0, 0, 0];
    body.extend_from_slice(&avcc);
    assert_eq!(
        decode_tag(TAG_VIDEO, 0, &body),
        Some(Decoded::VideoConfig(avcc.to_vec()))
    );
}

#[test]
fn decodes_video_frame_with_cts() {
    let nal = [0x65, 0x88];
    let mut body = vec![0x17, 0x01, 0, 0, 40]; // cts = 40 ms
    body.extend_from_slice(&(nal.len() as u32).to_be_bytes());
    body.extend_from_slice(&nal);
    let Some(Decoded::Packet(pkt)) = decode_tag(TAG_VIDEO, 100, &body) else {
        panic!("expected a packet")
    };
    assert_eq!(pkt.dts, 100);
    assert_eq!(pkt.pts, 140);
    assert!(pkt.is_key);
    assert_eq!(pkt.data, vec![0, 0, 0, 1, 0x65, 0x88]);
}

#[test]
fn negative_cts_sign_extends() {
    let mut body = vec![0x27, 0x01, 0xFF, 0xFF, 0xF6]; // cts = -10
    body.extend_from_slice(&1u32.to_be_bytes());
    body.push(0x41);
    let Some(Decoded::Packet(pkt)) = decode_tag(TAG_VIDEO, 50, &body) else {
        panic!("expected a packet")
    };
    assert_eq!(pkt.pts, 40);
    assert!(!pkt.is_key);
}

#[test]
fn decodes_audio_config_and_frames() {
    let body = [0xAF, 0x00, 0x0A, 0x10];
    assert_eq!(
        decode_tag(TAG_AUDIO, 0, &body),
        Some(Decoded::AudioConfig(vec![0x0A, 0x10]))
    );
    let frame = [0xAF, 0x01, 0x21, 0x00];
    let Some(Decoded::Packet(pkt)) = decode_tag(TAG_AUDIO, 23, &frame) else {
        panic!("expected a packet")
    };
    assert_eq!(pkt.kind, MediaKind::Audio);
    assert_eq!(pkt.dts, 23);
    assert_eq!(pkt.data, vec![0x21, 0x00]);
}

#[test]
fn rejects_unknown_codecs_and_truncation() {
    // Screen video (codec 3), not AVC.
    assert_eq!(decode_tag(TAG_VIDEO, 0, &[0x13, 0x01, 0, 0, 0, 1]), None);
    // MP3 audio (format 2), not AAC.
    assert_eq!(decode_tag(TAG_AUDIO, 0, &[0x2F, 0x01, 0]), None);
    // Truncated bodies at every length: never a panic.
    let mut body = vec![0x17, 0x01, 0, 0, 0];
    body.extend_from_slice(&3u32.to_be_bytes());
    body.extend_from_slice(&[0x65, 0x88, 0x84]);
    for cut in 0..=body.len() {
        let _ = decode_tag(TAG_VIDEO, 0, &body[..cut]);
    }
    // Script tags are not decoded here.
    assert_eq!(decode_tag(TAG_SCRIPT, 0, &[0x02]), None);
}

#[test]
fn malformed_nal_lengths_rejected() {
    // Length field overruns the body.
    let mut body = vec![0x17, 0x01, 0, 0, 0];
    body.extend_from_slice(&99u32.to_be_bytes());
    body.extend_from_slice(&[0x65]);
    assert_eq!(decode_tag(TAG_VIDEO, 0, &body), None);
}
