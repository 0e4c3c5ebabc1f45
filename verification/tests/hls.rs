//! HLS segments, playlists and the sliding window.

use stream::codecs::h264::build_avcc;
use stream::hls::storage::{HlsStorage, MemoryStorage};
use stream::hls::{HlsConfig, HlsOutput, Timebase};
use stream::io::{IoError, IoErrorKind};
use stream::models::{MediaKind, MediaPacket};
use stream::sink::PacketSink;
use stream::telemetry::{Level, OwnedValue};

/// Build an AVCC from the real helpers so the embedded SPS is valid.
fn real_avcc() -> Vec<u8> {
    let sps = [0x67, 0x42, 0xC0, 0x1E, 0xF4, 0x0A, 0x0F, 0xC8];
    let pps = [0x68, 0xCE, 0x3C, 0x80];
    build_avcc(&sps, &pps)
}

const ASC: &[u8] = &[0x0A, 0x10]; // AAC-LC 44.1 kHz stereo

fn key(pts: i64) -> MediaPacket {
    MediaPacket::video(pts, true, vec![0, 0, 0, 1, 0x65, 0x88])
}

fn inter(pts: i64) -> MediaPacket {
    MediaPacket::video(pts, false, vec![0, 0, 0, 1, 0x41, 0x77])
}

fn audio(pts: i64) -> MediaPacket {
    // ADTS-wrapped so the ASC can be sniffed even without codecs().
    let payload: &[u8] = &[0x21, 0x00, 0x49];
    let frame_length = 7 + payload.len();
    let mut out = vec![
        0xFF,
        0xF1,
        0x50,
        0x80,
        ((frame_length >> 3) & 0xFF) as u8,
        (((frame_length & 0x07) as u8) << 5) | 0x1F,
        0xFC,
    ];
    out.extend_from_slice(payload);
    MediaPacket {
        kind: MediaKind::Audio,
        pts,
        dts: pts,
        is_key: false,
        data: out,
    }
}

fn output(target_secs: u32, window: usize) -> HlsOutput<MemoryStorage> {
    let cfg = HlsConfig {
        target_duration_secs: target_secs,
        window_size: window,
        ..Default::default()
    };
    let mut out = HlsOutput::new(cfg, MemoryStorage::default());
    out.codecs(Some(&real_avcc()), Some(ASC));
    out
}

#[test]
fn segments_cut_on_keyframes_past_target_duration() {
    let mut out = output(1, 6);
    out.packet(&key(0)).unwrap();
    out.packet(&audio(0)).unwrap();
    out.packet(&inter(1000)).unwrap();
    out.packet(&key(2000)).unwrap(); // spans 1s → cut here
    out.packet(&inter(3000)).unwrap();
    out.packet(&key(4000)).unwrap(); // second cut
    out.finish().unwrap();

    assert_eq!(out.segment_count(), 3);
    let names = out.storage().names();
    assert!(names.contains(&"init.mp4"));
    assert!(names.contains(&"seg0.m4s"));
    assert!(names.contains(&"seg1.m4s"));
    assert!(names.contains(&"seg2.m4s"));

    let playlist = std::str::from_utf8(out.storage().get("playlist.m3u8").unwrap()).unwrap();
    assert!(playlist.starts_with("#EXTM3U\n"));
    assert!(playlist.contains("#EXT-X-VERSION:7"));
    assert!(playlist.contains("#EXT-X-TARGETDURATION:2"));
    assert!(playlist.contains("#EXT-X-MAP:URI=\"init.mp4\""));
    // Segment 0 spans key(0)..inter(1000) + one default frame = 1.033 s.
    assert!(playlist.contains("#EXTINF:1.033,\nseg0.m4s"));
    assert!(playlist.ends_with("#EXT-X-ENDLIST\n"));
}

#[test]
fn no_cut_before_target_duration() {
    let mut out = output(4, 6);
    out.packet(&key(0)).unwrap();
    out.packet(&key(1000)).unwrap(); // only 1s in: no cut
    out.packet(&inter(1500)).unwrap();
    out.finish().unwrap();
    assert_eq!(out.segment_count(), 1);
}

#[test]
fn waits_for_first_keyframe_and_configs() {
    let mut out = output(2, 6);
    out.packet(&inter(0)).unwrap(); // before any key: dropped
    out.packet(&key(100)).unwrap();
    out.finish().unwrap();
    assert_eq!(out.segment_count(), 1);
    let playlist = std::str::from_utf8(out.storage().get("playlist.m3u8").unwrap()).unwrap();
    assert!(playlist.contains("#EXTINF:0.033,\nseg0.m4s"));
}

#[test]
fn sliding_window_prunes_old_segments() {
    let mut out = output(1, 2);
    // Keys 1 s apart: a segment closes on the key that finds the open
    // segment spanning >= 1 s (here: every second key).
    for g in 0..5 {
        out.packet(&key(i64::from(g) * 1000)).unwrap();
    }
    out.finish().unwrap();
    assert_eq!(out.segment_count(), 3);
    // Window keeps only the newest two, and old files are deleted.
    let names = out.storage().names();
    assert!(!names.contains(&"seg0.m4s"));
    assert!(names.contains(&"seg1.m4s"));
    assert!(names.contains(&"seg2.m4s"));
    let playlist = std::str::from_utf8(out.storage().get("playlist.m3u8").unwrap()).unwrap();
    assert!(playlist.contains("#EXT-X-MEDIA-SEQUENCE:1"));
    assert!(!playlist.contains("seg0.m4s"));
}

#[test]
fn audio_only_stream_segments_on_duration() {
    let mut out = HlsOutput::new(
        HlsConfig {
            target_duration_secs: 1,
            window_size: 8,
            ..Default::default()
        },
        MemoryStorage::default(),
    );
    out.codecs(None, Some(ASC));
    for i in 0..100 {
        out.packet(&audio(i64::from(i) * 23)).unwrap();
    }
    out.finish().unwrap();
    assert!(out.segment_count() >= 2, "audio-only cuts on duration");
    let playlist = std::str::from_utf8(out.storage().get("playlist.m3u8").unwrap()).unwrap();
    assert!(playlist.contains("#EXT-X-MAP"));
}

#[test]
fn sniffed_configs_from_packets_work() {
    let mut out = HlsOutput::new(HlsConfig::default(), MemoryStorage::default());
    // Keyframe carries SPS/PPS inline; audio arrives ADTS-wrapped.
    let mut keyframe = vec![0, 0, 0, 1];
    keyframe.extend_from_slice(&[0x67, 0x42, 0xC0, 0x1E, 0xF4, 0x0A, 0x0F, 0xC8]);
    keyframe.extend_from_slice(&[0, 0, 0, 1]);
    keyframe.extend_from_slice(&[0x68, 0xCE, 0x3C, 0x80]);
    keyframe.extend_from_slice(&[0, 0, 0, 1]);
    keyframe.extend_from_slice(&[0x65, 0x88]);
    out.packet(&MediaPacket::video(0, true, keyframe)).unwrap();
    out.packet(&audio(10)).unwrap();
    out.finish().unwrap();
    assert_eq!(out.segment_count(), 1);
    let init = out.storage().get("init.mp4").unwrap();
    assert!(init.windows(4).any(|w| w == b"avc1"));
    assert!(init.windows(4).any(|w| w == b"mp4a"));
}

#[test]
fn finish_is_idempotent_and_late_packets_ignored() {
    let mut out = output(2, 6);
    out.packet(&key(0)).unwrap();
    out.finish().unwrap();
    let count = out.segment_count();
    out.packet(&inter(40)).unwrap();
    out.finish().unwrap();
    assert_eq!(out.segment_count(), count);
}

#[test]
fn b_frame_cts_lands_in_trun() {
    let mut out = output(2, 6);
    // B-frame: pts behind dts → negative composition offset.
    let mut pkt = key(0);
    pkt.pts = -40;
    out.packet(&pkt).unwrap();
    out.packet(&inter(40)).unwrap();
    out.finish().unwrap();
    let seg = out.storage().get("seg0.m4s").unwrap();
    // Find the trun and check the first sample's composition offset is -40ms
    // in 90 kHz ticks (-3600).
    let mut found = false;
    for w in seg.windows(4) {
        if w == b"trun" {
            found = true;
            break;
        }
    }
    assert!(found, "segment must contain a trun box");
    let expected = (-40i64 * 90_000 / 1000) as i32;
    let needle = expected.to_be_bytes();
    assert!(seg.windows(4).any(|w| w == needle), "negative cto encoded: {expected}");
}

#[test]
fn the_playlist_is_exact() {
    let mut out = output(1, 6);
    out.packet(&key(0)).unwrap();
    out.packet(&inter(1000)).unwrap();
    out.packet(&key(2000)).unwrap();
    let playlist = std::str::from_utf8(out.storage().get("playlist.m3u8").unwrap()).unwrap().to_string();
    assert_eq!(
        playlist,
        "#EXTM3U\n#EXT-X-VERSION:7\n#EXT-X-TARGETDURATION:2\n#EXT-X-MEDIA-SEQUENCE:0\n\
         #EXT-X-INDEPENDENT-SEGMENTS\n#EXT-X-MAP:URI=\"init.mp4\"\n#EXTINF:1.033,\nseg0.m4s\n"
    );
    out.finish().unwrap();
    let names: Vec<String> = out.into_storage().names().iter().map(|n| n.to_string()).collect();
    assert_eq!(names, vec!["init.mp4", "playlist.m3u8", "seg0.m4s", "seg1.m4s"]);
}

/// Storage that has no room left.
struct Full;

impl HlsStorage for Full {
    fn write_file(&mut self, _: &str, _: &[u8]) -> Result<(), IoError> {
        Err(IoError::new(IoErrorKind::Other, "no space left"))
    }

    fn remove_file(&mut self, _: &str) -> Result<(), IoError> {
        Ok(())
    }
}

#[test]
fn full_storage_is_reported() {
    let mut out = HlsOutput::new(HlsConfig::default(), Full);
    out.codecs(Some(&real_avcc()), Some(ASC));
    let first = out.packet(&key(0));
    let r = first.and_then(|()| out.finish());
    assert_eq!(r.unwrap_err().message, "no space left");
}

#[test]
fn normalized_times_never_go_back() {
    let mut t = Timebase::new();
    let times: Vec<i64> = [5_000, 5_040, 5_000, 100, 140].iter().map(|d| t.normalize(*d)).collect();
    assert_eq!(times[0], 0);
    assert_eq!(times[1], 40);
    assert!(times.windows(2).all(|w| w[0] <= w[1]), "{times:?}");
}

/// Storage that takes so many writes, and never removes anything.
struct Sticky {
    files: MemoryStorage,
    writes: usize,
}

impl HlsStorage for Sticky {
    fn write_file(&mut self, name: &str, data: &[u8]) -> Result<(), IoError> {
        if self.writes == 0 {
            return Err(IoError::new(IoErrorKind::Other, "no space left"));
        }
        self.writes -= 1;
        self.files.write_file(name, data)
    }

    fn remove_file(&mut self, _: &str) -> Result<(), IoError> {
        Err(IoError::new(IoErrorKind::Other, "read-only"))
    }
}

fn sticky(writes: usize) -> HlsOutput<Sticky> {
    let cfg = HlsConfig {
        target_duration_secs: 1,
        window_size: 1,
        ..Default::default()
    };
    let files = MemoryStorage::default();
    let mut out = HlsOutput::new(cfg, Sticky { files, writes });
    out.codecs(Some(&real_avcc()), Some(ASC));
    out.set_log_level(Some(Level::Warn));
    out
}

#[test]
fn a_segment_that_was_refused_is_not_counted() {
    // The initialization segment is stored, the segment is not.
    let mut out = sticky(1);
    out.packet(&key(0)).unwrap();
    out.packet(&inter(1000)).unwrap();
    assert_eq!(out.packet(&key(2000)).unwrap_err().message, "no space left");
    assert_eq!(out.segment_count(), 0);
    assert_eq!(out.storage().files.names(), vec!["init.mp4"]);
    // Only the playlist is refused: the segment is there, and counted.
    let mut out = sticky(2);
    out.packet(&key(0)).unwrap();
    out.packet(&inter(1000)).unwrap();
    assert!(out.packet(&key(2000)).is_err());
    assert_eq!(out.segment_count(), 1);
    assert_eq!(out.storage().files.names(), vec!["init.mp4", "seg0.m4s"]);
}

#[test]
fn a_segment_that_cannot_be_removed_is_left_behind() {
    let mut out = sticky(100);
    for i in 0..4 {
        out.packet(&key(i * 2000)).unwrap();
        out.packet(&inter(i * 2000 + 1000)).unwrap();
    }
    assert_eq!(out.segment_count(), 3);
    let names = out.storage().files.names();
    assert_eq!(names, vec!["init.mp4", "playlist.m3u8", "seg0.m4s", "seg1.m4s", "seg2.m4s"]);
    let records = out.take_records();
    assert_eq!(records.len(), 2);
    assert_eq!(records[1].message, "hls failed to remove old segment");
    assert!(matches!(&records[1].fields[0].1, OwnedValue::Str(f) if f == "seg1.m4s"));
    assert!(matches!(&records[1].fields[1].1, OwnedValue::Str(e) if e == "read-only"));
}

#[test]
fn without_a_track_the_storage_is_not_asked() {
    let mut out = HlsOutput::new(HlsConfig::default(), Full);
    out.set_log_level(Some(Level::Debug));
    out.packet(&inter(0)).unwrap();
    out.packet(&inter(40)).unwrap();
    let messages: Vec<String> = out.take_records().into_iter().map(|r| r.message).collect();
    assert_eq!(messages, vec!["hls waiting for video config"], "said once");
    out.codecs(Some(&real_avcc()), None);
    out.packet(&inter(80)).unwrap();
    out.packet(&key(9_000)).unwrap();
    out.packet(&inter(100)).unwrap();
    let messages: Vec<String> = out.take_records().into_iter().map(|r| r.message).collect();
    assert_eq!(messages, vec!["hls waiting for first keyframe", "hls clock rebase"]);
}
