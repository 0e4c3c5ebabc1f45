//! The engine: buffer, muxer, transport and outputs.

use std::sync::{Arc, Mutex};
use stream::clock::Clock;
use stream::engine::{Engine, EngineConfig, EngineError, LatencyProfile};
use stream::io::{IoError, IoErrorKind, Sink};
use stream::models::{MediaPacket, StreamConfig};
use stream::sink::RecordingOutput;
use stream::telemetry::{QosConfig, QosEvent};
use stream::transport::{FileTransport, Transport};

/// The AAC `AudioSpecificConfig` and H.264 `AVCDecoderConfigurationRecord`.
const AVCC: &[u8] = &[
    0x01, 0x42, 0x00, 0x1F, 0xFF, 0xE1, 0x00, 0x03, 0x67, 0x42, 0x00, 0x0A, 0x01, 0x00, 0x03, 0x68, 0xCE,
];
const ASC: &[u8] = &[0x0A, 0x10];

/// A recorder that stands for "no outputs".
type Recorder = RecordingOutput<FileTransport<Vec<u8>>>;

/// In-memory transport that records whatever the muxer writes, until it dies.
#[derive(Clone, Default)]
struct MemSink {
    bytes: Arc<Mutex<Vec<u8>>>,
    budget: Arc<Mutex<Option<usize>>>,
}

impl MemSink {
    /// Let only `n` more bytes through.
    fn die_after(&self, n: usize) {
        *self.budget.lock().unwrap() = Some(n);
    }

    fn collected(&self) -> Vec<u8> {
        self.bytes.lock().unwrap().clone()
    }
}

impl Sink for MemSink {
    fn write_all(&mut self, buf: &[u8]) -> Result<(), IoError> {
        let mut budget = self.budget.lock().unwrap();
        if let Some(left) = *budget {
            if left < buf.len() {
                return Err(IoError::new(IoErrorKind::BrokenPipe, "connection died"));
            }
            *budget = Some(left - buf.len());
        }
        self.bytes.lock().unwrap().extend_from_slice(buf);
        Ok(())
    }

    fn flush(&mut self) -> Result<(), IoError> {
        Ok(())
    }
}

impl Transport for MemSink {
    fn shutdown(&mut self) -> Result<(), IoError> {
        Ok(())
    }

    fn last_progress(&self) -> Option<u64> {
        None
    }

    fn bytes_written(&self) -> u64 {
        self.bytes.lock().unwrap().len() as u64
    }

    fn rtt(&self) -> Option<u64> {
        None
    }

    fn maintain(&mut self) -> Result<(), IoError> {
        Ok(())
    }
}

/// Transport whose inbound health check always fails — models the
/// half-open zombie the watchdog detects.
struct DeadPeerSink(MemSink);

impl Sink for DeadPeerSink {
    fn write_all(&mut self, buf: &[u8]) -> Result<(), IoError> {
        self.0.write_all(buf)
    }

    fn flush(&mut self) -> Result<(), IoError> {
        self.0.flush()
    }
}

impl Transport for DeadPeerSink {
    fn shutdown(&mut self) -> Result<(), IoError> {
        Ok(())
    }

    fn last_progress(&self) -> Option<u64> {
        None
    }

    fn bytes_written(&self) -> u64 {
        0
    }

    fn rtt(&self) -> Option<u64> {
        None
    }

    fn maintain(&mut self) -> Result<(), IoError> {
        Err(IoError::new(
            IoErrorKind::BrokenPipe,
            "publisher watchdog: peer is dead",
        ))
    }
}

fn video(dts: i64, key: bool) -> MediaPacket {
    MediaPacket::video(dts, key, vec![0, 0, 0, 1, 0x65, 0x88])
}

fn audio(dts: i64) -> MediaPacket {
    MediaPacket::audio(dts, vec![0x21, 0x00, 0x49, 0x10, 0x04])
}

/// The kinds and times of the tags in FLV bytes.
fn tags(bytes: &[u8]) -> Vec<(u8, u32)> {
    let mut out = Vec::new();
    let mut pos = 13;
    while pos + 11 <= bytes.len() {
        let size = u32::from_be_bytes([0, bytes[pos + 1], bytes[pos + 2], bytes[pos + 3]]) as usize;
        let ts = u32::from_be_bytes([bytes[pos + 7], bytes[pos + 4], bytes[pos + 5], bytes[pos + 6]]);
        out.push((bytes[pos], ts));
        pos += 11 + size + 4;
    }
    out
}

#[test]
fn failed_maintain_fails_the_tick_without_muxing() {
    // A transport that reports its peer dead during maintain must fail
    // the tick (so the session reconnects) and must not have written
    // anything on this pass.
    let mem = MemSink::default();
    let mut engine: Engine<DeadPeerSink, Recorder> = Engine::new(EngineConfig::default());
    engine.attach_transport(DeadPeerSink(mem.clone()));
    engine.configure_codecs(Some(AVCC), Some(ASC)).unwrap();
    let before = mem.collected().len();
    engine.push(video(0, true)).unwrap();
    let err = engine.tick().unwrap_err();
    assert!(err.message().contains("watchdog"), "got: {}", err.message());
    assert_eq!(mem.collected().len(), before, "nothing may be written on this pass");
}

/// Video and audio pushed from two encoder threads arrive in *delivery*
/// order, not time order. The engine must mux in DTS order so the muxer never
/// sees audio "go backwards" and has to re-anchor its clock.
#[test]
fn bursty_delivery_is_muxed_in_dts_order_without_rebase() {
    let sink = MemSink::default();
    let mut engine: Engine<MemSink, Recorder> = Engine::new(EngineConfig::default());
    engine.configure_codecs(Some(AVCC), Some(ASC)).unwrap();
    engine.attach_transport(sink.clone());
    engine
        .push_all(vec![
            // A video encoder that just caught up after a stall delivers a
            // burst whose timestamps race ahead of the audio captured at the
            // same real moments.
            video(0, true),
            video(33, false),
            video(66, false),
            video(99, false),
            video(132, false),
            // The audio that *should* interleave between those frames, but
            // which arrives later in the buffer.
            audio(21),
            audio(42),
            audio(63),
            audio(84),
            audio(105),
        ])
        .unwrap();
    let written = engine.tick().unwrap();
    assert_eq!(written, 10, "every buffered packet must reach the wire");

    // Each packet keeps its own time: nothing was re-anchored.
    let media: Vec<(u8, u32)> = tags(&sink.collected()).split_off(3);
    assert_eq!(
        media,
        vec![(9, 0), (8, 21), (9, 33), (8, 42), (8, 63), (9, 66), (8, 84), (9, 99), (8, 105), (9, 132)]
    );
}

#[test]
fn unsent_packets_wait_for_the_next_transport() {
    let first = MemSink::default();
    let mut engine: Engine<MemSink, Recorder> = Engine::new(EngineConfig::default());
    engine.configure_codecs(Some(AVCC), Some(ASC)).unwrap();
    engine.attach_transport(first.clone());
    engine.push_all(vec![video(0, true), video(40, false), video(80, false)]).unwrap();
    engine.tick_at(0, 0).unwrap();
    first.die_after(0);
    engine.push_all(vec![video(120, true), video(160, false)]).unwrap();
    let err = engine.tick_at(1_000_000, 1).unwrap_err();
    assert!(matches!(err, EngineError::Mux(_)), "got {err:?}");
    assert_eq!(engine.stats_at(1_000_000).in_buffered_count, 2);

    let second = MemSink::default();
    engine.detach_transport();
    engine.attach_transport(second.clone());
    assert_eq!(engine.tick_at(2_000_000, 2).unwrap(), 2);
    let got = tags(&second.collected());
    // Introduced anew, no earlier than the first connection had come, then
    // resumed at the keyframe.
    assert_eq!(got, vec![(18, 80), (9, 80), (8, 80), (9, 120), (9, 160)]);
    let stats = engine.stats_at(2_000_000);
    assert_eq!((stats.pushed, stats.muxed, stats.dropped), (5, 5, 0));
}

#[test]
fn outputs_follow_the_publish() {
    let mut engine: Engine<MemSink, Recorder> = Engine::new(EngineConfig::default());
    engine.configure_codecs(Some(AVCC), Some(ASC)).unwrap();
    let recorder = RecordingOutput::new(FileTransport::new(Vec::new()), StreamConfig::default());
    assert_eq!(engine.attach_output(recorder), 1);
    engine.attach_transport(MemSink::default());
    engine.push_all(vec![video(0, true), audio(10)]).unwrap();
    engine.tick_at(0, 0).unwrap();
    engine.finish().unwrap();
    assert_eq!(engine.output_count(), 1);
    assert!(engine.outputs()[0].bytes_written() > 13);
}

#[test]
fn a_tight_budget_cuts_to_the_keyframe() {
    let config = EngineConfig {
        profile: LatencyProfile::Aggressive,
        ..Default::default()
    };
    let mut engine: Engine<MemSink, Recorder> = Engine::with_clock(config, Clock::new());
    let budget = LatencyProfile::Aggressive.packet_budget() as i64;
    for i in 0..budget * 2 {
        engine.push(video(i * 33, i % 4 == 0)).unwrap();
    }
    let stats = engine.stats_at(0);
    assert_eq!(stats.pushed, budget as u64 * 2);
    assert_eq!(stats.pushed, stats.dropped + stats.in_buffered_count as u64);
    assert!(stats.in_buffered_count <= budget as usize);
}

#[test]
fn samples_carry_rates_per_second() {
    let config = EngineConfig {
        qos: QosConfig {
            interval: 1_000_000_000,
            capacity: 8,
        },
        ..Default::default()
    };
    let sink = MemSink::default();
    let mut engine: Engine<MemSink, Recorder> = Engine::new(config);
    engine.configure_codecs(Some(AVCC), Some(ASC)).unwrap();
    engine.attach_transport(sink.clone());
    engine.tick_at(0, 1_000).unwrap();
    engine.push(video(0, true)).unwrap();
    engine.tick_at(2_000_000_000, 3_000).unwrap();
    let before = engine.qos().sample_count();
    let bytes = sink.collected().len() as u64;
    engine.push(video(40, false)).unwrap();
    engine.tick_at(4_000_000_000, 5_000).unwrap();
    assert_eq!(engine.qos().sample_count(), before + 1);
    let samples = engine.qos().samples();
    let last = &samples[samples.len() - 1];
    assert_eq!(last.wall_ms, 5_000);
    assert_eq!(last.uptime_ms, 4_000);
    let grown = sink.collected().len() as u64 - bytes;
    assert_eq!(f64::from_bits(last.bitrate_out_bps), grown as f64 * 8.0 / 2.0);
    assert_eq!(f64::from_bits(last.throughput_bps), grown as f64 * 8.0 / 2.0);
    // A tick inside the interval takes no sample.
    engine.tick_at(4_500_000_000, 5_500).unwrap();
    assert_eq!(engine.qos().sample_count(), before + 1);
}

#[test]
fn events_are_counted_and_reset() {
    let mut engine: Engine<MemSink, Recorder> = Engine::new(EngineConfig::default());
    engine.record_event(&QosEvent::Reconnected);
    engine.record_event(&QosEvent::Disconnected {
        error: Some("gone".to_string()),
    });
    assert_eq!(engine.reconnects(), 1);
    assert_eq!(engine.last_error().as_deref(), Some("gone"));
    engine.push(video(0, true)).unwrap();
    engine.reset();
    assert_eq!(engine.stats_at(0).pushed, 0);
    assert_eq!(engine.reconnects(), 0);
}

#[test]
fn resyncing_keeps_the_latest_keyframe() {
    let mut engine: Engine<MemSink, Recorder> = Engine::new(EngineConfig::default());
    for pkt in [video(0, true), audio(10), video(20, false), video(30, true), audio(40)] {
        engine.push(pkt).unwrap();
    }
    assert_eq!(engine.resync(), 3);
    let stats = engine.stats_at(0);
    assert_eq!((stats.pushed, stats.dropped, stats.in_buffered_count), (5, 3, 2));
    assert_eq!(engine.resync(), 0);
}

#[test]
fn every_packet_is_accounted_for() {
    let sink = MemSink::default();
    let mut engine: Engine<MemSink, Recorder> = Engine::new(EngineConfig::default());
    engine.configure_codecs(Some(AVCC), Some(ASC)).unwrap();
    engine.attach_transport(sink.clone());
    let unaccounted = |e: &Engine<MemSink, Recorder>| {
        let s = e.stats_at(0);
        s.pushed - s.dropped - s.muxed - s.in_buffered_count as u64
    };
    for i in 0..200 {
        engine.push(video(i * 40, i % 50 == 0)).unwrap();
    }
    assert_eq!(unaccounted(&engine), 0);
    engine.tick_at(0, 0).unwrap();
    engine.push_all(vec![video(9_000, false), video(9_040, true)]).unwrap();
    sink.die_after(0);
    assert!(engine.tick_at(1, 0).is_err());
    assert_eq!(unaccounted(&engine), 0);
    // An end that cannot write does not count what it drained.
    assert!(engine.finish().is_err());
    assert_eq!(unaccounted(&engine), 2);
}
