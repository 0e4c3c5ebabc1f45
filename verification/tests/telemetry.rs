//! Logging and quality-of-service telemetry.

use std::sync::{Arc, Mutex};
use stream::telemetry::{
    field, Level, LogBook, LogHub, Logger, Qos, QosConfig, QosEvent, QosRing, QosSample, Record, MAX_ERROR_LEN,
};

/// A captured log record: `(level, module, message, fields)`.
type Captured = (Level, String, String, Vec<(String, String)>);

/// Records every log record as `(level, module, message, fields)`.
#[derive(Clone, Default)]
struct Capture {
    records: Arc<Mutex<Vec<Captured>>>,
}

impl Logger for Capture {
    fn log(&mut self, record: &Record<'_>) {
        let fields = record
            .fields
            .iter()
            .map(|f| (f.key.to_owned(), format!("{:?}", f.value)))
            .collect();
        self.records.lock().unwrap().push((
            record.level,
            record.module.to_owned(),
            record.message.to_owned(),
            fields,
        ));
    }
}

fn records(capture: &Capture) -> Vec<Captured> {
    capture.records.lock().unwrap().clone()
}

/// Assert two floats are equal to within an epsilon.
fn assert_close(a: f64, b: f64) {
    assert!((a - b).abs() < 1e-9, "expected {a} to be close to {b}");
}

#[test]
fn max_level_filters_emission() {
    let capture = Capture::default();
    let mut hub = LogHub::new();
    hub.set_max_level(Level::Warn);
    hub.set_logger(Some(capture.clone()));
    hub.log(Level::Info, "telemetry", "silenced-info", &[]);
    hub.log(Level::Warn, "telemetry", "kept-warn", &[field("attempt", 2)]);
    hub.log(Level::Error, "telemetry", "kept-error", &[]);
    hub.set_logger(None);
    let recs = records(&capture);
    assert!(recs.iter().all(|(_, _, m, _)| m != "silenced-info"));
    assert!(recs.iter().any(|(_, _, m, _)| m == "kept-warn"));
    assert!(recs.iter().any(|(_, _, m, _)| m == "kept-error"));
    let warn = recs.iter().find(|(_, _, m, _)| m == "kept-warn").unwrap();
    assert!(warn.3.iter().any(|(k, v)| k == "attempt" && v == "Int(2)"));
}

#[test]
fn disabled_levels_skip_work_entirely() {
    let capture = Capture::default();
    let mut hub = LogHub::new();
    hub.set_max_level(Level::Info);
    hub.set_logger(Some(capture.clone()));
    hub.log(Level::Trace, "telemetry", "trace-silenced", &[field("expensive", "not evaluated")]);
    hub.log(Level::Info, "telemetry", "info-kept", &[]);
    hub.set_logger(None);
    let recs = records(&capture);
    assert_eq!(recs.len(), 1);
    assert_eq!(recs[0].2, "info-kept");
    assert_eq!(recs[0].1, "telemetry");
}

#[test]
fn the_threshold_decides_what_is_enabled() {
    let mut hub: LogHub<Capture> = LogHub::new();
    hub.set_max_level(Level::Warn);
    assert!(hub.enabled(Level::Error));
    assert!(hub.enabled(Level::Warn));
    assert!(!hub.enabled(Level::Info));
    assert_eq!(hub.max_level(), Level::Warn);
    assert!(hub.set_logger(Some(Capture::default())).is_none());
    assert!(hub.set_logger(None).is_some());
}

#[test]
fn levels_have_labels_in_order() {
    let labels: Vec<&str> = [Level::Error, Level::Warn, Level::Info, Level::Debug, Level::Trace]
        .iter()
        .map(|l| l.as_str())
        .collect();
    assert_eq!(labels, vec!["error", "warn", "info", "debug", "trace"]);
    assert!(Level::Error.rank() < Level::Trace.rank());
}

fn at(uptime_ms: u64) -> QosSample {
    QosSample {
        uptime_ms,
        ..QosSample::default()
    }
}

fn uptimes(ring: &QosRing) -> Vec<u64> {
    ring.to_vec().iter().map(|s| s.uptime_ms).collect()
}

#[test]
fn ring_keeps_newest_within_capacity() {
    let mut ring = QosRing::new(3);
    assert_eq!(ring.len(), 0);
    for i in 0..5 {
        ring.push(at(i));
    }
    assert_eq!(uptimes(&ring), vec![2, 3, 4], "oldest dropped, newest kept in order");
    assert_eq!(ring.get(0).uptime_ms, 2);
}

#[test]
fn ring_handles_underfilled_and_single_slot() {
    let mut ring = QosRing::new(4);
    for i in 0..2 {
        ring.push(at(i));
    }
    assert_eq!(ring.len(), 2);
    assert_eq!(ring.to_vec().len(), 2);

    let mut one = QosRing::new(1);
    one.push(at(1));
    one.push(at(2));
    assert_eq!(uptimes(&one), vec![2]);
    one.clear();
    assert!(one.is_empty());
}

#[test]
fn summary_computes_avg_and_peaks() {
    let mut q = Qos::new(QosConfig {
        capacity: 16,
        ..Default::default()
    });
    for i in 1..=4u64 {
        q.emit_sample(QosSample {
            uptime_ms: i * 1000,
            bitrate_out_bps: (i as f64 * 1000.0).to_bits(),
            throughput_bps: (i as f64 * 2000.0).to_bits(),
            buffer_ms: i64::try_from(i * 10).unwrap(),
            rtt_ms: Some((i as f64).to_bits()),
            pushed: 100,
            muxed: 100 - i,
            dropped: i,
            ..Default::default()
        });
    }
    let s = q.summary();
    assert_eq!(s.samples, 4);
    assert_close(f64::from_bits(s.avg_bitrate_out_bps), 2500.0);
    assert_close(f64::from_bits(s.peak_bitrate_out_bps), 4000.0);
    assert_close(f64::from_bits(s.avg_throughput_bps), 5000.0);
    assert_close(f64::from_bits(s.peak_throughput_bps), 8000.0);
    assert_close(f64::from_bits(s.avg_buffer_ms), 25.0);
    assert_eq!(s.max_buffer_ms, 40);
    assert_eq!(s.avg_rtt_ms.map(f64::from_bits), Some(2.5));
    assert_eq!(s.max_rtt_ms.map(f64::from_bits), Some(4.0));
    assert_eq!(s.dropped, 4);
    assert!(f64::from_bits(s.span_secs) >= 3.0);
}

#[test]
fn empty_summary_is_zeroed() {
    let q = Qos::new(QosConfig::default());
    let s = q.summary();
    assert_eq!(s.samples, 0);
    assert_close(f64::from_bits(s.avg_bitrate_out_bps), 0.0);
    assert_eq!(s.avg_rtt_ms, None);
    assert_eq!(s.max_buffer_ms, 0);
    assert_eq!(s.last_error, None);
}

/// Deliver what is waiting, the way a host does behind every call: the slot is
/// released while the sink runs.
fn deliver(q: &mut Qos, mut sink: impl FnMut(&mut Qos, QosSample)) {
    for sample in q.take_samples() {
        q.set_sink(false);
        sink(q, sample);
        q.set_sink(true);
    }
}

#[test]
fn events_update_counters_and_dispatch() {
    let mut q = Qos::new(QosConfig::default());
    q.set_event_sink(true);
    let events = [
        QosEvent::Started,
        QosEvent::Connected,
        QosEvent::Disconnected {
            error: Some("died".into()),
        },
        QosEvent::ReconnectAttempt {
            attempt: 1,
            error: Some("refused".into()),
        },
        QosEvent::Reconnected,
    ];
    for event in &events {
        q.record_event(event);
    }
    assert_eq!(q.reconnects(), 1);
    assert_eq!(q.reconnect_attempts(), 1);
    assert_eq!(q.last_error().as_deref(), Some("refused"));
    assert_eq!(q.take_events(), events);
    assert!(q.take_events().is_empty(), "each event is delivered once");
    q.reset();
    assert_eq!(q.reconnects(), 0);
    assert_eq!(q.reconnect_attempts(), 0);
    assert_eq!(q.last_error(), None);
    // The sink outlives the reset.
    q.record_event(&QosEvent::Finished);
    assert_eq!(q.take_events(), vec![QosEvent::Finished]);
}

#[test]
fn sink_dispatch_is_reentrant_safe() {
    let mut q = Qos::new(QosConfig::default());
    q.set_sink(true);
    for _ in 0..2 {
        q.emit_sample(QosSample::default());
        // Re-entering the collector from the sink must not lose the sample.
        deliver(&mut q, |q, _sample| q.emit_sample(QosSample::default()));
    }
    // 2 outer samples + 2 re-entrant samples, all retained.
    assert_eq!(q.sample_count(), 4);
    assert!(q.take_samples().is_empty());
}

#[test]
fn without_a_sink_nothing_waits_for_delivery() {
    let mut q = Qos::new(QosConfig::default());
    q.emit_sample(QosSample::default());
    q.record_event(&QosEvent::Started);
    q.set_sink(true);
    q.set_event_sink(true);
    assert!(q.take_samples().is_empty());
    assert!(q.take_events().is_empty());
}

#[test]
fn long_errors_are_shortened() {
    let mut q = Qos::new(QosConfig::default());
    q.record_event(&QosEvent::Disconnected {
        error: Some("e".repeat(MAX_ERROR_LEN + 40)),
    });
    let kept = q.last_error().unwrap();
    assert!(kept.starts_with('e'));
    assert!(kept.chars().count() <= MAX_ERROR_LEN + 1, "got {}", kept.chars().count());
}

#[test]
fn kept_records_are_delivered_in_order() {
    let mut book = LogBook::new();
    book.mark(Level::Error, "m", "before a level is set");
    book.set_level(Some(Level::Info));
    book.note(Level::Info, "m", "one", &[field("n", 7u32), field("s", "text")]);
    book.mark(Level::Debug, "m", "too much");
    book.fail(Level::Warn, "m", "two", "why");
    let capture = Capture::default();
    let mut hub = LogHub::new();
    hub.set_logger(Some(capture.clone()));
    let entries = book.take();
    hub.deliver(&entries);
    hub.set_max_level(Level::Warn);
    hub.deliver(&entries);
    let got: Vec<(Level, String)> = records(&capture).into_iter().map(|r| (r.0, r.2)).collect();
    assert_eq!(
        got,
        vec![
            (Level::Info, "one".to_owned()),
            (Level::Warn, "two".to_owned()),
            (Level::Warn, "two".to_owned()),
        ]
    );
    let first = &records(&capture)[0];
    assert_eq!(first.3[0], ("n".to_owned(), "Uint(7)".to_owned()));
    assert_eq!(first.3[1], ("s".to_owned(), "Str(\"text\")".to_owned()));
    assert!(book.take().is_empty());
}

#[test]
fn a_string_makes_a_field() {
    let text = String::from("some text");
    assert_eq!(format!("{:?}", field("k", &text).value), format!("{:?}", field("k", "some text").value));
}

#[test]
fn means_round_as_the_machine_does() {
    let mut q = Qos::new(QosConfig::default());
    let rates = [0.1, 0.1, 0.1];
    for (i, rate) in rates.iter().enumerate() {
        q.emit_sample(QosSample {
            bitrate_out_bps: f64::to_bits(*rate),
            drop_ratio: (i as f64 / 7.0).to_bits(),
            buffer_ms: -5 - i as i64,
            ..Default::default()
        });
    }
    let s = q.summary();
    assert_eq!(f64::from_bits(s.avg_bitrate_out_bps), (0.0 + 0.1 + 0.1 + 0.1) / 3.0);
    assert_eq!(f64::from_bits(s.peak_bitrate_out_bps), 0.1);
    assert_eq!(f64::from_bits(s.avg_buffer_ms), -6.0);
    assert_eq!(s.max_buffer_ms, 0);
    assert_eq!(f64::from_bits(s.drop_ratio), 2.0 / 7.0);
}
