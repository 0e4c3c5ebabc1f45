//! Fan-out over several transports.

use std::sync::{Arc, Mutex};
use stream::io::{IoError, IoErrorKind, Sink};
use stream::telemetry::{Level, OwnedValue};
use stream::transport::{Fanout, Transport};

/// In-memory sink that records bytes and can be killed on demand.
#[derive(Clone, Default)]
struct MemSink {
    bytes: Arc<Mutex<Vec<u8>>>,
    dead: Arc<Mutex<bool>>,
}

impl MemSink {
    fn kill(&self) {
        *self.dead.lock().unwrap() = true;
    }

    fn collected(&self) -> Vec<u8> {
        self.bytes.lock().unwrap().clone()
    }
}

impl Sink for MemSink {
    fn write_all(&mut self, buf: &[u8]) -> Result<(), IoError> {
        if *self.dead.lock().unwrap() {
            return Err(IoError::new(IoErrorKind::BrokenPipe, "dead"));
        }
        self.bytes.lock().unwrap().extend_from_slice(buf);
        Ok(())
    }

    fn flush(&mut self) -> Result<(), IoError> {
        if *self.dead.lock().unwrap() {
            return Err(IoError::new(IoErrorKind::BrokenPipe, "dead"));
        }
        Ok(())
    }
}

impl Transport for MemSink {
    fn shutdown(&mut self) -> Result<(), IoError> {
        Ok(())
    }

    fn last_progress(&self) -> Option<u64> {
        None
    }

    fn bytes_written(&self) -> u64 {
        self.bytes.lock().unwrap().len() as u64
    }

    fn rtt(&self) -> Option<u64> {
        None
    }

    fn maintain(&mut self) -> Result<(), IoError> {
        Ok(())
    }
}

#[test]
fn tees_identical_bytes_to_every_sink() {
    let a = MemSink::default();
    let b = MemSink::default();
    let c = MemSink::default();
    let mut fan = Fanout::with_primary(a.clone());
    fan.add(b.clone());
    fan.add(c.clone());

    fan.write_all(b"hello ").unwrap();
    fan.write_all(b"world").unwrap();

    for sink in [&a, &b, &c] {
        assert_eq!(sink.collected(), b"hello world");
    }
    assert_eq!(fan.bytes_written(), 11, "telemetry follows the primary");
    assert_eq!(fan.alive(), 3);
}

#[test]
fn secondary_failure_is_contained_and_retired() {
    let primary = MemSink::default();
    let flaky = MemSink::default();
    let mut fan = Fanout::with_primary(primary.clone());
    fan.add(flaky.clone());

    fan.write_all(b"one").unwrap();
    flaky.kill();
    // The secondary dies mid-stream: the write still succeeds...
    fan.write_all(b"two").unwrap();
    // ...the secondary saw only the first write...
    assert_eq!(flaky.collected(), b"one");
    // ...and is retired, while the primary keeps receiving everything.
    assert_eq!(fan.alive(), 1);
    fan.write_all(b"three").unwrap();
    assert_eq!(primary.collected(), b"onetwothree");
    assert_eq!(fan.alive(), 1, "a retired sink is never retried");
}

#[test]
fn primary_failure_propagates() {
    let primary = MemSink::default();
    let secondary = MemSink::default();
    let mut fan = Fanout::with_primary(primary.clone());
    fan.add(secondary.clone());

    primary.kill();
    let err = fan.write_all(b"x").unwrap_err();
    assert_eq!(err.kind(), IoErrorKind::BrokenPipe);
    // The secondary still got the bytes: only the publish path fails.
    assert_eq!(secondary.collected(), b"x");
}

#[test]
fn empty_fanout_refuses_writes() {
    let mut fan: Fanout<MemSink> = Fanout::new();
    assert!(fan.is_empty());
    let err = fan.write_all(b"x").unwrap_err();
    assert_eq!(err.kind(), IoErrorKind::BrokenPipe);
}

#[test]
fn all_dead_fanout_refuses_writes() {
    let primary = MemSink::default();
    let mut fan = Fanout::with_primary(primary.clone());
    primary.kill();
    // Primary error takes precedence over the "no live sinks" report.
    assert!(fan.write_all(b"x").is_err());
    assert_eq!(fan.alive(), 1, "the primary is never retired, only reported");
}

/// A sink that reports what it is told to.
struct Reporting {
    progress: Option<u64>,
    rtt: Option<u64>,
}

impl Sink for Reporting {
    fn write_all(&mut self, _: &[u8]) -> Result<(), IoError> {
        Ok(())
    }

    fn flush(&mut self) -> Result<(), IoError> {
        Ok(())
    }
}

impl Transport for Reporting {
    fn shutdown(&mut self) -> Result<(), IoError> {
        Ok(())
    }

    fn last_progress(&self) -> Option<u64> {
        self.progress
    }

    fn bytes_written(&self) -> u64 {
        0
    }

    fn rtt(&self) -> Option<u64> {
        self.rtt
    }

    fn maintain(&mut self) -> Result<(), IoError> {
        Ok(())
    }
}

#[test]
fn progress_and_rtt_follow_live_sinks() {
    let older: u64 = 5_000;
    let newer: u64 = 10_000;
    let mut fan = Fanout::with_primary(Reporting {
        progress: Some(older),
        rtt: None,
    });
    fan.add(Reporting {
        progress: Some(newer),
        rtt: Some(12_000_000),
    });
    assert_eq!(fan.last_progress(), Some(newer));
    assert_eq!(fan.rtt(), Some(12_000_000));
    assert!(Fanout::<Reporting>::new().last_progress().is_none());
}

#[test]
fn a_failed_flush_retires_a_secondary_only() {
    let primary = MemSink::default();
    let flaky = MemSink::default();
    let mut fan = Fanout::with_primary(primary.clone());
    fan.add(flaky.clone());

    flaky.kill();
    fan.flush().unwrap();
    assert_eq!(fan.alive(), 1);
    primary.kill();
    let err = fan.flush().unwrap_err();
    assert_eq!(err.kind(), IoErrorKind::BrokenPipe);
    assert_eq!(fan.alive(), 1, "the primary is never retired, only reported");
}

/// A secondary whose every write fails.
struct Failing(Reporting);

impl Sink for Failing {
    fn write_all(&mut self, _: &[u8]) -> Result<(), IoError> {
        if self.0.progress.is_some() {
            return Err(IoError::new(IoErrorKind::BrokenPipe, "gone"));
        }
        Ok(())
    }

    fn flush(&mut self) -> Result<(), IoError> {
        Ok(())
    }
}

impl Transport for Failing {
    fn shutdown(&mut self) -> Result<(), IoError> {
        Ok(())
    }

    fn last_progress(&self) -> Option<u64> {
        self.0.progress
    }

    fn bytes_written(&self) -> u64 {
        0
    }

    fn rtt(&self) -> Option<u64> {
        self.0.rtt
    }

    fn maintain(&mut self) -> Result<(), IoError> {
        Ok(())
    }
}

#[test]
fn a_retired_sink_reports_nothing() {
    let mut fan = Fanout::with_primary(Failing(Reporting { progress: None, rtt: None }));
    fan.add(Failing(Reporting { progress: Some(9), rtt: Some(4) }));
    fan.add(Failing(Reporting { progress: None, rtt: Some(7) }));
    assert_eq!(fan.last_progress(), Some(9));
    assert_eq!(fan.rtt(), Some(4));
    fan.write_all(b"x").unwrap();
    assert_eq!(fan.alive(), 2);
    assert_eq!(fan.last_progress(), None);
    assert_eq!(fan.rtt(), Some(7));
}

#[test]
fn a_secondary_that_fails_is_called_no_more() {
    let primary = MemSink::default();
    let flaky = MemSink::default();
    let mut fan = Fanout::with_primary(primary.clone());
    fan.add(flaky.clone());
    fan.set_log_level(Some(Level::Warn));
    fan.write_all(b"one").unwrap();
    flaky.kill();
    fan.write_all(b"two").unwrap();
    assert_eq!((fan.alive(), fan.len()), (1, 2));
    let records = fan.take_records();
    assert_eq!(records.len(), 1);
    assert_eq!(records[0].message, "fanout secondary retired");
    assert!(matches!(&records[0].fields[0], (k, OwnedValue::Str(v)) if k == "error" && v == "dead"));

    // Even alive again it gets nothing.
    *flaky.dead.lock().unwrap() = false;
    fan.write_all(b"three").unwrap();
    fan.flush().unwrap();
    assert_eq!(primary.collected(), b"onetwothree");
    assert_eq!(flaky.collected(), b"one");
    assert!(fan.take_records().is_empty());
}
