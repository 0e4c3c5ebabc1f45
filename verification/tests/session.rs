//! Reconnecting sessions.

use std::sync::{Arc, Mutex};
use std::time::Duration;
use stream::clock::Clock;
use stream::engine::EngineConfig;
use stream::io::{IoError, IoErrorKind, Sink};
use stream::models::{MediaKind, MediaPacket};
use stream::session::{Connector, ReconnectPolicy, Rng, Session, SessionError, SessionPolicy, SessionState};
use stream::sink::RecordingOutput;
use stream::telemetry::{Level, OwnedValue, QosEvent};
use stream::transport::{FileTransport, Transport};

/// A recorder that stands for "no outputs".
type Recorder = RecordingOutput<FileTransport<Vec<u8>>>;

/// Milliseconds, in the nanoseconds that policies are written in.
fn ms(n: u64) -> u64 {
    n * 1_000_000
}

#[test]
fn backoff_grows_exponentially_and_caps() {
    let policy = ReconnectPolicy {
        initial_delay: ms(100),
        max_delay: ms(800),
        multiplier: 2.0f64.to_bits(),
        ..ReconnectPolicy::default()
    };
    assert_eq!(policy.base_delay(1), ms(100));
    assert_eq!(policy.base_delay(2), ms(200));
    assert_eq!(policy.base_delay(3), ms(400));
    assert_eq!(policy.base_delay(4), ms(800));
    // Capped forever after.
    assert_eq!(policy.base_delay(9), ms(800));
}

#[test]
fn jitter_stays_within_equal_jitter_band() {
    let policy = ReconnectPolicy {
        initial_delay: ms(100),
        jitter_seed: Some(42),
        ..Default::default()
    };
    let mut rng = Rng::seeded(42);
    for _ in 0..1000 {
        let d = policy.delay(1, &mut rng);
        assert!(d >= ms(50), "equal jitter keeps the floor: {d}");
        assert!(d < ms(100), "bounded by the base delay: {d}");
    }
}

#[test]
fn jitter_seed_is_deterministic() {
    let policy = ReconnectPolicy::default().deterministic(7);
    let mut a = Rng::seeded(7);
    let mut b = Rng::seeded(7);
    for attempt in 1..=5 {
        assert_eq!(policy.delay(attempt, &mut a), policy.delay(attempt, &mut b));
    }
}

#[test]
fn zero_initial_delay_stays_zero() {
    let policy = ReconnectPolicy {
        initial_delay: 0,
        max_delay: 0,
        ..Default::default()
    };
    let mut rng = Rng::seeded(1);
    for attempt in 1..=4 {
        assert_eq!(policy.delay(attempt, &mut rng), 0);
    }
}

#[test]
fn rng_covers_unit_interval_without_hitting_one() {
    let mut rng = Rng::seeded(1234);
    let mut saw_high = false;
    for _ in 0..10_000 {
        let v = f64::from_bits(rng.next_f64());
        assert!((0.0..1.0).contains(&v), "unit interval: {v}");
        if v > 0.99 {
            saw_high = true;
        }
    }
    assert!(saw_high, "distribution actually spreads out");
}

/// Minimal H.264 `AVCDecoderConfigurationRecord` (SPS 0x67, PPS 0x68).
const AVCC: &[u8] = &[
    0x01, 0x42, 0x00, 0x1F, 0xFF, 0xE1, 0x00, 0x03, 0x67, 0x42, 0x00, 0x0A, 0x01, 0x00, 0x03, 0x68, 0xCE,
];
/// AAC-LC `AudioSpecificConfig`: 44.1 kHz stereo.
const ASC: &[u8] = &[0x0A, 0x10];

/// In-memory transport with a kill switch and a stall switch, so tests can
/// simulate connection death and zombie connections without sockets. It makes
/// progress whenever it is asked, until it is told otherwise.
#[derive(Clone, Default)]
struct FakeTransport {
    log: Arc<Mutex<Vec<u8>>>,
    dead: Arc<Mutex<bool>>,
    frozen: Arc<Mutex<bool>>,
    progress: Arc<Mutex<Option<u64>>>,
}

impl FakeTransport {
    fn kill(&self) {
        *self.dead.lock().unwrap() = true;
    }

    /// Writes keep "succeeding" but progress reporting stops — a zombie.
    fn freeze_progress(&self) {
        *self.frozen.lock().unwrap() = true;
    }

    /// Progress was last made at `at` nanoseconds.
    fn force_stale_progress(&self, at: u64) {
        *self.progress.lock().unwrap() = Some(at);
    }

    fn bytes(&self) -> Vec<u8> {
        self.log.lock().unwrap().clone()
    }

    fn alive(&self) -> Result<(), IoError> {
        if *self.dead.lock().unwrap() {
            return Err(IoError::new(IoErrorKind::BrokenPipe, "connection died"));
        }
        Ok(())
    }
}

impl Sink for FakeTransport {
    fn write_all(&mut self, buf: &[u8]) -> Result<(), IoError> {
        self.alive()?;
        if !*self.frozen.lock().unwrap() {
            *self.progress.lock().unwrap() = None;
        }
        self.log.lock().unwrap().extend_from_slice(buf);
        Ok(())
    }

    fn flush(&mut self) -> Result<(), IoError> {
        self.alive()
    }
}

impl Transport for FakeTransport {
    fn shutdown(&mut self) -> Result<(), IoError> {
        Ok(())
    }

    fn last_progress(&self) -> Option<u64> {
        *self.progress.lock().unwrap()
    }

    fn bytes_written(&self) -> u64 {
        self.log.lock().unwrap().len() as u64
    }

    fn rtt(&self) -> Option<u64> {
        None
    }

    fn maintain(&mut self) -> Result<(), IoError> {
        Ok(())
    }
}

/// Shared knobs for the fake network: which transports were created, and
/// how many dials should fail next (tests arm this after `start`).
#[derive(Clone, Default)]
struct FakeNet {
    made: Arc<Mutex<Vec<FakeTransport>>>,
    failures: Arc<Mutex<u32>>,
}

impl Connector for FakeNet {
    type Transport = FakeTransport;

    fn connect(&mut self) -> Result<FakeTransport, IoError> {
        let mut failures = self.failures.lock().unwrap();
        if *failures > 0 {
            *failures -= 1;
            return Err(IoError::new(IoErrorKind::ConnectionRefused, "forced dial failure"));
        }
        let t = FakeTransport::default();
        self.made.lock().unwrap().push(t.clone());
        Ok(t)
    }
}

impl FakeNet {
    fn arm_failures(&self, n: u32) {
        *self.failures.lock().unwrap() = n;
    }

    fn transports(&self) -> Vec<FakeTransport> {
        self.made.lock().unwrap().clone()
    }
}

/// Zero-delay policy so tests never sleep; one attempt happens per `tick`.
fn fast_policy(max_attempts: Option<u32>) -> SessionPolicy {
    SessionPolicy {
        reconnect: ReconnectPolicy {
            initial_delay: 0,
            max_delay: 0,
            multiplier: 2.0f64.to_bits(),
            max_attempts,
            jitter_seed: Some(1),
        },
        stall_timeout: ms(60_000),
    }
}

fn session_with(net: &FakeNet, policy: SessionPolicy) -> Session<FakeNet, Recorder> {
    let mut session = Session::new(EngineConfig::default(), net.clone(), policy);
    session.configure_codecs(Some(AVCC), Some(ASC)).unwrap();
    session
}

fn key(pts: i64) -> MediaPacket {
    MediaPacket {
        kind: MediaKind::Video,
        pts,
        dts: pts,
        is_key: true,
        data: vec![0, 0, 0, 1, 0x65, 0x88],
    }
}

fn inter(pts: i64) -> MediaPacket {
    MediaPacket {
        kind: MediaKind::Video,
        pts,
        dts: pts,
        is_key: false,
        data: vec![0, 0, 0, 1, 0x41, 0x77],
    }
}

fn audio(pts: i64) -> MediaPacket {
    MediaPacket {
        kind: MediaKind::Audio,
        pts,
        dts: pts,
        is_key: false,
        data: vec![0x21, 0x00, 0x49],
    }
}

/// Parse FLV bytes into `(tag_type, timestamp, body)` triples.
fn parse_flv(bytes: &[u8]) -> Vec<(u8, u32, Vec<u8>)> {
    let mut out = Vec::new();
    let mut pos = 13; // skip the file header
    while pos + 11 <= bytes.len() {
        let kind = bytes[pos];
        let size = u32::from_be_bytes([0, bytes[pos + 1], bytes[pos + 2], bytes[pos + 3]]) as usize;
        let ts = u32::from_be_bytes([0, bytes[pos + 4], bytes[pos + 5], bytes[pos + 6]])
            | (u32::from(bytes[pos + 7]) << 24);
        let start = pos + 11;
        let end = start + size;
        if end + 4 > bytes.len() {
            break;
        }
        out.push((kind, ts, bytes[start..end].to_vec()));
        pos = end + 4;
    }
    out
}

#[test]
fn reconnects_after_transport_death_and_reemits_headers() {
    let net = FakeNet::default();
    let mut session = session_with(&net, fast_policy(Some(3)));
    session.start().unwrap();
    assert_eq!(session.state(), SessionState::Connected);

    // Stream a little on the first connection.
    session
        .push_all(vec![key(0), audio(0), inter(40), audio(46), inter(80)])
        .unwrap();
    session.tick().unwrap();
    let first = net.transports()[0].clone();
    assert!(!first.bytes().is_empty());

    // The connection dies; capture keeps producing.
    first.kill();
    session.push(key(120)).unwrap();

    // Zero backoff: the very next tick fails, dials, and resumes.
    session.tick().unwrap();
    assert_eq!(session.state(), SessionState::Connected);
    assert_eq!(session.reconnects(), 1);
    assert_eq!(net.transports().len(), 2);

    // The second connection starts with a fresh FLV header, metadata, and
    // both sequence headers — the new server knows nothing about the old.
    let second = net.transports()[1].clone();
    let bytes = second.bytes();
    assert_eq!(&bytes[..3], b"FLV", "re-emits the FLV header");
    let tags = parse_flv(&bytes);
    let kinds: Vec<u8> = tags.iter().map(|t| t.0).collect();
    assert_eq!(kinds[0], 18, "metadata first");
    assert_eq!(kinds[1], 9, "video sequence header");
    assert_eq!(tags[1].2[1], 0, "AVCPacketType=0");
    assert_eq!(kinds[2], 8, "audio sequence header");
    assert_eq!(tags[2].2[1], 0, "AACPacketType=0");

    // Media resumes from the newest keyframe at continued timestamps —
    // no restart at 0.
    let media: Vec<_> = tags.iter().skip(3).collect();
    assert!(!media.is_empty());
    let first = media[0];
    assert_eq!(first.0, 9, "resumes with video");
    assert_eq!(first.2[0], 0x17, "resumes on a keyframe");
    assert_eq!(first.1, 120, "timestamp continues, not reset");
    let ts_all: Vec<u32> = tags.iter().map(|t| t.1).collect();
    assert!(ts_all.windows(2).all(|w| w[0] <= w[1]), "monotonic: {ts_all:?}");
}

#[test]
fn in_flight_batch_survives_a_dead_transport() {
    let net = FakeNet::default();
    let mut session = session_with(&net, fast_policy(Some(3)));
    session.start().unwrap();

    // Nothing drained yet: kill immediately, then push a batch. The next
    // tick drains the batch, fails on the dead transport, and must hand
    // the packets back instead of losing them.
    net.transports()[0].kill();
    session.push_all(vec![key(0), inter(40)]).unwrap();
    session.tick().unwrap();

    let second = net.transports()[1].clone();
    let tags = parse_flv(&second.bytes());
    let video: Vec<_> = tags.iter().filter(|t| t.0 == 9).collect();
    assert_eq!(video.len(), 3, "seq header + key + inter all recovered");
}

#[test]
fn mid_gop_death_resumes_only_on_next_keyframe() {
    let net = FakeNet::default();
    let mut session = session_with(&net, fast_policy(Some(3)));
    session.start().unwrap();

    // Stream a keyframe, then more frames; all are drained to the wire.
    session
        .push_all(vec![key(0), inter(40), inter(80), inter(120), audio(46)])
        .unwrap();
    session.tick().unwrap();

    // The connection dies mid-GOP: the buffer now holds only inter-frames,
    // the newest keyframe already left. The resumed connection must not
    // start on an orphaned inter-frame.
    net.transports()[0].kill();
    session.push(inter(160)).unwrap();
    session.tick().unwrap();
    assert_eq!(session.reconnects(), 1);

    let second = net.transports()[1].clone();
    let tags = parse_flv(&second.bytes());
    let video_media: Vec<_> = tags.iter().filter(|t| t.0 == 9 && t.2.get(1) == Some(&1)).collect();
    assert!(
        video_media.is_empty(),
        "no orphaned inter-frames before a keyframe: {video_media:?}"
    );

    // The next keyframe the encoder produces is the resume point.
    session.push(key(1000)).unwrap();
    session.tick().unwrap();
    let tags = parse_flv(&second.bytes());
    let video_media: Vec<_> = tags.iter().filter(|t| t.0 == 9 && t.2.get(1) == Some(&1)).collect();
    assert_eq!(video_media.len(), 1, "resumes at the next keyframe");
    assert_eq!(video_media[0].2[0], 0x17, "frame type 1 keyframe");
    assert_eq!(video_media[0].1, 1000, "timestamp continues");
}

#[test]
fn retries_until_the_connector_recovers() {
    let net = FakeNet::default();
    let mut session = session_with(&net, fast_policy(Some(5)));
    session.start().unwrap();

    net.transports()[0].kill();
    net.arm_failures(2);
    session.push(key(0)).unwrap();

    // Attempt 1: dial fails, session parks in Reconnecting.
    session.tick().unwrap();
    assert_eq!(session.state(), SessionState::Reconnecting);
    assert_eq!(session.attempt(), 1);

    // Attempt 2 fails too.
    session.tick().unwrap();
    assert_eq!(session.state(), SessionState::Reconnecting);
    assert_eq!(session.attempt(), 2);

    // Attempt 3 succeeds and drains.
    session.tick().unwrap();
    assert_eq!(session.state(), SessionState::Connected);
    assert_eq!(session.attempt(), 0);
    assert_eq!(session.reconnects(), 1);
    // Failed dials create no transports: start + one reconnect.
    assert_eq!(net.transports().len(), 2);
}

#[test]
fn gives_up_after_capped_attempts_and_rearms_with_retry() {
    let net = FakeNet::default();
    let mut session = session_with(&net, fast_policy(Some(2)));
    session.start().unwrap();

    net.transports()[0].kill();
    net.arm_failures(u32::MAX);
    session.tick().unwrap(); // attempt 1 fails
    let err = session.tick().unwrap_err(); // attempt 2 hits the cap
    match err {
        SessionError::GiveUp { attempts, .. } => assert_eq!(attempts, 2),
        other => panic!("expected GiveUp, got {other:?}"),
    }
    assert_eq!(session.state(), SessionState::Exhausted);
    // Exhausted is sticky until re-armed.
    assert!(matches!(session.tick(), Err(SessionError::GiveUp { .. })));

    session.retry();
    assert_eq!(session.state(), SessionState::Reconnecting);
    assert_eq!(session.attempt(), 0);
    // Connector still down: attempts resume and hit the cap again.
    session.tick().unwrap();
    assert_eq!(session.attempt(), 1);
    assert!(matches!(session.tick(), Err(SessionError::GiveUp { .. })));
    assert_eq!(session.state(), SessionState::Exhausted);
}

#[test]
fn stall_detection_reconnects_a_zombie_transport() {
    let net = FakeNet::default();
    let mut policy = fast_policy(Some(3));
    policy.stall_timeout = ms(50);
    let mut session = session_with(&net, policy);
    session.start().unwrap();

    session.push(key(0)).unwrap();
    session.tick_at(ms(10_000), 0).unwrap();

    // Zombie: writes "succeed" but no forward progress is reported.
    let zombie = net.transports()[0].clone();
    zombie.freeze_progress();
    zombie.force_stale_progress(ms(5_000));

    session.push(inter(40)).unwrap();
    session.tick_at(ms(10_001), 0).unwrap();
    assert_eq!(session.state(), SessionState::Connected, "reconnected in place");
    assert_eq!(session.reconnects(), 1);
    assert_eq!(net.transports().len(), 2);
    assert!(session.last_error().unwrap().contains("no transport progress"));
}

#[test]
fn never_started_and_finished_states_are_terminal_for_tick() {
    let net = FakeNet::default();
    let mut session = session_with(&net, fast_policy(Some(3)));
    assert!(matches!(session.tick(), Err(SessionError::NotStarted)));

    session.start().unwrap();
    session.finish().unwrap();
    assert_eq!(session.state(), SessionState::Finished);
    assert!(matches!(session.tick(), Err(SessionError::Finished)));
}

#[test]
fn start_fails_loudly_without_retries() {
    let net = FakeNet::default();
    net.arm_failures(1);
    let mut session = session_with(&net, fast_policy(Some(5)));
    assert!(matches!(session.start(), Err(SessionError::Connect(_))));
    assert_eq!(session.state(), SessionState::Idle);
    assert!(net.transports().is_empty());
}

#[test]
fn push_works_while_disconnected() {
    let net = FakeNet::default();
    let mut session = session_with(&net, fast_policy(Some(5)));
    session.start().unwrap();

    net.transports()[0].kill();
    net.arm_failures(1);
    session.push(key(0)).unwrap();
    session.tick().unwrap(); // fails, dials (forced failure), parks
    assert_eq!(session.state(), SessionState::Reconnecting);

    // Capture keeps pushing while down; nothing is lost to errors.
    session.push_all(vec![inter(40), audio(46)]).unwrap();
    session.tick().unwrap(); // reconnects and drains
    assert_eq!(session.state(), SessionState::Connected);
    let second = net.transports()[1].clone();
    let tags = parse_flv(&second.bytes());
    let video: Vec<_> = tags.iter().filter(|t| t.0 == 9 && t.2.get(1) == Some(&1)).collect();
    assert_eq!(video.len(), 2, "key + inter delivered after resume");
}

#[test]
fn backoff_schedules_future_attempts() {
    // Nonzero delays: a failed attempt must park the session until the
    // scheduled time instead of hammering the server.
    let net = FakeNet::default();
    let policy = SessionPolicy {
        reconnect: ReconnectPolicy {
            initial_delay: ms(200),
            max_delay: ms(1_000),
            multiplier: 2.0f64.to_bits(),
            max_attempts: Some(5),
            jitter_seed: Some(3),
        },
        stall_timeout: ms(60_000),
    };
    let mut session = session_with(&net, policy);
    session.start().unwrap();
    net.transports()[0].kill();
    net.arm_failures(1);
    session.push(key(0)).unwrap();

    session.tick_at(0, 0).unwrap(); // attempt 1 fails, schedules attempt 2
    assert_eq!(session.state(), SessionState::Reconnecting);
    // An immediate tick does not dial again: the backoff hasn't elapsed.
    session.tick_at(ms(1), 0).unwrap();
    assert_eq!(session.attempt(), 1, "no retry before the scheduled time");

    session.tick_at(ms(220), 0).unwrap();
    assert_eq!(session.attempt(), 0);
    assert_eq!(session.state(), SessionState::Connected);
}

#[test]
fn the_lifecycle_is_reported_in_order() {
    let net = FakeNet::default();
    let mut session = session_with(&net, fast_policy(Some(2)));
    session.set_event_sink(true);
    session.start().unwrap();
    net.transports()[0].kill();
    net.arm_failures(1);
    session.push(key(0)).unwrap();
    session.tick_at(0, 0).unwrap(); // the connection is lost, one attempt fails
    session.tick_at(1, 0).unwrap(); // the next one comes through
    session.finish().unwrap();
    let refused = Some("forced dial failure".to_string());
    let events = session.take_events();
    assert_eq!(events.len(), 7, "{events:?}");
    assert_eq!(events[0], QosEvent::Started);
    assert_eq!(events[1], QosEvent::Connected);
    assert!(matches!(&events[2], QosEvent::Disconnected { error: Some(e) } if e.contains("connection died")));
    assert_eq!(
        events[3],
        QosEvent::ReconnectAttempt {
            attempt: 1,
            error: refused
        }
    );
    assert_eq!(events[4], QosEvent::Reconnected);
    assert_eq!(events[5], QosEvent::Connected);
    assert_eq!(events[6], QosEvent::Finished);
}

#[test]
fn giving_up_is_reported() {
    let net = FakeNet::default();
    let mut session = session_with(&net, fast_policy(Some(1)));
    session.start().unwrap();
    session.set_event_sink(true);
    net.transports()[0].kill();
    net.arm_failures(u32::MAX);
    session.push(key(0)).unwrap();
    let err = session.tick_at(0, 0).unwrap_err();
    assert_eq!(err.message(), "gave up after 1 reconnect attempts: forced dial failure");
    let events = session.take_events();
    assert_eq!(
        events[events.len() - 1],
        QosEvent::GaveUp {
            attempts: 1,
            error: Some("forced dial failure".to_string())
        }
    );
}

#[test]
fn unlimited_policies_never_run_out() {
    let policy = ReconnectPolicy::default().unlimited();
    assert_eq!(policy.max_attempts, None);
    assert_eq!(policy.initial_delay, ReconnectPolicy::default().initial_delay);
}

#[test]
fn finishing_while_down_discards_the_buffer() {
    let net = FakeNet::default();
    let mut session: Session<FakeNet, Recorder> =
        Session::new(EngineConfig::default(), net, SessionPolicy::default());
    session.push(MediaPacket::audio(0, vec![0x21])).unwrap();
    session.push(MediaPacket::audio(20, vec![0x21])).unwrap();
    session.finish().unwrap();
    assert_eq!(session.state(), SessionState::Finished);
    let stats = session.engine().stats_at(0);
    assert_eq!((stats.in_buffered_count, stats.dropped, stats.muxed), (0, 2, 0));
}

#[test]
fn every_answer_to_a_dial_is_taken() {
    let net = FakeNet::default();
    let mut session = session_with(&net, fast_policy(Some(2)));
    let refused = || IoError::new(IoErrorKind::ConnectionRefused, "refused");
    assert!(matches!(session.launch(Err(refused())), Err(SessionError::Connect(_))));
    assert_eq!(session.last_error().as_deref(), Some("refused"));

    let first = FakeTransport::default();
    session.launch(Ok(first.clone())).unwrap();
    assert_eq!(session.state(), SessionState::Connected);
    first.kill();
    net.arm_failures(1);
    session.push(key(0)).unwrap();
    session.tick_at(0, 0).unwrap();
    assert_eq!((session.state(), session.attempt()), (SessionState::Reconnecting, 1));

    let second = FakeTransport::default();
    assert_eq!(session.redial(Ok(second.clone()), ms(1), 0).unwrap(), 1);
    assert_eq!((session.state(), session.reconnects()), (SessionState::Connected, 1));
    assert!(!second.bytes().is_empty());
}

#[test]
fn the_last_refused_dial_gives_up() {
    let net = FakeNet::default();
    let mut session = session_with(&net, fast_policy(Some(1)));
    session.launch(Ok(FakeTransport::default())).unwrap();
    let last = IoError::new(IoErrorKind::ConnectionRefused, "refused");
    match session.redial(Err(last), 0, 0) {
        Err(SessionError::GiveUp { attempts, last }) => assert_eq!((attempts, last.as_str()), (1, "refused")),
        _ => panic!("the budget is spent"),
    }
    assert_eq!(session.state(), SessionState::Exhausted);
}

/// A network that counts its dials.
#[derive(Clone, Default)]
struct Counting {
    net: FakeNet,
    dials: Arc<Mutex<u32>>,
}

impl Connector for Counting {
    type Transport = FakeTransport;

    fn connect(&mut self) -> Result<FakeTransport, IoError> {
        *self.dials.lock().unwrap() += 1;
        self.net.connect()
    }
}

#[test]
fn a_dial_is_made_once_when_it_is_due() {
    let net = Counting::default();
    let dials = |n: &Counting| *n.dials.lock().unwrap();
    let policy = SessionPolicy {
        reconnect: ReconnectPolicy {
            initial_delay: ms(200),
            max_delay: ms(1_000),
            multiplier: 2.0f64.to_bits(),
            max_attempts: Some(5),
            jitter_seed: Some(3),
        },
        stall_timeout: ms(60_000),
    };
    let mut session: Session<Counting, Recorder> = Session::new(EngineConfig::default(), net.clone(), policy);
    session.configure_codecs(Some(AVCC), Some(ASC)).unwrap();
    assert_eq!(dials(&net), 0);
    session.start().unwrap();
    assert_eq!(dials(&net), 1);
    session.push(key(0)).unwrap();
    session.tick_at(0, 0).unwrap();
    assert_eq!(dials(&net), 1, "nothing is dialed while connected");
    net.net.transports()[0].kill();
    net.net.arm_failures(1);
    session.push(key(40)).unwrap();
    session.tick_at(10, 0).unwrap();
    assert_eq!(dials(&net), 2);
    session.tick_at(20, 0).unwrap();
    assert_eq!(dials(&net), 2, "not before the backoff has elapsed");
    session.tick_at(ms(900), 0).unwrap();
    assert_eq!(dials(&net), 3);
    assert_eq!(session.state(), SessionState::Connected);
}

#[test]
fn the_lifecycle_is_logged_in_order() {
    let net = FakeNet::default();
    let mut session = session_with(&net, fast_policy(Some(2)));
    session.set_log_level(Some(Level::Info));
    session.start().unwrap();
    net.transports()[0].kill();
    net.arm_failures(1);
    session.push(key(0)).unwrap();
    session.tick_at(0, 0).unwrap();
    session.tick_at(1, 0).unwrap();
    session.finish().unwrap();
    let records = session.take_records();
    let messages: Vec<&str> = records.iter().map(|r| r.message.as_str()).collect();
    assert_eq!(
        messages,
        vec![
            "transport attached",
            "stream started",
            "mux failed",
            "transport detached",
            "transport lost, reconnecting",
            "reconnect attempt failed",
            "transport attached",
            "reconnected",
            "stream finished",
            "stream finished",
        ]
    );
    assert_eq!(records[5].level, Level::Warn);
    assert_eq!(records[5].module, "stream::session");
    assert!(matches!(records[5].fields[0], (ref k, OwnedValue::Uint(1)) if k == "attempt"));
    assert!(session.take_records().is_empty());
    // Without a level nothing is kept.
    session.set_log_level(None);
    session.finish().unwrap();
    assert!(session.take_records().is_empty());
}

#[test]
fn any_growth_factor_is_taken() {
    let base = |multiplier: f64, attempt: u32| {
        ReconnectPolicy {
            initial_delay: ms(100),
            max_delay: ms(10_000),
            multiplier: multiplier.to_bits(),
            ..ReconnectPolicy::default()
        }
        .base_delay(attempt)
    };
    assert_eq!(base(1.5, 4), 337_500_000);
    assert_eq!(base(1.0001, 3), 100_020_001);
    assert_eq!(base(0.5, 7), ms(100));
    assert_eq!(base(-3.0, 7), ms(100));
    assert_eq!(base(f64::NAN, 7), ms(100));
    assert_eq!(base(f64::INFINITY, 1), ms(100));
    assert_eq!(base(f64::INFINITY, 2), ms(10_000));
    assert_eq!(base(1e300, 9), ms(10_000));
    assert_eq!(base(1.1, 1000), ms(10_000));
}

#[test]
fn the_schedule_is_that_of_the_machine() {
    for (initial, max, multiplier) in [
        (ms(250), ms(8_000), 1.5),
        (ms(100), ms(8_000), 1.5),
        (ms(100), ms(60_000), 1.1),
        (3, 1_000_000, 1.5),
        (1_234_567, 987_654_321, 1.7),
    ] {
        let policy = ReconnectPolicy {
            initial_delay: initial,
            max_delay: max,
            multiplier: f64::to_bits(multiplier),
            ..ReconnectPolicy::default()
        };
        let mut rng = Rng::seeded(21);
        let mut same = Rng::seeded(21);
        for attempt in 1..40 {
            let cap = Duration::from_nanos(max).as_secs_f64();
            let mut secs = Duration::from_nanos(initial).as_secs_f64().min(cap);
            for _ in 1..attempt {
                secs = (secs * multiplier).min(cap);
            }
            let base = Duration::from_secs_f64(secs);
            assert_eq!(u128::from(policy.base_delay(attempt)), base.as_nanos());
            let half = base.as_secs_f64() / 2.0;
            let unit = (same.next_u64() >> 11) as f64 * (1.0 / (1u64 << 53) as f64);
            let delay = Duration::from_secs_f64(half + half * unit).as_nanos();
            let delay = delay.clamp(base.as_nanos() / 2, base.as_nanos() - 1);
            assert_eq!(u128::from(policy.delay(attempt, &mut rng)), delay);
        }
    }
}

#[test]
fn the_smallest_delays_still_grow() {
    let policy = ReconnectPolicy {
        initial_delay: 1,
        max_delay: 1000,
        multiplier: 1.5f64.to_bits(),
        ..ReconnectPolicy::default()
    };
    let delays: Vec<u64> = (1..=6).map(|n| policy.base_delay(n)).collect();
    assert_eq!(delays, vec![1, 2, 2, 3, 5, 8]);
}

#[test]
fn a_stall_is_seen_to_the_nanosecond() {
    let net = FakeNet::default();
    let mut policy = fast_policy(Some(3));
    policy.stall_timeout = ms(50);
    let mut session = session_with(&net, policy);
    session.start().unwrap();
    let zombie = net.transports()[0].clone();
    zombie.freeze_progress();
    zombie.force_stale_progress(7);
    session.tick_at(ms(50) + 6, 0).unwrap();
    assert_eq!(session.reconnects(), 0);
    session.tick_at(ms(50) + 7, 0).unwrap();
    assert_eq!(session.reconnects(), 1);
    assert!(session.last_error().unwrap().contains("no transport progress for 50ms"));
}

#[test]
fn a_fresh_session_has_nothing() {
    let mut session = Session::<FakeNet, Recorder>::new(EngineConfig::default(), FakeNet::default(), fast_policy(None));
    assert_eq!(session.engine().output_count(), 0);
    assert_eq!(session.state(), SessionState::Idle);
    assert!(session.take_records().is_empty());
}

/// Dials once, and then takes its time to fail.
#[derive(Clone, Default)]
struct SlowNet {
    made: Arc<Mutex<Vec<FakeTransport>>>,
    dials: Arc<Mutex<u32>>,
}

impl Connector for SlowNet {
    type Transport = FakeTransport;

    fn connect(&mut self) -> Result<FakeTransport, IoError> {
        *self.dials.lock().unwrap() += 1;
        let mut made = self.made.lock().unwrap();
        if made.is_empty() {
            made.push(FakeTransport::default());
            return Ok(made[0].clone());
        }
        let clock = Clock::new();
        while clock.now_ns() < ms(400) {}
        Err(IoError::new(IoErrorKind::TimedOut, "nobody there"))
    }
}

#[test]
fn the_backoff_counts_from_the_end_of_the_dial() {
    let net = SlowNet::default();
    let mut policy = fast_policy(None);
    // Shorter than the dial takes, longer than the step behind it does.
    policy.reconnect.initial_delay = ms(300);
    policy.reconnect.max_delay = ms(300);
    let mut session = Session::<SlowNet, Recorder>::new(EngineConfig::default(), net.clone(), policy);
    session.configure_codecs(Some(AVCC), Some(ASC)).unwrap();
    session.start().unwrap();
    net.made.lock().unwrap()[0].kill();
    session.push(key(0)).unwrap();
    assert_eq!(session.tick().unwrap(), 0);
    assert_eq!(*net.dials.lock().unwrap(), 2);
    assert_eq!(session.tick().unwrap(), 0);
    assert_eq!(*net.dials.lock().unwrap(), 2, "no retry without a pause");
}
