//! The RTMP publishing client against a scripted server.

use std::sync::{Arc, Mutex};
use stream::clock::Clock;
use stream::io::{Cursor, IoError, IoErrorKind, Sink, Source};
use stream::rtmp::amf0::{ObjVal, Writer};
use stream::rtmp::handshake::{build_s1_complex, BLOCK_LEN};
use stream::rtmp::link::{
    CID_COMMAND, MSG_ACK, MSG_AMF0_COMMAND, MSG_AMF0_DATA, MSG_AUDIO, MSG_SET_CHUNK_SIZE, MSG_USER_CONTROL, MSG_VIDEO,
    MSG_WINDOW_ACK, UCM_PING_REQUEST, UCM_PING_RESPONSE,
};
use stream::rtmp::client::{publish_over, round_trip_time};
use stream::rtmp::link::Link;
use stream::rtmp::{frame_message, ChunkReader, RtmpConfig, RtmpConnector, RtmpTransport, DEFAULT_TIMEOUT};
use stream::telemetry::{Level, OwnedValue};
use stream::transport::Transport;

/// The wire, kept by the test while the transport writes to it.
#[derive(Clone, Default)]
struct Wire(Arc<Mutex<Vec<u8>>>);

impl Sink for Wire {
    fn write_all(&mut self, data: &[u8]) -> Result<(), IoError> {
        self.0.lock().unwrap().extend_from_slice(data);
        Ok(())
    }

    fn flush(&mut self) -> Result<(), IoError> {
        Ok(())
    }
}

/// Every message found on the wire, as `(mtype, payload)`.
type MsgLog = Vec<(u8, Vec<u8>)>;

/// Misbehaviors the scripted server can exhibit, one per error-path test.
#[derive(Default)]
struct Behavior {
    connect_error: bool,
    refuse_publish: bool,
    ping_before_create_stream: bool,
    window_ack: Option<u32>,
    /// Reply framed in default 128-byte chunks, ignoring the client's
    /// negotiated size — what some real ingest servers (e.g. `YouTube`) do.
    keep_128_chunks: bool,
}

fn num(x: f64) -> u64 {
    x.to_bits()
}

/// What a minimal RTMP server says: the handshake, then its answers to
/// connect/createStream/publish.
fn server_script(behavior: &Behavior) -> Vec<u8> {
    let reply_chunk = if behavior.keep_128_chunks { 128 } else { 4096 };
    let mut out = vec![3];
    out.extend(build_s1_complex(0));
    out.extend(vec![0u8; BLOCK_LEN]); // S2 (client ignores)

    if reply_chunk != 128 {
        out.extend(frame_message(CID_COMMAND, MSG_SET_CHUNK_SIZE, 0, 0, &4096u32.to_be_bytes(), 128));
    }
    if behavior.connect_error {
        let mut w = Writer::new();
        w.string("_error").number(num(1.0)).null().object(&[
            ("level", ObjVal::Str("error")),
            ("code", ObjVal::Str("NetConnection.Connect.Rejected")),
            ("description", ObjVal::Str("app not found")),
        ]);
        out.extend(frame_message(CID_COMMAND, MSG_AMF0_COMMAND, 0, 0, &w.into_bytes(), reply_chunk));
        return out;
    }
    if let Some(window) = behavior.window_ack {
        out.extend(frame_message(CID_COMMAND, MSG_WINDOW_ACK, 0, 0, &window.to_be_bytes(), reply_chunk));
    }
    let mut w = Writer::new();
    let long_desc = "d".repeat(500);
    let desc = if behavior.keep_128_chunks { long_desc.as_str() } else { "ok" };
    w.string("_result").number(num(1.0)).object(&[
        ("fmsVer", ObjVal::Str("FMS/3,0,1,123")),
        ("capabilities", ObjVal::Num(num(31.0))),
        ("description", ObjVal::Str(desc)),
    ]);
    out.extend(frame_message(CID_COMMAND, MSG_AMF0_COMMAND, 0, 0, &w.into_bytes(), reply_chunk));

    if behavior.ping_before_create_stream {
        let mut ping = Vec::new();
        ping.extend_from_slice(&UCM_PING_REQUEST.to_be_bytes());
        ping.extend_from_slice(&1234u32.to_be_bytes());
        out.extend(frame_message(CID_COMMAND, MSG_USER_CONTROL, 0, 0, &ping, reply_chunk));
    }
    let mut w = Writer::new();
    w.string("_result").number(num(2.0)).null().number(num(1.0));
    out.extend(frame_message(CID_COMMAND, MSG_AMF0_COMMAND, 0, 0, &w.into_bytes(), reply_chunk));

    let (level, code) = if behavior.refuse_publish {
        ("error", "NetStream.Publish.BadName")
    } else {
        ("status", "NetStream.Publish.Start")
    };
    let mut w = Writer::new();
    w.string("onStatus").number(num(3.0)).null().object(&[
        ("level", ObjVal::Str(level)),
        ("code", ObjVal::Str(code)),
        ("description", ObjVal::Str("whatever")),
    ]);
    out.extend(frame_message(CID_COMMAND, MSG_AMF0_COMMAND, 0, 0, &w.into_bytes(), reply_chunk));
    out
}

/// The messages a client put on the wire behind its handshake.
fn messages(wire: &Wire) -> MsgLog {
    let bytes = wire.0.lock().unwrap().clone();
    assert_eq!(bytes[0], 3);
    let total = bytes.len();
    let start = 1 + 2 * BLOCK_LEN;
    let mut cur = Cursor::new(bytes);
    cur.read_exact(start).unwrap();
    let mut reader = ChunkReader::new();
    let mut log = Vec::new();
    while cur.position() < total {
        let msg = reader.read_message(&mut cur).unwrap();
        if msg.mtype == MSG_SET_CHUNK_SIZE && msg.payload.len() >= 4 {
            // Honor the client's negotiated chunk size, like a real server.
            let p = &msg.payload;
            reader
                .set_chunk_size(u32::from_be_bytes([p[0], p[1], p[2], p[3]]) as usize)
                .unwrap();
        }
        log.push((msg.mtype, msg.payload));
    }
    log
}

// --- FLV crafting helpers for the tests ---

fn flv_tag(mtype: u8, ts: u32, body: &[u8]) -> Vec<u8> {
    let size = body.len();
    let mut t = Vec::with_capacity(11 + size + 4);
    t.push(mtype);
    t.extend_from_slice(&[(size >> 16) as u8, (size >> 8) as u8, size as u8]);
    t.extend_from_slice(&[(ts >> 16) as u8, (ts >> 8) as u8, ts as u8]);
    t.push(0); // timestamp extension
    t.extend_from_slice(&[0, 0, 0]); // stream id
    t.extend_from_slice(body);
    t.extend_from_slice(&((11 + size) as u32).to_be_bytes()); // prev tag size
    t
}

fn flv_header() -> Vec<u8> {
    let mut h = vec![0x46, 0x4c, 0x56, 0x01, 0x05, 0x00, 0x00, 0x00, 0x09];
    h.extend_from_slice(&[0, 0, 0, 0]);
    h
}

fn sample_flv() -> Vec<u8> {
    let mut b = flv_header();
    // onMetaData tag (type 18).
    let mut md = vec![0x02, 0x00, 0x0A];
    md.extend_from_slice(b"onMetaData");
    md.extend_from_slice(&[0x08, 0, 0, 0, 0]); // ECMA array, count 0
    md.extend_from_slice(&[0, 0, 0x09]);
    b.extend(flv_tag(18, 0, &md));
    // Video sequence header: 0x17 (key + AVC), AVCPacketType 0, cts, AVCC.
    b.extend(flv_tag(9, 0, &[0x17, 0x00, 0, 0, 0, 1, 0, 0, 0, 1, 0x67, 0x42]));
    // Audio sequence header: 0xAF, AACPacketType 0, ASC.
    b.extend(flv_tag(8, 0, &[0xAF, 0x00, 0x12, 0x10]));
    // Video frame: 0x17 key + AVC, packet type 1, cts, NAL.
    b.extend(flv_tag(9, 40, &[0x17, 0x01, 0, 0, 0, 0x06, 0x05, 0xFF]));
    // Audio frame.
    b.extend(flv_tag(8, 40, &[0xAF, 0x01, 0x21, 0x00]));
    b.extend(flv_tag(9, 80, &[0x27, 0x01, 0, 0, 0, 0x06, 0x05, 0xAA]));
    b
}

fn dial(behavior: &Behavior) -> (Result<RtmpTransport<Cursor, Wire>, IoError>, Wire) {
    let wire = Wire::default();
    let cfg = RtmpConfig::new("app", "myStream", "rtmp://localhost/app");
    let script = Cursor::new(server_script(behavior));
    (RtmpTransport::connect(script, wire.clone(), &cfg, 0, Clock::new()), wire)
}

fn run_publish(behavior: Behavior) -> (Result<RtmpTransport<Cursor, Wire>, IoError>, MsgLog) {
    let (mut result, wire) = dial(&behavior);
    if let Ok(t) = result.as_mut() {
        let _ = Transport::shutdown(t);
    }
    (result, messages(&wire))
}

#[test]
fn publish_roundtrip() {
    let (result, wire) = dial(&Behavior::default());
    let mut t = result.unwrap();
    assert_eq!(t.pid(), 1);

    let flv = sample_flv();
    t.write_all(&flv).unwrap();
    t.flush().unwrap();
    t.shutdown().unwrap();

    let collected = messages(&wire);
    let media: Vec<_> = collected
        .iter()
        .filter(|(mt, _)| matches!(mt, &(MSG_AUDIO | MSG_VIDEO | MSG_AMF0_DATA)))
        .collect();
    assert!(media.len() >= 5, "expected >=5 media messages, got {}", media.len());

    // [0] metadata -> @setDataFrame AMF0 data message.
    assert_eq!(media[0].0, MSG_AMF0_DATA);
    let md = &media[0].1;
    assert_eq!(&md[0..3], &[0x02, 0x00, 0x0D]);
    assert_eq!(&md[3..16], b"@setDataFrame");
    assert_eq!(&md[16..19], &[0x02, 0x00, 0x0A]);
    assert_eq!(&md[19..29], b"onMetaData");
    assert_eq!(md[29], 0x08, "ECMA array follows the method name");
    // [1] video sequence header: AVC, AVCPacketType == 0.
    assert_eq!(media[1].0, MSG_VIDEO);
    assert_eq!(media[1].1[1], 0);
    // [2] audio sequence header.
    assert_eq!(media[2].0, MSG_AUDIO);
    assert_eq!(media[2].1[1], 0);
    // [3] key video frame at ts 40, [4] audio at 40.
    assert_eq!(media[3].0, MSG_VIDEO);
    assert_eq!(media[4].0, MSG_AUDIO);
    // [5] inter video frame at ts 80.
    assert_eq!(media[5].0, MSG_VIDEO);
    assert_eq!(media[5].1[0] >> 4, 2); // inter frame type
}

#[test]
fn connect_error_is_surfaced() {
    let (result, _) = run_publish(Behavior {
        connect_error: true,
        ..Default::default()
    });
    let Err(err) = result else {
        panic!("connect must fail when the server sends `_error`")
    };
    let msg = err.message;
    assert!(msg.contains("NetConnection.Connect.Rejected"), "got: {msg}");
    assert!(msg.contains("app not found"), "got: {msg}");
}

#[test]
fn publish_refusal_is_surfaced() {
    let (result, _) = run_publish(Behavior {
        refuse_publish: true,
        ..Default::default()
    });
    let Err(err) = result else {
        panic!("publish must fail when the server refuses it")
    };
    let msg = err.message;
    assert!(msg.contains("NetStream.Publish.BadName"), "got: {msg}");
}

#[test]
fn ping_request_is_answered() {
    let (result, log) = run_publish(Behavior {
        ping_before_create_stream: true,
        ..Default::default()
    });
    assert!(result.is_ok(), "publish succeeds past the ping: {:?}", result.err());
    let pongs: Vec<_> = log
        .iter()
        .filter(|(mt, p)| {
            *mt == MSG_USER_CONTROL && p.len() >= 6 && u16::from_be_bytes([p[0], p[1]]) == UCM_PING_RESPONSE
        })
        .map(|(_, p)| u32::from_be_bytes([p[2], p[3], p[4], p[5]]))
        .collect();
    assert_eq!(pongs, vec![1234], "client must echo the ping timestamp");
}

#[test]
fn window_ack_triggers_acknowledgement() {
    let (result, log) = run_publish(Behavior {
        window_ack: Some(50),
        ..Default::default()
    });
    assert!(result.is_ok(), "publish succeeds: {:?}", result.err());
    let acks: Vec<u32> = log
        .iter()
        .filter(|(mt, p)| *mt == MSG_ACK && p.len() == 4)
        .map(|(_, p)| u32::from_be_bytes([p[0], p[1], p[2], p[3]]))
        .collect();
    assert!(!acks.is_empty(), "client must acknowledge the ack window");
    assert!(acks[0] >= 50, "ack counts received bytes: {}", acks[0]);
}

#[test]
fn survives_peer_that_keeps_128_chunk_framing() {
    // A real ingest server (YouTube) may ignore the client's Set Chunk Size
    // and keep framing replies in the default 128-byte chunks — including a
    // `connect` `_result` larger than 128 bytes, which then arrives split.
    let (result, _log) = run_publish(Behavior {
        keep_128_chunks: true,
        ..Default::default()
    });
    assert!(result.is_ok(), "publish must succeed: {:?}", result.err());
}

#[test]
fn config_defaults_to_a_timeout() {
    let cfg = RtmpConfig::new("a", "k", "rtmp://x/a");
    assert_eq!(cfg.timeout, Some(DEFAULT_TIMEOUT));
}

/// A peer that answers nothing.
struct Silent;

impl Source for Silent {
    fn read_exact(&mut self, _: usize) -> Result<Vec<u8>, IoError> {
        Err(IoError::new(IoErrorKind::TimedOut, "timed out"))
    }
}

#[test]
fn a_silent_peer_is_reported_with_its_own_error() {
    let cfg = RtmpConfig::new("app", "key", "rtmp://x/app");
    let wire = Wire::default();
    let Err(err) = RtmpTransport::connect(Silent, wire.clone(), &cfg, 0, Clock::new()) else {
        panic!("connect must fail against a silent server")
    };
    assert_eq!(err.kind(), IoErrorKind::TimedOut);
    // The opening of the handshake went out before the wait.
    assert_eq!(wire.0.lock().unwrap().len(), 1 + BLOCK_LEN);
}

#[test]
fn shutdown_says_goodbye() {
    let (result, log) = run_publish(Behavior::default());
    assert!(result.is_ok());
    let names: Vec<String> = log
        .iter()
        .filter(|(mt, _)| *mt == MSG_AMF0_COMMAND)
        .map(|(_, p)| String::from_utf8_lossy(&p[3..3 + usize::from(p[2])]).into_owned())
        .collect();
    assert_eq!(
        names,
        vec!["connect", "createStream", "publish", "FCUnpublish", "closeStream"]
    );
}

#[test]
fn the_default_port_applies_where_none_is_named() {
    let endpoint = |addr: &str| RtmpConnector::tcp(addr, RtmpConfig::new("a", "k", "rtmp://x/a")).endpoint();
    assert_eq!(endpoint("example.tv"), "example.tv:1935");
    assert_eq!(endpoint("example.tv:2000"), "example.tv:2000");
    assert_eq!(endpoint("[::1]"), "[::1]:1935");
    assert_eq!(endpoint("[::1]:2000"), "[::1]:2000");
}

#[test]
fn a_ping_answer_sets_the_round_trip_time() {
    let mut script = server_script(&Behavior::default());
    let mut pong = Vec::new();
    pong.extend_from_slice(&UCM_PING_RESPONSE.to_be_bytes());
    pong.extend_from_slice(&99u32.to_be_bytes());
    script.extend(frame_message(CID_COMMAND, MSG_USER_CONTROL, 0, 0, &pong, 4096));
    let cfg = RtmpConfig::new("app", "myStream", "rtmp://localhost/app");
    let mut t = RtmpTransport::connect(Cursor::new(script), Wire::default(), &cfg, 0, Clock::new()).unwrap();
    assert!(t.rtt().is_none());
    t.measure_rtt(99);
    assert!(t.rtt().is_some());
    // Without an answer the time stays as it is.
    let (result, _) = dial(&Behavior::default());
    let mut t = result.unwrap();
    t.measure_rtt(99);
    assert!(t.rtt().is_none());
}

#[test]
fn nothing_follows_a_refused_connect() {
    let script = server_script(&Behavior {
        connect_error: true,
        ..Default::default()
    });
    let mut link = Link::new(Cursor::new(script), Vec::new());
    let cfg = RtmpConfig::new("app", "key", "rtmp://x/app");
    let err = publish_over(&mut link, &cfg, 0).unwrap_err();
    assert_eq!(err.kind(), IoErrorKind::InvalidData);
    assert_eq!(err.message, "server rejected `connect`: NetConnection.Connect.Rejected: app not found");
    let wire = Wire::default();
    *wire.0.lock().unwrap() = link.into_sink();
    let log = messages(&wire);
    assert_eq!(log.len(), 2);
    assert_eq!(log[0].0, MSG_SET_CHUNK_SIZE);
    assert_eq!(log[1].0, MSG_AMF0_COMMAND);
    assert_eq!(&log[1].1[3..10], b"connect");
}

#[test]
fn a_probe_is_logged() {
    let cfg = RtmpConfig::new("app", "key", "rtmp://x/app");
    let source = Cursor::new(server_script(&Behavior::default()));
    let mut t = RtmpTransport::connect(source, Vec::new(), &cfg, 0, Clock::new()).unwrap();
    t.set_log_level(Some(Level::Debug));
    t.measure_rtt(7);
    assert_eq!(t.rtt(), None);
    let records = t.take_records();
    assert_eq!(records.len(), 1);
    assert_eq!(records[0].message, "rtt probe skipped");
    assert!(matches!(&records[0].fields[0].1, OwnedValue::Str(e) if e == "end of input"));
}

#[test]
fn progress_follows_what_goes_out() {
    let cfg = RtmpConfig::new("app", "key", "rtmp://x/app");
    let source = Cursor::new(server_script(&Behavior::default()));
    let clock = Clock::new();
    let start = clock.now_ns();
    let mut t = RtmpTransport::connect(source, Vec::new(), &cfg, 0, clock).unwrap();
    let connected = t.last_progress().unwrap();
    assert!((start..=clock.now_ns()).contains(&connected));

    // A header alone makes no message, and a flush sends none.
    t.write_all(&[b'F', b'L', b'V', 1, 5, 0, 0, 0, 9, 0, 0, 0, 0]).unwrap();
    t.flush().unwrap();
    assert_eq!(t.last_progress(), Some(connected));

    let before = clock.now_ns();
    t.write_all(&[MSG_AUDIO, 0, 0, 1, 0, 0, 0, 0, 0, 0, 0, 0xAF, 0, 0, 0, 12]).unwrap();
    assert!((before..=clock.now_ns()).contains(&t.last_progress().unwrap()));
}

#[test]
fn a_measured_round_trip_is_logged_in_milliseconds() {
    assert_eq!(round_trip_time(5, 12), 7);
    assert_eq!(round_trip_time(12, 5), 0);
    let mut script = server_script(&Behavior::default());
    let mut pong = Vec::new();
    pong.extend_from_slice(&UCM_PING_RESPONSE.to_be_bytes());
    pong.extend_from_slice(&3u32.to_be_bytes());
    script.extend(frame_message(CID_COMMAND, MSG_USER_CONTROL, 0, 0, &pong, 4096));
    let cfg = RtmpConfig::new("app", "key", "rtmp://x/app");
    let mut t = RtmpTransport::connect(Cursor::new(script), Vec::new(), &cfg, 0, Clock::new()).unwrap();
    t.set_log_level(Some(Level::Debug));
    t.measure_rtt(3);
    let ns = t.rtt().unwrap();
    let records = t.take_records();
    assert_eq!(records[0].message, "rtt measured");
    assert_eq!(records[0].fields[0].0, "rtt_ms");
    let expected = std::time::Duration::from_nanos(ns).as_secs_f64() * 1000.0;
    assert!(matches!(&records[0].fields[0].1, OwnedValue::Float(ms) if *ms == expected.to_bits()));
}

/// A wire that breaks once it is told to, after so many more writes.
#[derive(Clone, Default)]
struct Brittle {
    wire: Wire,
    left: Arc<Mutex<Option<usize>>>,
}

impl Sink for Brittle {
    fn write_all(&mut self, data: &[u8]) -> Result<(), IoError> {
        match &mut *self.left.lock().unwrap() {
            Some(0) => return Err(IoError::new(IoErrorKind::BrokenPipe, "cut")),
            Some(n) => *n -= 1,
            None => {}
        }
        self.wire.write_all(data)
    }

    fn flush(&mut self) -> Result<(), IoError> {
        Ok(())
    }
}

#[test]
fn tags_in_front_of_a_failed_one_have_gone_out() {
    let cfg = RtmpConfig::new("app", "key", "rtmp://x/app");
    let source = Cursor::new(server_script(&Behavior::default()));
    let sink = Brittle::default();
    let mut t = RtmpTransport::connect(source, sink.clone(), &cfg, 0, Clock::new()).unwrap();
    t.write_all(&[b'F', b'L', b'V', 1, 5, 0, 0, 0, 9, 0, 0, 0, 0]).unwrap();
    let before = sink.wire.0.lock().unwrap().len();
    *sink.left.lock().unwrap() = Some(1);
    let tag = [MSG_AUDIO, 0, 0, 1, 0, 0, 0, 0, 0, 0, 0, 0xAF, 0, 0, 0, 12];
    let err = t.write_all(&[tag, tag].concat()).unwrap_err();
    assert_eq!(err.kind(), IoErrorKind::BrokenPipe);
    // One message of one byte behind twelve of headers, and nothing of the next.
    let sent = sink.wire.0.lock().unwrap().clone();
    assert_eq!(sent.len(), before + 13);
    assert_eq!(sent[before + 7], MSG_AUDIO);
    // Without a header what comes is refused, and nothing goes out.
    let source = Cursor::new(server_script(&Behavior::default()));
    let wire = Wire::default();
    let mut t = RtmpTransport::connect(source, wire.clone(), &cfg, 0, Clock::new()).unwrap();
    let before = wire.0.lock().unwrap().len();
    let progress = t.last_progress();
    assert!(t.write_all(&[0; 20]).is_err());
    assert_eq!(wire.0.lock().unwrap().len(), before);
    assert_eq!(t.last_progress(), progress);
}
