//! The RTMP ingest server against a scripted client.

use std::sync::{Arc, Mutex};
use stream::clock::Clock;
use stream::io::{Cursor, IoError, IoErrorKind, Sink, Source};
use stream::models::{MediaKind, MediaPacket};
use stream::rtmp::amf0::{ObjVal, Writer};
use stream::rtmp::handshake::{build_c1_simple, build_c2, build_s1_complex, BLOCK_LEN};
use stream::rtmp::link::{CID_COMMAND, MSG_AMF0_COMMAND, MSG_AUDIO, MSG_SET_CHUNK_SIZE, MSG_WINDOW_ACK};
use stream::rtmp::server::{
    is_closed, MultiSinkHandler, PublishHandler, PublishSession, ServerConfig, SessionInfo, SinkHandler,
};
use stream::rtmp::{frame_message, RtmpConfig, RtmpTransport};
use stream::sink::PacketSink;
use stream::telemetry::{Level, OwnedValue};
use stream::transport::Transport;

/// The wire, kept by the test while one side writes to it.
#[derive(Clone, Default)]
struct Wire(Arc<Mutex<Vec<u8>>>);

impl Wire {
    fn bytes(&self) -> Vec<u8> {
        self.0.lock().unwrap().clone()
    }
}

impl Sink for Wire {
    fn write_all(&mut self, data: &[u8]) -> Result<(), IoError> {
        self.0.lock().unwrap().extend_from_slice(data);
        Ok(())
    }

    fn flush(&mut self) -> Result<(), IoError> {
        Ok(())
    }
}

/// Records everything a publish handler saw.
#[derive(Default)]
struct Collect {
    configs: usize,
    avcc: Option<Vec<u8>>,
    asc: Option<Vec<u8>>,
    packets: Vec<MediaPacket>,
    finished_called: bool,
}

impl PublishHandler for Collect {
    fn configure(&mut self, avcc: Option<&[u8]>, asc: Option<&[u8]>) {
        self.configs += 1;
        if let Some(c) = avcc {
            self.avcc = Some(c.to_vec());
        }
        if let Some(c) = asc {
            self.asc = Some(c.to_vec());
        }
    }

    fn packet(&mut self, pkt: &MediaPacket) {
        self.packets.push(pkt.clone());
    }

    fn finished(&mut self) {
        self.finished_called = true;
    }
}

// --- FLV crafting helpers ---

/// A realistic H.264 `AVCDecoderConfigurationRecord` (used for the seq header).
const AVCC: &[u8] = &[
    0x01, 0x42, 0x00, 0x1F, 0xFF, 0xE1, 0x00, 0x03, 0x67, 0x42, 0x00, 0x0A, 0x01, 0x00, 0x03, 0x68, 0xCE,
];

fn flv_tag(mtype: u8, ts: u32, body: &[u8]) -> Vec<u8> {
    let size = body.len();
    let mut t = Vec::with_capacity(11 + size + 4);
    t.push(mtype);
    t.extend_from_slice(&[(size >> 16) as u8, (size >> 8) as u8, size as u8]);
    t.extend_from_slice(&[(ts >> 16) as u8, (ts >> 8) as u8, ts as u8]);
    t.push(0);
    t.extend_from_slice(&[0, 0, 0]);
    t.extend_from_slice(body);
    t.extend_from_slice(&((11 + size) as u32).to_be_bytes());
    t
}

fn flv_header() -> Vec<u8> {
    let mut h = vec![0x46, 0x4c, 0x56, 0x01, 0x05, 0x00, 0x00, 0x00, 0x09];
    h.extend_from_slice(&[0, 0, 0, 0]);
    h
}

/// A video sequence-header tag carrying `AVCC`.
fn video_seq() -> Vec<u8> {
    let mut body = vec![0x17, 0x00, 0, 0, 0];
    body.extend_from_slice(AVCC);
    flv_tag(9, 0, &body)
}

/// An AVC NALU frame tag (packet type 1, zero composition offset).
fn video_tag(ts: u32, is_key: bool, nal: &[u8]) -> Vec<u8> {
    let mut body = Vec::with_capacity(9 + nal.len());
    body.push(if is_key { 0x17 } else { 0x27 });
    body.push(0x01);
    body.extend_from_slice(&[0, 0, 0]); // composition offset
    body.extend_from_slice(&(nal.len() as u32).to_be_bytes());
    body.extend_from_slice(nal);
    flv_tag(9, ts, &body)
}

/// A short but complete publish: metadata, video + audio sequence headers,
/// then a couple of frames.
fn sample_flv() -> Vec<u8> {
    let mut b = flv_header();
    let mut md = vec![0x02, 0x00, 0x0A];
    md.extend_from_slice(b"onMetaData");
    md.extend_from_slice(&[0x08, 0, 0, 0, 0]);
    md.extend_from_slice(&[0, 0, 0x09]);
    b.extend(flv_tag(18, 0, &md));
    b.extend(video_seq());
    b.extend(flv_tag(8, 0, &[0xAF, 0x00, 0x12, 0x10]));
    b.extend(video_tag(40, true, &[0x65, 0x88]));
    b.extend(flv_tag(8, 40, &[0xAF, 0x01, 0x21, 0x00]));
    b.extend(video_tag(80, false, &[0x41, 0x77]));
    b
}

/// Counts calls through shared counters so the children can be inspected
/// after being consumed by the fan-out.
struct Counting {
    configs: Arc<Mutex<usize>>,
    packets: Arc<Mutex<usize>>,
    finished: Arc<Mutex<usize>>,
}

/// Handlers of two kinds behind one type.
enum Child {
    Counting(Counting),
    Collect(Collect),
}

impl PublishHandler for Child {
    fn configure(&mut self, avcc: Option<&[u8]>, asc: Option<&[u8]>) {
        match self {
            Child::Counting(c) => *c.configs.lock().unwrap() += 1,
            Child::Collect(c) => c.configure(avcc, asc),
        }
    }

    fn packet(&mut self, pkt: &MediaPacket) {
        match self {
            Child::Counting(c) => *c.packets.lock().unwrap() += 1,
            Child::Collect(c) => c.packet(pkt),
        }
    }

    fn finished(&mut self) {
        match self {
            Child::Counting(c) => *c.finished.lock().unwrap() += 1,
            Child::Collect(c) => c.finished(),
        }
    }
}

#[test]
fn multi_sink_fans_out_everything() {
    let a_configs = Arc::new(Mutex::new(0));
    let a_packets = Arc::new(Mutex::new(0));
    let a_finished = Arc::new(Mutex::new(0));
    let b_configs = Arc::new(Mutex::new(0));
    let b_packets = Arc::new(Mutex::new(0));
    let b_finished = Arc::new(Mutex::new(0));
    let mut fan = MultiSinkHandler::with(vec![
        Child::Counting(Counting {
            configs: a_configs.clone(),
            packets: a_packets.clone(),
            finished: a_finished.clone(),
        }),
        Child::Counting(Counting {
            configs: b_configs.clone(),
            packets: b_packets.clone(),
            finished: b_finished.clone(),
        }),
    ]);
    assert_eq!(fan.len(), 2);
    assert!(!fan.is_empty());
    fan.add(Child::Collect(Collect::default())); // a third child, empty Collect
    assert_eq!(fan.len(), 3);

    let pkt = MediaPacket::audio(5, vec![0x21]);
    fan.configure(Some(&[0x01]), Some(&[0x0A]));
    fan.packet(&pkt);
    fan.finished();

    for (configs, packets, finished) in [
        (&a_configs, &a_packets, &a_finished),
        (&b_configs, &b_packets, &b_finished),
    ] {
        assert_eq!(*configs.lock().unwrap(), 1);
        assert_eq!(*packets.lock().unwrap(), 1);
        assert_eq!(*finished.lock().unwrap(), 1);
    }
    let Child::Collect(third) = &fan.handlers()[2] else {
        panic!("the third child keeps its place")
    };
    assert_eq!(third.packets.len(), 1);
    assert!(third.finished_called);
}

fn num(x: f64) -> u64 {
    x.to_bits()
}

/// The least a server has to say for a publisher to start streaming.
fn welcome() -> Vec<u8> {
    let mut out = vec![3];
    out.extend(build_s1_complex(0));
    out.extend(vec![0u8; BLOCK_LEN]);
    let mut w = Writer::new();
    w.string("_result").number(num(1.0)).null();
    out.extend(frame_message(CID_COMMAND, MSG_AMF0_COMMAND, 0, 0, &w.into_bytes(), 128));
    let mut w = Writer::new();
    w.string("_result").number(num(2.0)).null().number(num(1.0));
    out.extend(frame_message(CID_COMMAND, MSG_AMF0_COMMAND, 0, 0, &w.into_bytes(), 128));
    let mut w = Writer::new();
    w.string("onStatus").number(num(3.0)).null().object(&[
        ("level", ObjVal::Str("status")),
        ("code", ObjVal::Str("NetStream.Publish.Start")),
    ]);
    out.extend(frame_message(CID_COMMAND, MSG_AMF0_COMMAND, 0, 0, &w.into_bytes(), 128));
    out
}

/// Everything a publisher sends to a server that says `replies`.
fn publish(cfg: &RtmpConfig, replies: Vec<u8>, flv: &[u8]) -> (Result<(), IoError>, Vec<u8>) {
    let wire = Wire::default();
    let r = match RtmpTransport::connect(Cursor::new(replies), wire.clone(), cfg, 0, Clock::new()) {
        Ok(mut t) => {
            let _ = t.write_all(flv);
            let _ = t.flush();
            let _ = t.shutdown();
            Ok(())
        },
        Err(e) => Err(e),
    };
    (r, wire.bytes())
}

/// Drive a real [`RtmpTransport`] client against a [`PublishSession`]. Neither
/// side's opening depends on what the other says, so each first hears a
/// stand-in, and then the other's real words.
fn run_session(server_cfg: ServerConfig, client_cfg: &RtmpConfig, flv: &[u8]) -> (SessionInfo, Collect) {
    let (_, said) = publish(client_cfg, welcome(), flv);
    let wire = Wire::default();
    let session = PublishSession::new(Cursor::new(said), wire.clone(), server_cfg.clone(), "peer:1");
    session.serve(Collect::default(), 7).expect("session served cleanly");

    let (client, said) = publish(client_cfg, wire.bytes(), flv);
    client.expect("client publishes");
    let session = PublishSession::new(Cursor::new(said), Wire::default(), server_cfg, "peer:1");
    session.serve(Collect::default(), 7).expect("session served cleanly")
}

#[test]
fn ingest_accepts_a_publish_and_decodes_media() {
    let (info, collect) = run_session(
        ServerConfig::default(),
        &RtmpConfig::new("live", "myStream", "rtmp://localhost/live"),
        &sample_flv(),
    );
    assert_eq!(info.app, "live");
    assert_eq!(info.key, "myStream");
    assert_eq!(info.peer, "peer:1");

    // Two configs (video then audio sequence headers) before any packet.
    assert!(collect.configs >= 2);
    assert_eq!(collect.avcc.as_deref(), Some(AVCC));
    assert_eq!(collect.asc.as_deref(), Some(&[0x12, 0x10][..]));
    // Video key + audio + video inter.
    assert_eq!(collect.packets.len(), 3);
    assert_eq!(collect.packets[0].kind, MediaKind::Video);
    assert!(collect.packets[0].is_key);
    assert_eq!(collect.packets[0].pts, 40);
    assert_eq!(collect.packets[1].kind, MediaKind::Audio);
    assert_eq!(collect.packets[2].kind, MediaKind::Video);
    assert!(!collect.packets[2].is_key);
    assert!(collect.finished_called);
}

#[test]
fn rejects_a_foreign_app() {
    let cfg = RtmpConfig::new("other", "key", "rtmp://localhost/other");
    let (_, said) = publish(&cfg, welcome(), &[]);
    let wire = Wire::default();
    let mut session = PublishSession::new(Cursor::new(said), wire.clone(), ServerConfig::default(), "peer:1");
    let err = session.negotiate(0).expect_err("server must refuse");
    assert!(err.message.contains("app `other`"), "got: {}", err.message);

    let (result, _) = publish(&cfg, wire.bytes(), &[]);
    assert!(result.is_err(), "client must see the refusal");
    let msg = result.err().unwrap().message;
    assert!(msg.contains("NetConnection.Connect.Rejected"), "got: {msg}");
}

/// A wire that breaks when it would have carried `room` bytes.
struct Breaking {
    sent: usize,
    room: usize,
}

impl Sink for Breaking {
    fn write_all(&mut self, data: &[u8]) -> Result<(), IoError> {
        self.sent += data.len();
        if self.sent >= self.room {
            return Err(IoError::new(IoErrorKind::BrokenPipe, "gone"));
        }
        Ok(())
    }

    fn flush(&mut self) -> Result<(), IoError> {
        Ok(())
    }
}

#[test]
fn an_unsent_refusal_is_still_a_refusal() {
    let cfg = RtmpConfig::new("other", "key", "rtmp://localhost/other");
    let (_, said) = publish(&cfg, welcome(), &[]);
    let wire = Wire::default();
    let mut session = PublishSession::new(Cursor::new(said.clone()), wire.clone(), ServerConfig::default(), "peer:1");
    let told = session.negotiate(0).expect_err("server must refuse");

    // The same peer, but the connection breaks under the refusal itself.
    let broken = Breaking { sent: 0, room: wire.bytes().len() };
    let mut session = PublishSession::new(Cursor::new(said), broken, ServerConfig::default(), "peer:1");
    let untold = session.negotiate(0).expect_err("server must refuse");
    assert_eq!(untold.kind(), IoErrorKind::InvalidData);
    assert_eq!(untold.message, told.message);
    assert_eq!(untold.message, "publisher asked for app `other`, server serves `live`");
}

#[test]
fn malformed_peer_is_rejected_not_panicked() {
    // Garbage bytes instead of an RTMP handshake.
    let t = Cursor::new(b"garbage that is not rtmp at all".to_vec());
    let mut session = PublishSession::new(t, Vec::new(), ServerConfig::default(), "peer:1");
    let err = session.negotiate(0).expect_err("garbage must fail");
    assert!(!err.message.is_empty());
}

/// A peer that says its piece and then nothing until the read times out.
struct Stalling {
    data: Vec<u8>,
    pos: usize,
}

impl Source for Stalling {
    fn read_exact(&mut self, n: usize) -> Result<Vec<u8>, IoError> {
        if n > self.data.len() - self.pos {
            return Err(IoError::new(IoErrorKind::TimedOut, "timed out"));
        }
        let out = self.data[self.pos..self.pos + n].to_vec();
        self.pos += n;
        Ok(out)
    }
}

#[test]
fn handshake_budget_expires_without_a_publish() {
    // A peer that finishes the handshake then goes silent must be timed out.
    let mut data = vec![3];
    data.extend(build_c1_simple(7).1);
    data.extend(build_c2(&build_s1_complex(0)));
    let mut session = PublishSession::new(
        Stalling { data, pos: 0 },
        Vec::new(),
        ServerConfig {
            timeout: 150_000_000,
            ..ServerConfig::default()
        },
        "peer:1",
    );
    let result = session.negotiate(0);
    assert!(result.is_err(), "negotiate must time out");
    assert_eq!(result.err().unwrap().kind(), IoErrorKind::TimedOut);
    // The server's half of the handshake was sent all the same, its limits
    // behind it.
    let sent = session.into_sink();
    assert_eq!(sent[0], 3);
    assert_eq!(&sent[1 + BLOCK_LEN..1 + 2 * BLOCK_LEN][..4], &7u32.to_be_bytes(), "S2 echoes C1");
    assert_eq!(sent[1 + 2 * BLOCK_LEN + 7], MSG_SET_CHUNK_SIZE);
}

#[test]
fn commands_are_taken_until_the_time_is_up() {
    let mut w = Writer::new();
    w.string("connect").number(num(1.0)).object(&[("app", ObjVal::Str("live"))]);
    let mut data = frame_message(CID_COMMAND, MSG_AMF0_COMMAND, 0, 0, &w.into_bytes(), 128);
    let mut w = Writer::new();
    w.string("publish").number(num(5.0)).null().string("k");
    data.extend(frame_message(CID_COMMAND, MSG_AMF0_COMMAND, 1, 0, &w.into_bytes(), 128));
    let config = ServerConfig {
        timeout: 150_000_000,
        ..ServerConfig::default()
    };
    let mut session = PublishSession::new(Cursor::new(data.clone()), Vec::new(), config.clone(), "peer:1");
    assert!(!session.step(0).unwrap());
    assert!(session.step(149_999_999).unwrap(), "the publish is accepted");

    let mut late = PublishSession::new(Cursor::new(data), Vec::new(), config, "peer:1");
    assert!(!late.step(0).unwrap());
    let err = late.step(150_000_000).unwrap_err();
    assert_eq!(err.kind(), IoErrorKind::TimedOut);
    assert_eq!(err.message, "no publish within the handshake budget");
}

/// A sink that refuses its second packet.
#[derive(Default)]
struct Fragile {
    packets: usize,
    finished: usize,
}

impl PacketSink for Fragile {
    fn codecs(&mut self, _: Option<&[u8]>, _: Option<&[u8]>) {}

    fn packet(&mut self, _: &MediaPacket) -> Result<(), IoError> {
        self.packets += 1;
        if self.packets == 2 {
            return Err(IoError::new(IoErrorKind::Other, "disk full"));
        }
        Ok(())
    }

    fn finish(&mut self) -> Result<(), IoError> {
        self.finished += 1;
        Ok(())
    }
}

#[test]
fn a_failed_sink_is_retired() {
    let mut h = SinkHandler::new(Fragile::default());
    let pkt = MediaPacket::audio(5, vec![0x21]);
    h.packet(&pkt);
    assert!(!h.is_retired());
    h.packet(&pkt);
    assert!(h.is_retired());
    h.packet(&pkt);
    assert_eq!(h.sink().packets, 2, "a retired sink is left alone");
}

#[test]
fn boxed_handlers_fan_out_too() {
    let mut fan = MultiSinkHandler::new();
    fan.add(Box::new(SinkHandler::new(Fragile::default())));
    fan.add(Box::new(SinkHandler::new(Fragile::default())));
    let pkt = MediaPacket::audio(5, vec![0x21]);
    fan.packet(&pkt);
    fan.packet(&pkt);
    fan.packet(&pkt);
    fan.finished();
    for h in fan.handlers() {
        assert_eq!(h.sink().packets, 2);
        assert!(h.is_retired());
    }
}

#[test]
fn closed_connections_are_told_from_failures() {
    assert!(is_closed(&IoError::new(IoErrorKind::UnexpectedEof, "eof")));
    assert!(!is_closed(&IoError::new(IoErrorKind::InvalidData, "bad")));
}

/// One command of a publisher.
fn command(stream_id: u32, w: Writer) -> Vec<u8> {
    frame_message(CID_COMMAND, MSG_AMF0_COMMAND, stream_id, 0, &w.into_bytes(), 128)
}

fn publish_command() -> Vec<u8> {
    let mut w = Writer::new();
    w.string("publish").number(num(5.0)).null().string("k");
    command(1, w)
}

#[test]
fn a_publish_needs_a_connect() {
    let mut session =
        PublishSession::new(Cursor::new(publish_command()), Vec::new(), ServerConfig::default(), "peer:1");
    let err = session.step(0).unwrap_err();
    assert_eq!(err.kind(), IoErrorKind::InvalidData);
    assert_eq!(err.message, "publish command before connect");
    assert_eq!(session.key(), "");
    assert!(session.into_sink().is_empty(), "nothing is confirmed");

    // Behind a whole handshake too.
    let mut said = vec![3];
    said.extend(build_c1_simple(7).1);
    said.extend(build_c2(&build_s1_complex(0)));
    said.extend(publish_command());
    let mut session = PublishSession::new(Cursor::new(said), Vec::new(), ServerConfig::default(), "peer:1");
    assert_eq!(session.negotiate(0).expect_err("no app was named").message, "publish command before connect");
}

#[test]
fn the_accepted_app_is_the_served_one() {
    let mut w = Writer::new();
    w.string("connect").number(num(1.0)).object(&[("app", ObjVal::Str("studio"))]);
    let mut said = vec![3];
    said.extend(build_c1_simple(7).1);
    said.extend(build_c2(&build_s1_complex(0)));
    said.extend(command(0, w));
    said.extend(publish_command());
    let config = ServerConfig {
        app: "studio".to_owned(),
        ..ServerConfig::default()
    };
    let mut session = PublishSession::new(Cursor::new(said), Vec::new(), config, "peer:1");
    session.set_log_level(Some(Level::Info));
    let info = session.negotiate(0).unwrap();
    assert_eq!((info.app.as_str(), info.key.as_str(), info.peer.as_str()), ("studio", "k", "peer:1"));
    assert_eq!((session.app(), session.key()), ("studio", "k"));
    let records = session.take_records();
    assert_eq!(records.len(), 1);
    assert_eq!(records[0].message, "ingest publish accepted");
    assert!(matches!(&records[0].fields[0].1, OwnedValue::Str(app) if app == "studio"));
}

#[test]
fn a_reply_that_cannot_be_sent_is_no_clean_end() {
    // The publisher wants an acknowledgement of every byte, and has hung up.
    let mut data = frame_message(CID_COMMAND, MSG_WINDOW_ACK, 0, 0, &1u32.to_be_bytes(), 128);
    data.extend(frame_message(CID_COMMAND, MSG_AUDIO, 1, 0, &[0xAF, 0x01, 0x21], 128));
    let broken = Breaking { sent: 0, room: 1 };
    let mut session = PublishSession::new(Cursor::new(data.clone()), broken, ServerConfig::default(), "peer:1");
    let mut handler = Collect::default();
    let err = session.pump(&mut handler).unwrap_err();
    assert_eq!(err.kind(), IoErrorKind::BrokenPipe);
    assert!(!handler.finished_called, "a failed write is not the end of the publish");
    assert!(handler.packets.is_empty());

    // The same words with the acknowledgements going out: the end is clean.
    let mut session = PublishSession::new(Cursor::new(data), Vec::new(), ServerConfig::default(), "peer:1");
    let mut handler = Collect::default();
    session.pump(&mut handler).unwrap();
    assert!(handler.finished_called);
    assert_eq!(handler.packets.len(), 1);
}

#[test]
fn a_dead_wire_matters_only_where_something_is_owed() {
    // Nothing in this needs a reply.
    let data = frame_message(CID_COMMAND, MSG_AUDIO, 1, 0, &[0xAF, 0x01, 0x21], 128);
    let dead = Breaking { sent: 0, room: 0 };
    let mut session = PublishSession::new(Cursor::new(data), dead, ServerConfig::default(), "peer:1");
    let mut handler = Collect::default();
    session.pump(&mut handler).unwrap();
    assert!(handler.finished_called);
    assert_eq!(handler.packets.len(), 1);

    // A command that is not known is not answered.
    let mut w = Writer::new();
    w.string("whatever").number(num(1.0));
    let data = frame_message(CID_COMMAND, MSG_AMF0_COMMAND, 0, 0, &w.into_bytes(), 128);
    let dead = Breaking { sent: 0, room: 0 };
    let mut session = PublishSession::new(Cursor::new(data), dead, ServerConfig::default(), "peer:1");
    assert!(!session.step(0).unwrap());
}

#[test]
fn serving_fails_where_a_reply_cannot_be_sent() {
    let cfg = RtmpConfig::new("live", "key", "rtmp://localhost/live");
    let said = Wire::default();
    RtmpTransport::connect(Cursor::new(welcome()), said.clone(), &cfg, 0, Clock::new()).unwrap();
    let mut data = said.bytes();
    // An acknowledgement of every byte is asked for, in the publisher's chunks.
    data.extend(frame_message(CID_COMMAND, MSG_WINDOW_ACK, 0, 0, &1u32.to_be_bytes(), 4096));
    data.extend(frame_message(CID_COMMAND, MSG_AUDIO, 1, 0, &[0xAF, 0x01, 0x21], 4096));

    let wire = Wire::default();
    let mut session = PublishSession::new(Cursor::new(data.clone()), wire.clone(), ServerConfig::default(), "peer:1");
    session.negotiate(7).unwrap();
    let room = wire.bytes().len() + 1;

    let broken = Breaking { sent: 0, room };
    let session = PublishSession::new(Cursor::new(data.clone()), broken, ServerConfig::default(), "peer:1");
    let err = session.serve(Collect::default(), 7).err().expect("the acknowledgement is lost");
    assert_eq!(err.kind(), IoErrorKind::BrokenPipe);

    let session = PublishSession::new(Cursor::new(data), Vec::new(), ServerConfig::default(), "peer:1");
    let (info, handler) = session.serve(Collect::default(), 7).unwrap();
    assert_eq!((info.app.as_str(), info.key.as_str()), ("live", "key"));
    assert!(handler.finished_called);
}
