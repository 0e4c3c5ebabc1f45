//! What holds of the library as a whole, on concrete values.

use std::sync::{Arc, Mutex};
use stream::backpressure::BoundedBuffer;
use stream::batch::{cut_to_keyframe, drain, starts_decoding};
use stream::clock::Clock;
use stream::doubles::{double_bits, double_to_u32};
use stream::engine::{Engine, EngineConfig};
use stream::flv::{decode_tag, Decoded};
use stream::io::{Cursor, IoError, IoErrorKind, Sink, Source};
use stream::models::{MediaKind, MediaPacket, StreamConfig};
use stream::mux::FlvMuxer;
use stream::outputs::{feed_outputs, finish_outputs, tell_codecs};
use stream::rtmp::amf0::{ObjVal, Reader, Val, Writer};
use stream::rtmp::handshake::{build_s1_complex, BLOCK_LEN};
use stream::rtmp::link::{CID_COMMAND, MSG_AMF0_COMMAND, MSG_AMF0_DATA, MSG_AUDIO, MSG_SET_CHUNK_SIZE, MSG_VIDEO};
use stream::rtmp::{frame_message, ChunkReader, FlvTagParser, RtmpConfig, RtmpTransport};
use stream::session::{Connector, ReconnectPolicy, Session, SessionPolicy};
use stream::sink::{PacketSink, RecordingOutput};
use stream::telemetry::{Level, LogBook};
use stream::transport::FileTransport;

const AVCC: &[u8] = &[
    0x01, 0x42, 0x00, 0x1F, 0xFF, 0xE1, 0x00, 0x03, 0x67, 0x42, 0x00, 0x0A, 0x01, 0x00, 0x03, 0x68, 0xCE,
];
const ASC: &[u8] = &[0x0A, 0x10];

fn key(pts: i64) -> MediaPacket {
    MediaPacket::video(pts, true, vec![0, 0, 0, 1, 0x65, 0x88])
}

fn inter(pts: i64) -> MediaPacket {
    MediaPacket::video(pts, false, vec![0, 0, 0, 1, 0x41, 0x77])
}

fn audio(pts: i64) -> MediaPacket {
    MediaPacket::audio(pts, vec![0x21, 0x00, 0x49])
}

#[test]
fn doubles_hold_every_whole_number() {
    for x in [0u32, 1, 2, 3, 15, 252, 4071, 44_100, 0x7FFF_FFFF, 0x8000_0001, u32::MAX] {
        assert_eq!(double_bits(x), f64::from(x).to_bits());
        assert_eq!(double_to_u32(double_bits(x)), Some(x));
    }
    // Anything that a stream id cannot be is refused or held to the range.
    assert_eq!(double_to_u32((-1.0f64).to_bits()).unwrap_or(0), 0);
}

#[test]
fn written_media_decodes_to_what_went_in() {
    let mut m = FlvMuxer::new(Vec::new());
    m.write_metadata(&StreamConfig::default()).unwrap();
    m.init_codecs(Some(AVCC), Some(ASC)).unwrap();
    let mut b_frame = key(1000);
    b_frame.pts = 960; // shown before it is decoded
    let packets = [b_frame, audio(1010), inter(1040), audio(1033)];
    for p in &packets {
        m.write_packet(p).unwrap();
    }
    let tags = FlvTagParser::new().feed(&m.into_inner()).unwrap();
    let decoded: Vec<Decoded> = tags.iter().filter_map(|t| decode_tag(t.mtype, t.ts, &t.body)).collect();
    assert_eq!(decoded[0], Decoded::VideoConfig(AVCC.to_vec()));
    assert_eq!(decoded[1], Decoded::AudioConfig(ASC.to_vec()));
    let media: Vec<&MediaPacket> = decoded[2..]
        .iter()
        .map(|d| match d {
            Decoded::Packet(p) => p,
            _ => panic!("only packets follow"),
        })
        .collect();
    // Times count from the first packet; the late one is held at the mark.
    let times: Vec<(i64, i64)> = media.iter().map(|p| (p.dts, p.pts)).collect();
    assert_eq!(times, vec![(0, -40), (10, 10), (40, 40), (40, 40)]);
    for (got, sent) in media.iter().zip(&packets) {
        assert_eq!(got.kind, sent.kind);
        assert_eq!(got.is_key, sent.is_key);
        assert_eq!(got.data, sent.data);
    }
}

#[test]
fn media_without_a_configuration_is_refused() {
    let mut m = FlvMuxer::new(Vec::new());
    let err = m.write_packet(&key(0)).unwrap_err();
    assert_eq!(err.message(), "video packet before sequence header, and no SPS/PPS found");
    let err = m.write_packet(&audio(0)).unwrap_err();
    assert_eq!(err.message(), "audio packet before sequence header, and no ADTS found");
    m.init_codecs(Some(AVCC), None).unwrap();
    m.write_packet(&key(0)).unwrap();
    m.write_packet(&inter(5000)).unwrap();
    let err = m.write_packet(&inter(4000)).unwrap_err();
    assert_eq!(
        err.message(),
        "DTS went backwards by 1000 ms (5000 -> 4000); out of tolerance"
    );
}

/// A sink that is gone.
struct Gone;

impl Sink for Gone {
    fn write_all(&mut self, _: &[u8]) -> Result<(), IoError> {
        Err(IoError::new(IoErrorKind::BrokenPipe, "gone"))
    }

    fn flush(&mut self) -> Result<(), IoError> {
        Err(IoError::new(IoErrorKind::BrokenPipe, "gone"))
    }
}

#[test]
fn a_dead_sink_is_reported_as_such() {
    let mut m = FlvMuxer::new(Gone);
    let err = m.write_metadata(&StreamConfig::default()).unwrap_err();
    assert_eq!(err.message(), "io: gone");
}

#[test]
fn batches_come_out_in_decode_order() {
    let mut buffer = BoundedBuffer::new(16);
    for p in [key(40), audio(20), inter(80), audio(60), audio(40)] {
        buffer.push(p);
    }
    let mut awaiting = false;
    let batch = drain(&mut buffer, &mut awaiting);
    let order: Vec<(i64, MediaKind)> = batch.iter().map(|p| (p.dts, p.kind)).collect();
    assert_eq!(
        order,
        vec![
            (20, MediaKind::Audio),
            (40, MediaKind::Video),
            (40, MediaKind::Audio),
            (60, MediaKind::Audio),
            (80, MediaKind::Video),
        ]
    );
    assert!(buffer.is_empty());
}

#[test]
fn an_awaited_keyframe_comes_first() {
    let mut buffer = BoundedBuffer::new(16);
    for p in [inter(0), audio(10), inter(40)] {
        buffer.push(p);
    }
    let mut awaiting = true;
    // Audio passes, inter-frames do not.
    assert_eq!(drain(&mut buffer, &mut awaiting), vec![audio(10)]);
    assert!(awaiting);
    assert_eq!(buffer.dropped(), 2);
    for p in [inter(80), key(120), inter(160)] {
        buffer.push(p);
    }
    let batch = drain(&mut buffer, &mut awaiting);
    assert!(starts_decoding(&batch[0]));
    assert_eq!(batch.len(), 2);
    assert!(!awaiting);
}

#[test]
fn cuts_keep_the_newest_keyframe() {
    let mut buffer = BoundedBuffer::new(16);
    for p in [key(0), inter(40), key(80), inter(120)] {
        buffer.push(p);
    }
    assert_eq!(cut_to_keyframe(&mut buffer), 2);
    assert_eq!(buffer.front(), Some(&key(80)));
    assert_eq!(buffer.len(), 2);
    // Without a keyframe there is nothing to cut to.
    let mut buffer = BoundedBuffer::new(16);
    buffer.push(inter(0));
    assert_eq!(cut_to_keyframe(&mut buffer), 0);
    assert_eq!(buffer.len(), 1);
}

/// An output that keeps what it is given, and fails on its nth packet.
struct Picky {
    fails_at: usize,
    seen: Vec<i64>,
    told: usize,
    finished: bool,
}

impl Picky {
    fn new(fails_at: usize) -> Self {
        Picky {
            fails_at,
            seen: Vec::new(),
            told: 0,
            finished: false,
        }
    }
}

impl PacketSink for Picky {
    fn codecs(&mut self, _: Option<&[u8]>, _: Option<&[u8]>) {
        self.told += 1;
    }

    fn packet(&mut self, pkt: &MediaPacket) -> Result<(), IoError> {
        if self.seen.len() + 1 == self.fails_at {
            return Err(IoError::new(IoErrorKind::Other, "full"));
        }
        self.seen.push(pkt.dts);
        Ok(())
    }

    fn finish(&mut self) -> Result<(), IoError> {
        self.finished = true;
        Ok(())
    }
}

#[test]
fn surviving_outputs_get_everything() {
    let mut outputs = vec![Picky::new(0), Picky::new(2), Picky::new(0)];
    let mut book = LogBook::new();
    book.set_level(Some(Level::Warn));
    tell_codecs(&mut outputs, Some(AVCC), Some(ASC));
    for p in [key(0), inter(40), inter(80)] {
        feed_outputs(&mut outputs, &p, &mut book);
    }
    finish_outputs(&mut outputs, &mut book);
    assert_eq!(outputs.len(), 2, "the one that failed is retired");
    let records = book.take();
    assert_eq!(records.len(), 1);
    assert_eq!(records[0].message, "output retired");
    for o in &outputs {
        assert_eq!(o.seen, vec![0, 40, 80]);
        assert_eq!(o.told, 1);
        assert!(o.finished);
    }
}

/// What an output was called with.
#[derive(Debug, Clone, PartialEq)]
enum Call {
    Codecs(Option<Vec<u8>>, Option<Vec<u8>>),
    Packet(MediaKind, i64, i64),
}

#[derive(Clone, Default)]
struct Listening(Arc<Mutex<Vec<Call>>>);

impl PacketSink for Listening {
    fn codecs(&mut self, avcc: Option<&[u8]>, asc: Option<&[u8]>) {
        let call = Call::Codecs(avcc.map(<[u8]>::to_vec), asc.map(<[u8]>::to_vec));
        self.0.lock().unwrap().push(call);
    }

    fn packet(&mut self, pkt: &MediaPacket) -> Result<(), IoError> {
        self.0.lock().unwrap().push(Call::Packet(pkt.kind, pkt.dts, pkt.pts));
        Ok(())
    }

    fn finish(&mut self) -> Result<(), IoError> {
        Ok(())
    }
}

#[test]
fn outputs_get_codecs_first_and_times_as_sent() {
    let early = Listening::default();
    let late = Listening::default();
    let mut engine: Engine<FileTransport<Vec<u8>>, Listening> = Engine::new(EngineConfig::default());
    engine.attach_output(early.clone());
    engine.configure_codecs(Some(AVCC), Some(ASC)).unwrap();
    engine.attach_output(late.clone());
    engine.attach_transport(FileTransport::new(Vec::new()));
    let mut reordered = key(10_000);
    reordered.pts = 10_080;
    engine.push_all(vec![reordered, audio(10_010)]).unwrap();
    engine.tick_at(0, 0).unwrap();
    // The capture clock starts over; the stream does not.
    engine.push(key(40)).unwrap();
    engine.tick_at(1, 0).unwrap();

    let config = Call::Codecs(Some(AVCC.to_vec()), Some(ASC.to_vec()));
    let packets = [
        Call::Packet(MediaKind::Video, 0, 80),
        Call::Packet(MediaKind::Audio, 10, 10),
        Call::Packet(MediaKind::Video, 10, 10),
    ];
    let heard = early.0.lock().unwrap().clone();
    assert_eq!(heard[..2], [Call::Codecs(None, None), config.clone()]);
    assert_eq!(heard[2..], packets);
    let heard = late.0.lock().unwrap().clone();
    assert_eq!(heard[..1], [config]);
    assert_eq!(heard[1..], packets);
}

#[test]
fn amf0_objects_survive_the_round_trip() {
    let mut w = Writer::new();
    w.string("connect").null().object(&[
        ("app", ObjVal::Str("live")),
        ("fpad", ObjVal::Bool(false)),
        ("capabilities", ObjVal::Num(15.0f64.to_bits())),
    ]);
    let bytes = w.into_bytes();
    let vals = Reader::new(&bytes).read_all();
    assert_eq!(
        vals,
        vec![
            Val::String("connect".into()),
            Val::Null,
            Val::Object(vec![
                ("app".into(), Val::String("live".into())),
                ("fpad".into(), Val::Boolean(false)),
                ("capabilities".into(), Val::Number(15.0f64.to_bits())),
            ]),
        ]
    );
}

#[test]
fn broken_utf8_is_repaired() {
    // A string of three bytes whose middle one starts no character.
    let bytes = [0x02, 0x00, 0x03, b'a', 0xFF, b'b'];
    let mut r = Reader::new(&bytes);
    assert_eq!(r.read_value(), Some(Val::String("a\u{FFFD}b".into())));
}

#[test]
fn frames_read_back_at_every_chunk_size() {
    let payload: Vec<u8> = (0..1000u32).map(|i| (i * 7) as u8).collect();
    for chunk in [1usize, 2, 127, 128, 129, 999, 1000, 1001, 4096] {
        for ts in [0u32, 0x00FF_FFFE, 0x00FF_FFFF, 0x0100_0000, u32::MAX] {
            let frame = frame_message(CID_COMMAND, MSG_AMF0_COMMAND, 7, ts, &payload, chunk);
            let mut reader = ChunkReader::new();
            reader.set_chunk_size(chunk).unwrap();
            let msg = reader.read_message(&mut Cursor::new(frame)).unwrap();
            assert_eq!(msg.payload, payload);
            assert_eq!((msg.mtype, msg.ts), (MSG_AMF0_COMMAND, ts));
        }
    }
}

#[test]
fn noise_never_panics_a_reader() {
    let mut state = 29u32;
    for len in 0..300usize {
        let mut data = Vec::with_capacity(len);
        for _ in 0..len {
            state = state.wrapping_mul(1_664_525).wrapping_add(1_013_904_223);
            data.push((state >> 24) as u8);
        }
        let _ = Reader::new(&data).read_all();
        let mut p = FlvTagParser::new();
        for b in &data {
            let _ = p.feed(&[*b]);
        }
        let mut reader = ChunkReader::new();
        let mut cur = Cursor::new(data);
        while let Ok(msg) = reader.read_message(&mut cur) {
            if matches!(msg.mtype, 8 | 9) {
                let _ = decode_tag(msg.mtype, msg.ts, &msg.payload);
            }
        }
    }
}

#[test]
fn recordings_outlive_reconnects() {
    let mut engine: Engine<FileTransport<Vec<u8>>, RecordingOutput<FileTransport<Vec<u8>>>> =
        Engine::new(EngineConfig::default());
    engine.attach_output(RecordingOutput::new(
        FileTransport::new(Vec::new()),
        StreamConfig::default(),
    ));
    engine.configure_codecs(Some(AVCC), Some(ASC)).unwrap();
    engine.attach_transport(FileTransport::new(Vec::new()));
    engine.push_all(vec![key(0), inter(40)]).unwrap();
    engine.tick_at(0, 0).unwrap();
    let first = engine.outputs()[0].bytes_written();
    engine.detach_transport();
    engine.attach_transport(FileTransport::new(Vec::new()));
    engine.push_all(vec![key(80), inter(120)]).unwrap();
    engine.tick_at(1, 0).unwrap();
    // Two more frames, and no second set of headers: 11 + 5 + 4 + 2 + 4 each.
    assert_eq!(engine.outputs()[0].bytes_written(), first + 2 * 26);
}

// --- A session over the real protocol, against scripted servers ---

/// A wire that breaks once it has carried so many bytes.
#[derive(Clone)]
struct Brittle {
    bytes: Arc<Mutex<Vec<u8>>>,
    limit: usize,
}

impl Sink for Brittle {
    fn write_all(&mut self, data: &[u8]) -> Result<(), IoError> {
        let mut bytes = self.bytes.lock().unwrap();
        if bytes.len() + data.len() > self.limit {
            return Err(IoError::new(IoErrorKind::ConnectionReset, "connection reset"));
        }
        bytes.extend_from_slice(data);
        Ok(())
    }

    fn flush(&mut self) -> Result<(), IoError> {
        Ok(())
    }
}

/// What an accepting server says.
fn welcome() -> Vec<u8> {
    let num = |x: f64| x.to_bits();
    let mut out = vec![3];
    out.extend(build_s1_complex(0));
    out.extend(vec![0u8; BLOCK_LEN]);
    let mut w = Writer::new();
    w.string("_result").number(num(1.0)).null();
    out.extend(frame_message(CID_COMMAND, MSG_AMF0_COMMAND, 0, 0, &w.into_bytes(), 128));
    let mut w = Writer::new();
    w.string("_result").number(num(2.0)).null().number(num(1.0));
    out.extend(frame_message(CID_COMMAND, MSG_AMF0_COMMAND, 0, 0, &w.into_bytes(), 128));
    let mut w = Writer::new();
    w.string("onStatus").number(num(0.0)).null().object(&[
        ("level", ObjVal::Str("status")),
        ("code", ObjVal::Str("NetStream.Publish.Start")),
    ]);
    out.extend(frame_message(CID_COMMAND, MSG_AMF0_COMMAND, 0, 0, &w.into_bytes(), 128));
    out
}

/// Opens wires of which the first breaks early.
struct Dialer {
    wires: Arc<Mutex<Vec<Brittle>>>,
    first_limit: usize,
}

impl Connector for Dialer {
    type Transport = RtmpTransport<Cursor, Brittle>;

    fn connect(&mut self) -> Result<Self::Transport, IoError> {
        let mut wires = self.wires.lock().unwrap();
        let wire = Brittle {
            bytes: Arc::new(Mutex::new(Vec::new())),
            limit: if wires.is_empty() { self.first_limit } else { usize::MAX },
        };
        wires.push(wire.clone());
        let cfg = RtmpConfig::new("live", "test", "rtmp://host/live");
        RtmpTransport::connect(Cursor::new(welcome()), wire, &cfg, 0, Clock::new())
    }
}

/// The media on a wire: `(mtype, timestamp, payload)`.
fn media(wire: &Brittle) -> Vec<(u8, u32, Vec<u8>)> {
    let bytes = wire.bytes.lock().unwrap().clone();
    let mut cur = Cursor::new(bytes);
    cur.read_exact(1 + 2 * BLOCK_LEN).unwrap();
    let mut reader = ChunkReader::new();
    let mut out = Vec::new();
    while let Ok(msg) = reader.read_message(&mut cur) {
        if msg.mtype == MSG_SET_CHUNK_SIZE {
            let p = &msg.payload;
            reader
                .set_chunk_size(u32::from_be_bytes([p[0], p[1], p[2], p[3]]) as usize)
                .unwrap();
        }
        if matches!(msg.mtype, MSG_AUDIO | MSG_VIDEO | MSG_AMF0_DATA) {
            out.push((msg.mtype, msg.ts, msg.payload));
        }
    }
    out
}

#[test]
fn session_survives_a_killed_connection() {
    let wires = Arc::new(Mutex::new(Vec::new()));
    let mut session: Session<Dialer, RecordingOutput<FileTransport<Vec<u8>>>> = Session::new(
        EngineConfig::default(),
        Dialer {
            wires: wires.clone(),
            first_limit: 40_000,
        },
        SessionPolicy {
            reconnect: ReconnectPolicy {
                initial_delay: 100_000_000,
                max_delay: 1_000_000_000,
                multiplier: 2.0f64.to_bits(),
                max_attempts: Some(8),
                jitter_seed: Some(7),
            },
            stall_timeout: 3_000_000_000_000,
        },
    );
    session.configure_codecs(Some(AVCC), Some(ASC)).unwrap();
    session.start().unwrap();

    // About 2 KB a frame, so that messages span several chunks.
    let frame = |pts: i64, is_key: bool| {
        let mut data = vec![0u8, 0, 0, 1, if is_key { 0x65 } else { 0x41 }];
        data.resize(2048, 0xAB);
        MediaPacket::video(pts, is_key, data)
    };
    for i in 0..90i64 {
        session.push(frame(i * 33, i % 30 == 0)).unwrap();
        session.push(audio(i * 33)).unwrap();
        session.tick_at(i as u64 * 33_000_000, i as u64 * 33).unwrap();
    }
    assert_eq!(session.reconnects(), 1);
    session.finish().unwrap();

    let wires = wires.lock().unwrap();
    assert_eq!(wires.len(), 2);
    let (conn1, conn2) = (media(&wires[0]), media(&wires[1]));
    assert!(conn1.len() >= 20, "the first connection died mid-stream");
    // A decoder can start cold on the second.
    assert_eq!(conn2[0].0, MSG_AMF0_DATA);
    assert_eq!((conn2[1].0, conn2[1].2[1]), (MSG_VIDEO, 0));
    assert_eq!((conn2[2].0, conn2[2].2[1]), (MSG_AUDIO, 0));
    let first = conn2.iter().find(|m| m.0 == MSG_VIDEO && m.2[1] == 1).unwrap();
    assert_eq!(first.2[0] >> 4, 1, "resumes on a keyframe");
    let last1 = conn1.iter().map(|m| m.1).max().unwrap();
    assert!(first.1 >= last1, "timestamps continue");
    assert!(conn2.windows(2).all(|w| w[0].1 <= w[1].1));
}
