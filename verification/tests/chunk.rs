//! Chunk stream framing and reassembly.

use stream::io::Cursor;
use stream::rtmp::link::{CID_AUDIO, CID_COMMAND, CID_VIDEO, MSG_AMF0_COMMAND, MSG_AUDIO, MSG_VIDEO};
use stream::rtmp::{frame_message, ChunkReader};

#[test]
fn reassembles_chunked_message() {
    // Build a >128-byte message so it spans multiple chunks, then confirm the
    // reader reassembles it exactly.
    let payload: Vec<u8> = (0..300u16).map(|i| (i % 251) as u8).collect();
    let frame = frame_message(CID_AUDIO, MSG_AUDIO, 1, 12345, &payload, 128);
    let mut cur = Cursor::new(frame);
    let mut reader = ChunkReader::new();
    let msg = reader.read_message(&mut cur).unwrap();
    assert_eq!(msg.mtype, MSG_AUDIO);
    assert_eq!(msg.payload, payload);
}

#[test]
fn reads_two_back_to_back_messages() {
    let mut buf = Vec::new();
    buf.extend(frame_message(CID_COMMAND, MSG_AMF0_COMMAND, 0, 0, b"first", 128));
    buf.extend(frame_message(CID_VIDEO, MSG_VIDEO, 7, 0, b"second", 128));
    let mut cur = Cursor::new(buf);
    let mut reader = ChunkReader::new();
    let a = reader.read_message(&mut cur).unwrap();
    let b = reader.read_message(&mut cur).unwrap();
    assert_eq!(a.payload, b"first");
    assert_eq!(a.mtype, MSG_AMF0_COMMAND);
    assert_eq!(b.payload, b"second");
    assert_eq!(b.mtype, MSG_VIDEO);
}

#[test]
fn extended_timestamp_survives_roundtrip() {
    // ts > 24 bits must travel via the extended-timestamp field.
    let ts = 0x0102_0304u32;
    let frame = frame_message(CID_VIDEO, MSG_VIDEO, 1, ts, b"payload", 128);
    let mut reader = ChunkReader::new();
    let msg = reader.read_message(&mut Cursor::new(frame)).unwrap();
    assert_eq!(msg.payload, b"payload");
    // Reassemble again with the same reader state to confirm ts was kept.
    let frame2 = frame_message(CID_AUDIO, MSG_AUDIO, 1, ts + 1, b"x", 128);
    let _ = reader.read_message(&mut Cursor::new(frame2)).unwrap();
}

#[test]
fn zero_chunk_size_is_rejected() {
    let mut reader = ChunkReader::new();
    assert!(reader.set_chunk_size(0).is_err());
    // Oversized values clamp instead of blowing up allocation math.
    assert!(reader.set_chunk_size(u32::MAX as usize).is_ok());
}

#[test]
fn malformed_streams_error_not_panic() {
    let inputs: Vec<Vec<u8>> = vec![
        vec![],                                            // immediate EOF
        vec![0xC3],                                        // fmt-3 continuation with no prior state
        vec![0x03, 1, 2],                                  // fmt-0 header cut short
        vec![0x00, 63],                                    // 1-byte extended cid, then EOF
        vec![0x01, 0, 0],                                  // 2-byte extended cid, then EOF
        vec![0x03, 0, 0, 0, 0, 0, 5, 0, 0, 0, 0, 0, 1, 2], // length 5, 2 bytes only
    ];
    for input in inputs {
        let mut reader = ChunkReader::new();
        assert!(
            reader.read_message(&mut Cursor::new(input)).is_err(),
            "malformed input must error, not panic"
        );
    }
}

#[test]
fn abort_discards_partial_message() {
    // A message announced as 100 bytes, delivered partially, then aborted.
    let mut frame = frame_message(CID_AUDIO, MSG_AUDIO, 1, 0, &[0xAA; 100], 128);
    frame.truncate(20); // cut the payload short
    let mut reader = ChunkReader::new();
    assert!(reader.read_message(&mut Cursor::new(frame)).is_err()); // EOF mid-message
    reader.abort(CID_AUDIO as usize);
    // After abort, a fresh message on the same cid reassembles cleanly.
    let frame2 = frame_message(CID_AUDIO, MSG_AUDIO, 1, 5, b"fresh", 128);
    let msg = reader.read_message(&mut Cursor::new(frame2)).unwrap();
    assert_eq!(msg.payload, b"fresh");
}

#[test]
fn bytes_read_counts_headers_too() {
    let frame = frame_message(CID_COMMAND, MSG_AMF0_COMMAND, 0, 0, b"abc", 128);
    let len = frame.len() as u64;
    let mut reader = ChunkReader::new();
    reader.read_message(&mut Cursor::new(frame)).unwrap();
    assert_eq!(reader.bytes_read(), len);
}

#[test]
fn what_came_before_the_end_is_counted() {
    let frame = frame_message(CID_AUDIO, MSG_AUDIO, 1, 0, &[0xAA; 100], 128);
    // The basic header, but not the whole message header.
    let mut reader = ChunkReader::new();
    assert!(reader.read_message(&mut Cursor::new(frame[..5].to_vec())).is_err());
    assert_eq!(reader.bytes_read(), 1);
    // All headers, but not the whole payload.
    let mut reader = ChunkReader::new();
    assert!(reader.read_message(&mut Cursor::new(frame[..50].to_vec())).is_err());
    assert_eq!(reader.bytes_read(), 12);
}

#[test]
fn an_abort_harms_no_other_stream() {
    let video = frame_message(CID_VIDEO, MSG_VIDEO, 1, 7, &[0x11; 200], 128);
    let audio = frame_message(CID_AUDIO, MSG_AUDIO, 1, 8, &[0x22; 200], 128);
    // The first chunk of either message, then the end.
    let mut begun = video[..12 + 128].to_vec();
    begun.extend_from_slice(&audio[..12 + 128]);
    let mut reader = ChunkReader::new();
    assert!(reader.read_message(&mut Cursor::new(begun)).is_err());
    let count = reader.bytes_read();
    reader.abort(CID_AUDIO as usize);
    reader.abort(40);
    reader.abort(1_000_000);
    assert_eq!(reader.bytes_read(), count);
    // The video goes on where it was; the audio starts afresh.
    let msg = reader.read_message(&mut Cursor::new(video[12 + 128..].to_vec())).unwrap();
    assert_eq!((msg.mtype, msg.ts, msg.payload), (MSG_VIDEO, 7, vec![0x11; 200]));
    let msg = reader.read_message(&mut Cursor::new(audio)).unwrap();
    assert_eq!((msg.mtype, msg.ts, msg.payload), (MSG_AUDIO, 8, vec![0x22; 200]));
}

#[test]
fn a_part_that_does_not_come_leaves_zeros() {
    // The first of two chunks breaks off inside its part of the message.
    let mut start = frame_message(CID_COMMAND, MSG_AMF0_COMMAND, 0, 9, &[5; 200], 128);
    start.truncate(12 + 40);
    let mut reader = ChunkReader::new();
    assert!(reader.read_message(&mut Cursor::new(start)).is_err());
    assert_eq!(reader.bytes_read(), 12);
    // The second one completes the message all the same.
    let mut rest = vec![0xC0 | CID_COMMAND];
    rest.extend([7; 72]);
    let msg = reader.read_message(&mut Cursor::new(rest)).unwrap();
    assert_eq!(msg.ts, 9);
    assert_eq!(msg.payload[..128], [0; 128]);
    assert_eq!(msg.payload[128..], [7; 72]);
}

#[test]
fn a_last_part_that_does_not_come_ends_the_message() {
    let mut start = frame_message(CID_COMMAND, MSG_AMF0_COMMAND, 0, 0, &[5; 20], 128);
    start.truncate(12 + 3);
    let mut reader = ChunkReader::new();
    assert!(reader.read_message(&mut Cursor::new(start)).is_err());
    // A continuation has nothing left to bring: its byte opens another chunk.
    let mut next = vec![0xC0 | CID_COMMAND];
    next.extend(frame_message(CID_AUDIO, MSG_AUDIO, 1, 0, b"next", 128));
    let msg = reader.read_message(&mut Cursor::new(next)).unwrap();
    assert_eq!(msg.payload, b"next");
}

#[test]
fn a_missing_extended_timestamp_leaves_its_mark() {
    let mut start = frame_message(CID_VIDEO, MSG_VIDEO, 1, 0x0102_0304, b"four", 128);
    start.truncate(12 + 2);
    let mut reader = ChunkReader::new();
    assert!(reader.read_message(&mut Cursor::new(start)).is_err());
    assert_eq!(reader.bytes_read(), 12);
    let mut rest = vec![0xC0 | CID_VIDEO];
    rest.extend(b"four");
    let msg = reader.read_message(&mut Cursor::new(rest)).unwrap();
    assert_eq!((msg.mtype, msg.ts), (MSG_VIDEO, 0xFF_FFFF));
    assert_eq!(msg.payload, b"four");
}

#[test]
fn any_stream_byte_is_framed() {
    let frame = frame_message(0x85, MSG_AUDIO, 1, 0, &[1; 130], 128);
    assert_eq!(frame[0], 0x85);
    assert_eq!(frame[12 + 128], 0xC5);
    assert_eq!(frame_message(3, MSG_AUDIO, 1, 0, &[], 0).len(), 12);
}

#[test]
fn an_abort_harms_no_interleaved_message() {
    let video = frame_message(CID_VIDEO, MSG_VIDEO, 1, 7, &[0x11; 300], 128);
    let audio = frame_message(CID_AUDIO, MSG_AUDIO, 1, 8, &[0x22; 200], 128);
    let again = frame_message(CID_AUDIO, MSG_AUDIO, 1, 9, &[0x33; 200], 128);
    let mut begun = video[..12 + 128].to_vec();
    begun.extend_from_slice(&audio[..12 + 128]);
    let mut reader = ChunkReader::new();
    assert!(reader.read_message(&mut Cursor::new(begun)).is_err());
    reader.abort(CID_AUDIO as usize);
    // The next audio message comes between the chunks of the video.
    let mut rest = video[140..140 + 129].to_vec();
    rest.extend_from_slice(&again[..12 + 128]);
    rest.extend_from_slice(&video[140 + 129..]);
    rest.extend_from_slice(&again[12 + 128..]);
    let mut input = Cursor::new(rest);
    let msg = reader.read_message(&mut input).unwrap();
    assert_eq!((msg.mtype, msg.ts, msg.payload), (MSG_VIDEO, 7, vec![0x11; 300]));
    let msg = reader.read_message(&mut input).unwrap();
    assert_eq!((msg.mtype, msg.ts, msg.payload), (MSG_AUDIO, 9, vec![0x33; 200]));
}
