//! Incremental FLV parsing.

use stream::rtmp::{FlvError, FlvTagParser};

fn header() -> Vec<u8> {
    let mut h = vec![0x46, 0x4c, 0x56, 0x01, 0x05, 0x00, 0x00, 0x00, 0x09];
    h.extend_from_slice(&[0, 0, 0, 0]);
    h
}

fn tag(mtype: u8, ts: u32, body: &[u8]) -> Vec<u8> {
    let size = body.len();
    let mut t = Vec::new();
    t.push(mtype);
    t.extend_from_slice(&[(size >> 16) as u8, (size >> 8) as u8, size as u8]);
    t.extend_from_slice(&[(ts >> 16) as u8, (ts >> 8) as u8, ts as u8]);
    t.push((ts >> 24) as u8);
    t.extend_from_slice(&[0, 0, 0]);
    t.extend_from_slice(body);
    t.extend_from_slice(&((11 + size) as u32).to_be_bytes());
    t
}

#[test]
fn parses_tags_incrementally() {
    let mut stream = header();
    stream.extend(tag(9, 40, &[1, 2, 3]));
    stream.extend(tag(8, 0x0102_0304, &[4, 5]));
    let mut p = FlvTagParser::new();
    // Feed one byte at a time: chunking must not matter.
    let mut tags = Vec::new();
    for b in &stream {
        tags.extend(p.feed(&[*b]).unwrap());
    }
    assert_eq!(tags.len(), 2);
    assert_eq!((tags[0].mtype, tags[0].ts), (9, 40));
    assert_eq!(tags[0].body, vec![1, 2, 3]);
    assert_eq!((tags[1].mtype, tags[1].ts), (8, 0x0102_0304));
    assert_eq!(tags[1].body, vec![4, 5]);
}

#[test]
fn merges_24_bit_timestamp_with_extension() {
    let mut stream = header();
    stream.extend(tag(9, 0xFFAB_CDEF, &[0x55]));
    let mut p = FlvTagParser::new();
    let tags = p.feed(&stream).unwrap();
    assert_eq!(tags[0].ts, 0xFFAB_CDEF);
}

#[test]
fn rejects_bad_headers() {
    let mut p = FlvTagParser::new();
    assert!(matches!(p.feed(b"not an FLV stream at all"), Err(FlvError::BadHeader)));
    let mut bad = header();
    bad[3] = 2; // unsupported version
    assert!(matches!(FlvTagParser::new().feed(&bad), Err(FlvError::BadHeader)));
    let mut huge_offset = header();
    huge_offset[5..9].copy_from_slice(&0x0010_0000u32.to_be_bytes());
    assert!(matches!(
        FlvTagParser::new().feed(&huge_offset),
        Err(FlvError::BadHeader)
    ));
}

#[test]
fn truncated_input_waits_without_error() {
    let mut stream = header();
    stream.extend(tag(9, 0, &[1, 2, 3]));
    // Cut into the tag body: parsing must wait, never error.
    let tail = stream.split_off(25);
    let mut p = FlvTagParser::new();
    assert_eq!(p.feed(&stream[..5]).unwrap(), vec![]);
    assert_eq!(p.feed(&stream[5..]).unwrap(), vec![]);
    // The missing bytes arrive and the tag completes.
    let tags = p.feed(&tail).unwrap();
    assert_eq!(tags.len(), 1);
    assert_eq!((tags[0].mtype, tags[0].ts), (9, 0));
    assert_eq!(tags[0].body, vec![1, 2, 3]);
}

#[test]
fn nothing_behind_the_header_is_malformed() {
    let mut parser = FlvTagParser::new();
    parser.feed(&[0x46, 0x4C, 0x56, 0x01, 0x05, 0, 0, 0, 9, 0, 0, 0, 0]).unwrap();
    let mut x: u32 = 7;
    for _ in 0..500 {
        let noise: Vec<u8> = (0..37)
            .map(|_| {
                x = x.wrapping_mul(1_664_525).wrapping_add(1_013_904_223);
                (x >> 24) as u8
            })
            .collect();
        assert!(parser.feed(&noise).is_ok());
    }
}
