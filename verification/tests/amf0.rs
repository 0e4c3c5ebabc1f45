//! AMF0 encoding and decoding.

use stream::rtmp::amf0::{ObjVal, Reader, Val, Writer, TYPE_STRING};

#[test]
fn roundtrip_values() {
    let mut w = Writer::new();
    w.number(2.0f64.to_bits())
        .string("hi")
        .boolean(true)
        .ecma_array(&[("a", 1.0f64.to_bits()), ("b", 2.0f64.to_bits())]);
    let bytes = w.into_bytes();

    let mut r = Reader::new(&bytes);
    assert_eq!(r.read_value(), Some(Val::Number(2.0f64.to_bits())));
    assert_eq!(r.read_value(), Some(Val::String("hi".into())));
    assert_eq!(r.read_value(), Some(Val::Boolean(true)));
    assert_eq!(
        r.read_value(),
        Some(Val::Object(vec![
            ("a".into(), Val::Number(1.0f64.to_bits())),
            ("b".into(), Val::Number(2.0f64.to_bits()))
        ]))
    );
}

#[test]
fn truncated_object_is_none_not_panic() {
    let mut w = Writer::new();
    w.object(&[("key", amf0_str("value"))]);
    let bytes = w.into_bytes();
    // Chop the encoding at every length: none may panic.
    for cut in 0..=bytes.len() {
        let mut r = Reader::new(&bytes[..cut]);
        let _ = r.read_value();
    }
}

#[test]
fn truncated_string_is_none() {
    assert_eq!(Reader::new(&[TYPE_STRING, 0x00, 0x10, b'a']).read_value(), None);
    assert_eq!(Reader::new(&[TYPE_STRING, 0xFF]).read_value(), None);
}

#[test]
fn unknown_marker_is_none() {
    assert_eq!(Reader::new(&[0x0C, 0, 0, 0, 0, 0, 0, 0, 0]).read_value(), None);
}

#[test]
fn skip_utf8_respects_bounds() {
    let mut r = Reader::new(&[0x00, 0x05, b'a']);
    assert_eq!(r.skip_utf8(), None);
}

fn amf0_str(s: &str) -> ObjVal<'_> {
    ObjVal::Str(s)
}

#[test]
fn bare_strings_carry_no_marker() {
    let mut w = Writer::new();
    w.raw_string("hi");
    assert_eq!(w.into_bytes(), vec![0, 2, b'h', b'i']);
}

#[test]
fn copies_say_the_same() {
    let v = Val::Object(vec![
        ("a".to_string(), Val::Array(vec![Val::Null, Val::Boolean(true)])),
        ("b".to_string(), Val::String("x".to_string())),
    ]);
    assert_eq!(v.clone(), v);
}

#[test]
fn reading_all_stops_behind_what_it_cannot_read() {
    let mut w = Writer::new();
    w.number(1.0f64.to_bits());
    let mut bytes = w.into_bytes();
    bytes.extend([0x7F, 0x05]);
    let mut r = Reader::new(&bytes);
    assert_eq!(r.read_all(), vec![Val::Number(1.0f64.to_bits())]);
    assert_eq!(r.read_value(), Some(Val::Null));
    assert_eq!(r.read_value(), None);
}
