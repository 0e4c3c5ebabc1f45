//! ADTS headers and `AudioSpecificConfig`.

use stream::codecs::aac::{build_asc, parse_adts, parse_asc, AdtsHeader};

#[test]
fn parses_header_and_builds_asc() {
    let data = [0xFFu8, 0xF1, 0x50, 0x80, 0x01, 0x00, 0x00, 0xDE, 0xAD];
    let h = parse_adts(&data).unwrap();
    assert_eq!(h.object_type, 2); // AAC-LC
    assert_eq!(h.sampling_frequency_index, 4);
    assert_eq!(h.channel_config, 2);
    assert_eq!(h.header_length, 7);
    let asc = build_asc(&h);
    assert_eq!(asc, [0x0A, 0x10]);
}

#[test]
fn rejects_non_adts() {
    assert!(parse_adts(&[0, 1, 2, 3, 4, 5, 6]).is_none());
}

#[test]
fn rejects_adts_shorter_than_its_own_header() {
    // Sync word says "CRC present" (9-byte header) but only 8 bytes exist.
    assert!(parse_adts(&[0xFF, 0xF0, 0x50, 0x80, 0x01, 0x00, 0x00, 0xDE]).is_none());
}

#[test]
fn asc_roundtrip() {
    let data = [0xFFu8, 0xF1, 0x50, 0x80, 0x01, 0x00, 0x00, 0xDE, 0xAD];
    let h = parse_adts(&data).unwrap();
    let asc = build_asc(&h);
    let back = parse_asc(&asc).unwrap();
    assert_eq!(back.object_type, h.object_type);
    assert_eq!(back.sampling_frequency_index, h.sampling_frequency_index);
    assert_eq!(back.channel_config, h.channel_config);
    assert!(parse_asc(&[0x00]).is_none());
}

/// Build a complete ADTS frame from a parsed header so the bytes on the wire
/// carry exactly the fields `parse_adts` reads back.
fn adts_frame(h: &AdtsHeader) -> Vec<u8> {
    let mut out = Vec::with_capacity(h.frame_length);
    out.push(0xFF);
    // sync low nibble, MPEG-4 (ID=0), layer 0, protection absent.
    out.push(0xF1);
    // profile(2) | sf_index(4) | private(1) | channel_config(3) top bit
    out.push(
        ((h.object_type.saturating_sub(1) & 0x03) << 6)
            | ((h.sampling_frequency_index & 0x0F) << 2)
            | ((h.channel_config >> 2) & 0x01),
    );
    // channel_config low 2 bits | frame_length high 2 bits
    out.push(((h.channel_config & 0x03) << 6) | (((h.frame_length >> 11) as u8) & 0x03));
    out.push((h.frame_length >> 3) as u8);
    out.push((((h.frame_length as u8) & 0x07) << 5) | 0x1F); // buffer fullness high
    out.push(0xFC); // buffer fullness low + 1 raw data block
                    // Pad to frame_length with plausible AAC payload bytes.
    while out.len() < h.frame_length {
        out.push(0x21);
    }
    out
}


/// Any valid ADTS header round-trips through parse_adts -> build_asc ->
/// parse_asc without losing a field.
#[test]
fn adts_to_asc_roundtrip_property() {
    for object_type in 1u8..=4 {
        for sampling_frequency_index in 0u8..13 {
            for channel_config in 1u8..=2 {
                for payload in [16usize, 17, 300, 2047] {
                    let h = AdtsHeader {
                        object_type,
                        sampling_frequency_index,
                        channel_config,
                        header_length: 7,
                        frame_length: 7 + payload,
                    };
                    let frame = adts_frame(&h);
                    let parsed = parse_adts(&frame).expect("constructed frame must parse");
                    assert_eq!(parsed.object_type, h.object_type);
                    assert_eq!(parsed.sampling_frequency_index, h.sampling_frequency_index);
                    assert_eq!(parsed.channel_config, h.channel_config);
                    assert_eq!(parsed.frame_length, h.frame_length);

                    let asc = build_asc(&parsed);
                    let back = parse_asc(&asc).expect("ASC must parse");
                    assert_eq!(back.object_type, h.object_type);
                    assert_eq!(back.sampling_frequency_index, h.sampling_frequency_index);
                    assert_eq!(back.channel_config, h.channel_config);
                }
            }
        }
    }
}

/// Arbitrary bytes never panic either parser.
#[test]
fn adts_parsers_never_panic() {
    let mut state = 0x9E37_79B9u32;
    for len in 0..512usize {
        let mut data = Vec::with_capacity(len);
        for _ in 0..len {
            state = state.wrapping_mul(1_664_525).wrapping_add(1_013_904_223);
            data.push((state >> 24) as u8);
        }
        let _ = parse_adts(&data);
        let _ = parse_asc(&data);
        if len >= 2 {
            data[0] = 0xFF;
            data[1] = 0xF0 | (data[1] & 0x0F);
            let _ = parse_adts(&data);
        }
    }
}
