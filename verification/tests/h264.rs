//! NAL units, AVCC records and SPS dimensions.

use stream::codecs::h264::{
    annexb_to_length_prefixed, build_avcc, contains_keyframe, extract_sps_pps, extract_sps_pps_from_avcc,
    from_length_prefixed, parse_sps_dimensions, split_annex_b, to_annex_b, to_length_prefixed,
};

// hand-built SPS-like (7) and PPS-like (8) NALs with start codes
fn sample_annexb() -> Vec<u8> {
    let sps = [0x67u8, 0x42, 0x00, 0x0A];
    let pps = [0x68u8, 0xCE, 0x3C, 0x80];
    let mut out = Vec::new();
    out.extend_from_slice(&[0, 0, 0, 1]);
    out.extend_from_slice(&sps);
    out.extend_from_slice(&[0, 0, 0, 1]);
    out.extend_from_slice(&pps);
    out.extend_from_slice(&[0, 0, 1]);
    out.extend_from_slice(&[0x65, 0x88, 0x84]); // an IDR slice
    out
}

#[test]
fn splits_and_detects_keyframe() {
    let b = sample_annexb();
    let nals = split_annex_b(&b);
    assert_eq!(nals.len(), 3);
    assert_eq!(nals[0][0] & 0x1F, 7);
    assert_eq!(nals[1][0] & 0x1F, 8);
    assert!(contains_keyframe(&b));
}

#[test]
fn builds_avcc_with_lengths() {
    let b = sample_annexb();
    let (sps, pps) = extract_sps_pps(&b).unwrap();
    let avcc = build_avcc(&sps, &pps);
    // profile/compat/level derived from the sample SPS: 67 42 00 0A
    assert_eq!(&avcc[..6], &[1, 0x42, 0x00, 0x0A, 0xFF, 0xE1]);
    let sps_len = u16::from_be_bytes([avcc[6], avcc[7]]) as usize;
    assert_eq!(sps_len, sps.len());
}

#[test]
fn length_prefixes_correctly() {
    let nals: Vec<&[u8]> = vec![&[1, 2, 3], &[4, 5]];
    let lp = to_length_prefixed(&nals);
    assert_eq!(lp.len(), 4 + 3 + 4 + 2);
    assert_eq!(&lp[0..4], &0x0000_0003u32.to_be_bytes());
    assert_eq!(&lp[4..7], &[1, 2, 3]);
}

#[test]
fn emulation_prevention_not_a_start_code() {
    // A NAL whose payload contains the byte run 00 00 03 01 (the encoder's
    // emulation-prevention for 00 00 01). Must NOT be split there.
    let mut data = vec![0, 0, 0, 1, 0x65]; // start code + IDR
    data.extend_from_slice(&[0x12, 0x00, 0x00, 0x03, 0x01, 0xAB]); // payload
    let nals = split_annex_b(&data);
    assert_eq!(nals.len(), 1);
    assert_eq!(nals[0], &[0x65, 0x12, 0x00, 0x00, 0x03, 0x01, 0xAB][..]);
}

#[test]
fn trailing_start_code_is_stripped() {
    // Stream ending with a bare 00 00 01 (no NAL after) must not leak it.
    let data = [0x00, 0x00, 0x00, 0x01, 0x67, 0x42, 0x00, 0x0A, 0x00, 0x00, 0x01];
    let nals = split_annex_b(&data);
    assert_eq!(nals, vec![&[0x67, 0x42, 0x00, 0x0A][..]]);
}

#[test]
fn length_prefixed_roundtrip() {
    let nals: Vec<&[u8]> = vec![&[1, 2, 3], &[4, 5]];
    let lp = to_length_prefixed(&nals);
    let back = from_length_prefixed(&lp).unwrap();
    assert_eq!(back, nals);
    assert_eq!(from_length_prefixed(&[]), Some(vec![]));
}

#[test]
fn length_prefixed_rejects_malformed() {
    assert_eq!(from_length_prefixed(&[0, 0, 0]), None); // truncated length
    assert_eq!(from_length_prefixed(&[0, 0, 0, 9, 1, 2]), None); // overrunning length
    assert_eq!(from_length_prefixed(&[0, 0, 0, 0]), None); // zero-length NAL
}

#[test]
fn annex_b_assembly_roundtrips() {
    let nals: Vec<&[u8]> = vec![&[0x67, 0x42], &[0x68, 0xCE], &[0x65, 0x88]];
    let annexb = to_annex_b(&nals);
    let back = split_annex_b(&annexb);
    assert_eq!(back, nals);
    assert!(to_annex_b(&[]).is_empty());
}

/// Hand-built baseline SPS: 20×15 macroblocks, no cropping → 320×240.
fn sps_320x240() -> Vec<u8> {
    vec![0x67, 0x42, 0xC0, 0x1E, 0xF4, 0x0A, 0x0F, 0xC8]
}

#[test]
fn parses_sps_dimensions() {
    assert_eq!(parse_sps_dimensions(&sps_320x240()), Some((320, 240)));
}

#[test]
fn avcc_sps_extraction_roundtrips_with_build() {
    let sps = sps_320x240();
    let pps = [0x68, 0xCE, 0x3C, 0x80];
    let avcc = build_avcc(&sps, &pps);
    let (sps_back, pps_back) = extract_sps_pps_from_avcc(&avcc).unwrap();
    assert_eq!(sps_back, sps);
    assert_eq!(pps_back, pps);
    assert_eq!(parse_sps_dimensions(&sps_back), Some((320, 240)));
}

#[test]
fn avcc_extraction_rejects_malformed() {
    assert_eq!(extract_sps_pps_from_avcc(&[]), None);
    assert_eq!(extract_sps_pps_from_avcc(&[2, 0, 0, 0, 0xFF, 0xE1, 0]), None);
    let sps = sps_320x240();
    let pps = [0x68, 0xCE];
    let avcc = build_avcc(&sps, &pps);
    // Truncated at every length: never a panic.
    for cut in 0..avcc.len() {
        let _ = extract_sps_pps_from_avcc(&avcc[..cut]);
    }
}

#[test]
fn sps_dimensions_reject_garbage() {
    assert_eq!(parse_sps_dimensions(&[]), None);
    assert_eq!(parse_sps_dimensions(&[0x67]), None);
    // Not an SPS NAL.
    assert_eq!(parse_sps_dimensions(&[0x68, 0x42, 0xC0, 0x1E, 0xF4]), None);
    // Truncated at every length: never a panic.
    let sps = sps_320x240();
    for cut in 0..sps.len() {
        let _ = parse_sps_dimensions(&sps[..cut]);
    }
}


/// A stream of bytes that looks random and is the same on every run.
fn noise(state: &mut u32, len: usize) -> Vec<u8> {
    let mut data = Vec::with_capacity(len);
    for _ in 0..len {
        *state = state.wrapping_mul(1_664_525).wrapping_add(1_013_904_223);
        // Few distinct values, so that start codes turn up often.
        data.push(((*state >> 24) as u8) % 5);
    }
    data
}

/// A NAL that is safe for Annex-B round-tripping: non-empty, doesn't end in
/// zero, and contains no start-code byte pattern inside.
fn safe(b: &[u8]) -> bool {
    !b.is_empty() && !b.ends_with(&[0]) && !b.windows(3).any(|w| w == [0, 0, 1])
}

fn safe_nals(state: &mut u32, count: usize) -> Vec<Vec<u8>> {
    let mut nals = Vec::new();
    while nals.len() < count {
        let len = 1 + (*state as usize >> 8) % 12;
        let nal = noise(state, len);
        if safe(&nal) {
            nals.push(nal);
        }
    }
    nals
}

/// The FLV wire form is lossless: any set of NALs survives the
/// length-prefix encode/decode cycle.
#[test]
fn length_prefixed_roundtrip_property() {
    let mut state = 7u32;
    for round in 0..200usize {
        let nals = safe_nals(&mut state, round % 8);
        let refs: Vec<&[u8]> = nals.iter().map(Vec::as_slice).collect();
        let lp = to_length_prefixed(&refs);
        let back = from_length_prefixed(&lp).unwrap();
        assert_eq!(&back, &nals);
    }
}

/// Annex-B framing of safe NALs is also lossless end to end:
/// annex-b -> split -> length-prefix -> length-prefix-decode recovers
/// the original NAL contents.
#[test]
fn annexb_roundtrip_property() {
    let mut state = 11u32;
    for round in 0..200usize {
        let nals = safe_nals(&mut state, 1 + round % 7);
        let mut annexb = Vec::new();
        for nal in &nals {
            annexb.extend_from_slice(&[0, 0, 0, 1]);
            annexb.extend_from_slice(nal);
        }
        let lp = annexb_to_length_prefixed(&annexb);
        let back = from_length_prefixed(&lp).unwrap();
        assert_eq!(&back, &nals);
    }
}

/// A malformed length-prefixed buffer must never panic.
#[test]
fn length_prefixed_never_panics() {
    let mut state = 13u32;
    for len in 0..256usize {
        let data = noise(&mut state, len);
        let _ = from_length_prefixed(&data);
    }
}

/// Arbitrary Annex-B bytes never panic the splitter.
#[test]
fn annexb_split_never_panics() {
    let mut state = 17u32;
    for len in 0..512usize {
        let data = noise(&mut state, len);
        let _ = split_annex_b(&data);
    }
}

#[test]
fn accepted_units_come_out_as_they_went_in() {
    for d in [vec![], vec![0, 0, 0, 1, 9], vec![0, 0, 0, 2, 1, 2, 0, 0, 0, 3, 4, 5, 6]] {
        let units = from_length_prefixed(&d).unwrap();
        assert_eq!(to_length_prefixed(&units), d);
    }
}

#[test]
fn no_prefix_of_a_record_is_a_record() {
    let record = build_avcc(&[0x67, 0x42, 0x00, 0x1F, 1], &[0x68, 0xCE]);
    assert!(extract_sps_pps_from_avcc(&record).is_some());
    for n in 0..record.len() {
        assert!(extract_sps_pps_from_avcc(&record[..n]).is_none(), "{n} bytes");
    }
}
