//! Fragmented MP4 boxes.

use stream::hls::mp4::{
    init_segment, media_segment, sample_flags, AudioTrack, Fragment, FragmentSample, VideoTrack, AUDIO_TRACK_ID,
    VIDEO_TRACK_ID,
};

/// The boxes at one level: `(kind, body)`.
fn boxes(bytes: &[u8]) -> Vec<(String, Vec<u8>)> {
    let mut out = Vec::new();
    let mut pos = 0;
    while pos < bytes.len() {
        let size = u32::from_be_bytes([bytes[pos], bytes[pos + 1], bytes[pos + 2], bytes[pos + 3]]) as usize;
        let kind = String::from_utf8(bytes[pos + 4..pos + 8].to_vec()).unwrap();
        out.push((kind, bytes[pos + 8..pos + size].to_vec()));
        pos += size;
    }
    assert_eq!(pos, bytes.len(), "lengths add up");
    out
}

fn find(bytes: &[u8], kind: &str) -> Vec<u8> {
    boxes(bytes).into_iter().find(|b| b.0 == kind).unwrap().1
}

fn kinds(bytes: &[u8]) -> Vec<String> {
    boxes(bytes).into_iter().map(|b| b.0).collect()
}

fn be32(b: &[u8], at: usize) -> u32 {
    u32::from_be_bytes([b[at], b[at + 1], b[at + 2], b[at + 3]])
}

#[test]
fn an_init_segment_describes_both_tracks() {
    let video = VideoTrack {
        avcc: vec![1, 0x42, 0xC0, 0x1E],
        width: 320,
        height: 240,
    };
    let audio = AudioTrack {
        asc: vec![0x0A, 0x10],
        sample_rate: 44_100,
        channels: 2,
        bitrate: 128_000,
    };
    let init = init_segment(&Some(video), &Some(audio));
    assert_eq!(kinds(&init), vec!["ftyp", "moov"]);
    let moov = find(&init, "moov");
    assert_eq!(kinds(&moov), vec!["mvhd", "trak", "trak", "mvex"]);
    let trak = find(&moov, "trak");
    let mdia = find(&trak, "mdia");
    assert_eq!(be32(&find(&mdia, "mdhd"), 12), 90_000, "video ticks per second");
    let stbl = find(&find(&mdia, "minf"), "stbl");
    let stsd = find(&stbl, "stsd");
    assert_eq!(be32(&stsd, 4), 1, "one sample entry");
    let avc1 = find(&stsd[8..], "avc1");
    assert_eq!(u16::from_be_bytes([avc1[24], avc1[25]]), 320);
    assert_eq!(u16::from_be_bytes([avc1[26], avc1[27]]), 240);
    assert_eq!(find(&avc1[78..], "avcC"), vec![1, 0x42, 0xC0, 0x1E]);
    let audio_only = init_segment(
        &None,
        &Some(AudioTrack {
            asc: vec![0x0A, 0x10],
            sample_rate: 48_000,
            channels: 1,
            bitrate: 64_000,
        }),
    );
    assert_eq!(kinds(&find(&audio_only, "moov")), vec!["mvhd", "trak", "mvex"]);
}

#[test]
fn runs_point_at_their_samples() {
    let sample = |payload: &[u8], duration: u32, sync: bool| FragmentSample {
        duration,
        payload: payload.to_vec(),
        flags: sample_flags(if sync { 2 } else { 1 }, sync),
        composition_offset: 0,
    };
    let fragments = vec![
        Fragment {
            track_id: VIDEO_TRACK_ID,
            base_decode_time: 9_000,
            samples: vec![sample(&[1, 2, 3], 3_000, true), sample(&[4], 3_000, false)],
        },
        Fragment {
            track_id: AUDIO_TRACK_ID,
            base_decode_time: 4_410,
            samples: vec![sample(&[5, 6], 1_024, true)],
        },
    ];
    let seg = media_segment(7, &fragments);
    assert_eq!(kinds(&seg), vec!["styp", "moof", "mdat"]);
    let moof = find(&seg, "moof");
    assert_eq!(kinds(&moof), vec!["mfhd", "traf", "traf"]);
    assert_eq!(be32(&find(&moof, "mfhd"), 4), 7);
    assert_eq!(find(&seg, "mdat"), vec![1, 2, 3, 4, 5, 6]);

    let styp = 8 + find(&seg, "styp").len();
    for (i, (traf, base, data)) in [(1usize, 9_000u32, &[1u8, 2, 3, 4][..]), (2, 4_410, &[5, 6][..])]
        .iter()
        .enumerate()
    {
        let body = &boxes(&moof)[*traf].1;
        let tfdt = find(body, "tfdt");
        assert_eq!(be32(&tfdt, tfdt.len() - 4), *base);
        let trun = find(body, "trun");
        assert_eq!(be32(&trun, 4) as usize, fragments[i].samples.len());
        let offset = be32(&trun, 8) as usize;
        assert_eq!(&seg[styp + offset..styp + offset + data.len()], *data);
    }
}

#[test]
fn sync_samples_are_marked() {
    // "Does not depend on others" and "is a sync sample".
    assert_eq!(sample_flags(2, true), 0x0200_0000);
    assert_eq!(sample_flags(1, false), 0x0101_0000);
}
