//! AAC-LC helpers: parsing ADTS headers and building the FLV
//! `AudioSpecificConfig`.

use vstd::prelude::*;

use crate::bytes;

verus! {

/// The ADTS header parsed just enough to rebuild `AudioSpecificConfig` and to
/// know where the raw frame begins.
#[derive(Debug, Clone, Copy, PartialEq, Eq, Structural)]
pub struct AdtsHeader {
    /// profile + 1 (1 = AAC Main, 2 = AAC LC)
    pub object_type: u8,
    /// Index into [`SAMPLE_RATES`] (e.g. 4 = 44100 Hz).
    pub sampling_frequency_index: u8,
    /// Channel configuration (1 = mono, 2 = stereo, ...).
    pub channel_config: u8,
    /// total frame length in bytes (header + payload)
    pub frame_length: usize,
    /// header size in bytes (7 or 9 if CRC)
    pub header_length: usize,
}

/// The 2-byte `AudioSpecificConfig` decoded back into its fields.
#[derive(Debug, Clone, Copy, PartialEq, Eq, Structural)]
pub struct Asc {
    /// AAC object type (1 = Main, 2 = LC, ...), as carried by the ADTS header.
    pub object_type: u8,
    /// Index into [`SAMPLE_RATES`].
    pub sampling_frequency_index: u8,
    /// Channel configuration.
    pub channel_config: u8,
}

/// Standard AAC sampling frequency table, indexed by `sampling_frequency_index`.
pub const SAMPLE_RATES: [u32; 13] = [
    96_000, 88_200, 64_000, 48_000, 44_100, 32_000, 24_000, 22_050, 16_000, 12_000, 11_025, 8_000,
    7_350,
];

/// Bytes of an ADTS header: seven, and two more when a checksum follows (the
/// low bit of the second byte is clear).
pub open spec fn adts_header_length(data: Seq<u8>) -> nat {
    if data[1] % 2 == 1 {
        7
    } else {
        9
    }
}

/// True when `data` starts with a whole ADTS header: the twelve-bit sync word
/// is all ones and no byte of the header is missing.
pub open spec fn is_adts(data: Seq<u8>) -> bool {
    data.len() >= 7 && data[0] == 0xFF && data[1] >= 0xF0 && data.len() >= adts_header_length(data)
}

/// The fields of the ADTS header at the front of `data`.
pub open spec fn adts_fields(data: Seq<u8>) -> AdtsHeader {
    AdtsHeader {
        object_type: (data[2] / 64 + 1) as u8,
        sampling_frequency_index: ((data[2] / 4) % 16) as u8,
        channel_config: ((data[2] % 2) * 4 + data[3] / 64) as u8,
        frame_length: ((data[3] % 4) * 2048 + data[4] * 8 + data[5] / 32) as usize,
        header_length: adts_header_length(data) as usize,
    }
}

/// The three fields in two bytes: five bits of object type (minus one), four
/// of frequency index, four of channel configuration, three zero bits.
pub open spec fn asc_bytes(
    object_type: int,
    sampling_frequency_index: int,
    channel_config: int,
) -> Seq<u8> {
    let minus_one = if object_type > 0 {
        object_type - 1
    } else {
        0
    };
    seq![
        ((minus_one % 32) * 8 + (sampling_frequency_index / 2) % 8) as u8,
        ((sampling_frequency_index % 2) * 128 + (channel_config % 16) * 8) as u8,
    ]
}

/// The fields of a two-byte `AudioSpecificConfig`.
pub open spec fn asc_fields(data: Seq<u8>) -> Asc {
    Asc {
        object_type: (data[0] / 8 + 1) as u8,
        sampling_frequency_index: ((data[0] % 8) * 2 + data[1] / 128) as u8,
        channel_config: ((data[1] / 8) % 16) as u8,
    }
}

/// The raw frame behind an ADTS header; all of `data` when there is none.
pub open spec fn adts_payload(data: Seq<u8>) -> Seq<u8> {
    if is_adts(data) {
        data.skip(adts_header_length(data) as int)
    } else {
        data
    }
}

/// Parse an ADTS header from the front of `data`. Returns `None` when the sync
/// word (0xFFF) isn't present, or when `data` is shorter than the header
/// itself (7 bytes without CRC, 9 with).
pub fn parse_adts(data: &[u8]) -> (header: Option<AdtsHeader>)
    ensures
        header == (if is_adts(data@) {
            Some(adts_fields(data@))
        } else {
            None
        }),
{
    if data.len() < 7 || data[0] != 0xFF || data[1] < 0xF0 {
        return None;
    }
    let header_length: usize = if data[1] % 2 == 1 {
        7
    } else {
        9
    };
    if data.len() < header_length {
        return None;
    }
    Some(
        AdtsHeader {
            object_type: data[2] / 64 + 1,
            sampling_frequency_index: (data[2] / 4) % 16,
            channel_config: (data[2] % 2) * 4 + data[3] / 64,
            frame_length: (data[3] % 4) as usize * 2048 + data[4] as usize * 8 + (data[5]
                / 32) as usize,
            header_length,
        },
    )
}

/// Parse a 2-byte `AudioSpecificConfig` (the FLV AAC sequence-header payload).
/// Returns `None` when the buffer is too short.
pub fn parse_asc(data: &[u8]) -> (asc: Option<Asc>)
    ensures
        asc == (if data@.len() >= 2 {
            Some(asc_fields(data@))
        } else {
            None
        }),
{
    if data.len() < 2 {
        return None;
    }
    Some(
        Asc {
            object_type: data[0] / 8 + 1,
            sampling_frequency_index: (data[0] % 8) * 2 + data[1] / 128,
            channel_config: (data[1] / 8) % 16,
        },
    )
}

/// Build the 2-byte `AudioSpecificConfig` FLV uses for the AAC sequence header.
///
/// Layout: [ objectTypeMinus1 (5) | samplingFreqIndex (4) | channelConfig (4) ]
pub fn build_asc(header: &AdtsHeader) -> (asc: Vec<u8>)
    ensures
        asc@ == asc_bytes(
            header.object_type as int,
            header.sampling_frequency_index as int,
            header.channel_config as int,
        ),
{
    let minus_one: u8 = if header.object_type > 0 {
        header.object_type - 1
    } else {
        0
    };
    let mut asc: Vec<u8> = Vec::new();
    asc.push((minus_one % 32) * 8 + (header.sampling_frequency_index / 2) % 8);
    asc.push((header.sampling_frequency_index % 2) * 128 + (header.channel_config % 16) * 8);
    assert(asc@ =~= asc_bytes(
        header.object_type as int,
        header.sampling_frequency_index as int,
        header.channel_config as int,
    ));
    asc
}

/// Strip the ADTS header, returning just the raw AAC-LC frame.
pub fn strip_adts(data: &[u8]) -> (frame: Vec<u8>)
    ensures
        frame@ == adts_payload(data@),
{
    match parse_adts(data) {
        Some(h) => bytes::copy_of(bytes::skip(data, h.header_length)),
        None => bytes::copy_of(data),
    }
}

/// One-shot helper: parse an ADTS header and build the FLV
/// `AudioSpecificConfig`. Returns `None` when the data isn't ADTS.
pub fn adts_to_asc(data: &[u8]) -> (asc: Option<Vec<u8>>)
    ensures
        asc is Some <==> is_adts(data@),
        asc matches Some(a) ==> a@ == asc_bytes(
            adts_fields(data@).object_type as int,
            adts_fields(data@).sampling_frequency_index as int,
            adts_fields(data@).channel_config as int,
        ),
{
    match parse_adts(data) {
        Some(h) => Some(build_asc(&h)),
        None => None,
    }
}

/// Reading an `AudioSpecificConfig` gives back the fields it was built from,
/// for every value those fields can hold.
pub proof fn asc_round_trip(object_type: u8, sampling_frequency_index: u8, channel_config: u8)
    requires
        1 <= object_type <= 32,
        sampling_frequency_index < 16,
        channel_config < 16,
    ensures
        asc_fields(
            asc_bytes(object_type as int, sampling_frequency_index as int, channel_config as int),
        ) == (Asc { object_type, sampling_frequency_index, channel_config }),
{
}

/// The configuration built from an ADTS header decodes to that header's fields.
pub proof fn adts_fields_survive_asc(data: Seq<u8>)
    requires
        is_adts(data),
    ensures
        ({
            let h = adts_fields(data);
            asc_fields(
                asc_bytes(
                    h.object_type as int,
                    h.sampling_frequency_index as int,
                    h.channel_config as int,
                ),
            ) == (Asc {
                object_type: h.object_type,
                sampling_frequency_index: h.sampling_frequency_index,
                channel_config: h.channel_config,
            })
        }),
{
    let h = adts_fields(data);
    asc_round_trip(h.object_type, h.sampling_frequency_index, h.channel_config);
}

} // verus!
