//! FLV tag-body decoding — the *demux* direction of the pipeline.
//!
//! Everything else in this crate muxes packets *into* FLV; this module parses
//! FLV tag bodies back into [`MediaPacket`]s and codec configs. The RTMP ingest
//! server needs exactly that: its audio/video messages carry FLV tag bodies
//! verbatim.
//!
//! All parsing is bounds-checked: malformed or hostile input yields `None`,
//! never a panic.

use vstd::prelude::*;

use crate::bytes;
use crate::bytes::{be24, be32, from_be24};
use crate::codecs::h264;
use crate::codecs::h264::{annex_b, prefixed_units};
use crate::models::{MediaKind, MediaPacket, PacketView};

verus! {

/// FLV tag types (shared with the mux direction).
pub const TAG_AUDIO: u8 = 8;

/// FLV video tag type.
pub const TAG_VIDEO: u8 = 9;

/// Script data (`onMetaData`); carried through but not decoded here.
pub const TAG_SCRIPT: u8 = 18;

/// H.264, in the low nibble of the first video byte.
pub const VIDEO_CODEC_AVC: u8 = 7;

/// AAC, in the high nibble of the first audio byte.
pub const AUDIO_FORMAT_AAC: u8 = 10;

/// One FLV tag as a mathematical value.
#[verifier::ext_equal]
pub struct TagView {
    /// Tag type.
    pub kind: u8,
    /// Millisecond timestamp.
    pub ts: u32,
    /// Tag body.
    pub body: Seq<u8>,
}

/// The FLV header: signature, version, audio and video flags, its own size,
/// and the size of the tag before the first.
pub open spec fn flv_header() -> Seq<u8> {
    seq![0x46u8, 0x4C, 0x56, 0x01, 0x05, 0, 0, 0, 9, 0, 0, 0, 0]
}

/// The eleven bytes in front of a tag body: type, body size, the low 24 bits
/// of the timestamp, its high byte, and stream id 0.
pub open spec fn tag_head(t: TagView) -> Seq<u8> {
    seq![t.kind] + be24(t.body.len() as int) + be24(t.ts as int) + seq![
        (t.ts / 0x100_0000) as u8,
        0u8,
        0u8,
        0u8,
    ]
}

/// A tag on the wire: head, body, and the size of both.
pub open spec fn tag_bytes(t: TagView) -> Seq<u8> {
    tag_head(t) + t.body + be32(11 + t.body.len() as int)
}

/// Tags one behind the other.
pub open spec fn tags_bytes(tags: Seq<TagView>) -> Seq<u8>
    decreases tags.len(),
{
    if tags.len() == 0 {
        Seq::empty()
    } else {
        tag_bytes(tags.first()) + tags_bytes(tags.drop_first())
    }
}

/// One tag, alone in a list.
pub proof fn lemma_one_tag(t: TagView)
    ensures
        tags_bytes(seq![t]) == tag_bytes(t),
{
    assert(tags_bytes(seq![t].drop_first()) == Seq::<u8>::empty());
    assert(tags_bytes(seq![t]) =~= tag_bytes(t));
}

/// The wire form of two lists of tags is that of the one list behind the other.
pub proof fn lemma_tags_concat(a: Seq<TagView>, b: Seq<TagView>)
    ensures
        tags_bytes(a + b) == tags_bytes(a) + tags_bytes(b),
    decreases a.len(),
{
    if a.len() == 0 {
        assert(a + b =~= b);
        assert(tags_bytes(a) + tags_bytes(b) =~= tags_bytes(b));
    } else {
        assert((a + b).drop_first() =~= a.drop_first() + b);
        assert((a + b).first() == a.first());
        lemma_tags_concat(a.drop_first(), b);
        bytes::lemma_concat(tag_bytes(a.first()), tags_bytes(a.drop_first()), tags_bytes(b));
    }
}

/// What one decoded FLV tag body produced.
#[derive(Debug, Clone, PartialEq, Eq)]
pub enum Decoded {
    /// An H.264 `AVCDecoderConfigurationRecord` (video sequence header).
    VideoConfig(Vec<u8>),
    /// An AAC `AudioSpecificConfig` (audio sequence header).
    AudioConfig(Vec<u8>),
    /// One media packet with millisecond timestamps.
    Packet(MediaPacket),
}

/// A [`Decoded`] as a mathematical value.
#[verifier::ext_equal]
pub enum DecodedView {
    /// Video sequence header.
    VideoConfig(Seq<u8>),
    /// Audio sequence header.
    AudioConfig(Seq<u8>),
    /// Media packet.
    Packet(PacketView),
}

impl View for Decoded {
    type V = DecodedView;

    open spec fn view(&self) -> DecodedView {
        match *self {
            Decoded::VideoConfig(v) => DecodedView::VideoConfig(v@),
            Decoded::AudioConfig(a) => DecodedView::AudioConfig(a@),
            Decoded::Packet(p) => DecodedView::Packet(p@),
        }
    }
}

/// The first three bytes of `s` as a two's-complement number.
pub open spec fn signed_be24(s: Seq<u8>) -> int {
    if from_be24(s) < 0x80_0000 {
        from_be24(s)
    } else {
        from_be24(s) - 0x100_0000
    }
}

/// What a video tag body holds:
/// `[frameType|codecId][AVCPacketType][CompositionTime(3)][AVC payload]`.
pub open spec fn video_body(ts: int, body: Seq<u8>) -> Option<DecodedView> {
    if body.len() < 5 || body[0] % 16 != 7 {
        None
    } else if body[1] == 0 {
        if body.len() > 5 {
            Some(DecodedView::VideoConfig(body.skip(5)))
        } else {
            None
        }
    } else if body[1] == 1 {
        match prefixed_units(body.skip(5)) {
            Some(units) => if units.len() > 0 {
                Some(
                    DecodedView::Packet(
                        PacketView {
                            kind: MediaKind::Video,
                            pts: ts + signed_be24(body.skip(2)),
                            dts: ts,
                            is_key: body[0] / 16 == 1,
                            data: annex_b(units),
                        },
                    ),
                )
            } else {
                None
            },
            None => None,
        }
    } else {
        None
    }
}

/// What an audio tag body holds: `[format|flags][AACPacketType][AAC payload]`.
pub open spec fn audio_body(ts: int, body: Seq<u8>) -> Option<DecodedView> {
    if body.len() < 2 || body[0] / 16 != 10 {
        None
    } else if body[1] == 0 {
        if body.len() > 2 {
            Some(DecodedView::AudioConfig(body.skip(2)))
        } else {
            None
        }
    } else if body[1] == 1 {
        Some(
            DecodedView::Packet(
                PacketView {
                    kind: MediaKind::Audio,
                    pts: ts,
                    dts: ts,
                    is_key: false,
                    data: body.skip(2),
                },
            ),
        )
    } else {
        None
    }
}

/// What the body of a tag of type `mtype` holds; nothing for other types than
/// audio and video.
pub open spec fn tag_body(mtype: u8, ts: int, body: Seq<u8>) -> Option<DecodedView> {
    if mtype == TAG_VIDEO {
        video_body(ts, body)
    } else if mtype == TAG_AUDIO {
        audio_body(ts, body)
    } else {
        None
    }
}

/// The view of an optional [`Decoded`].
pub open spec fn opt_decoded(d: Option<Decoded>) -> Option<DecodedView> {
    match d {
        Some(x) => Some(x@),
        None => None,
    }
}

/// Decode one FLV tag body. `mtype` is the tag type (8 audio, 9 video), `ts`
/// the tag's millisecond timestamp. Returns `None` for unknown codecs,
/// unsupported packet types, and any truncation — ingest must never crash on
/// what a publisher sends.
pub fn decode_tag(mtype: u8, ts: u32, body: &[u8]) -> (d: Option<Decoded>)
    ensures
        opt_decoded(d) == tag_body(mtype, ts as int, body@),
{
    if mtype == TAG_VIDEO {
        decode_video(ts, body)
    } else if mtype == TAG_AUDIO {
        decode_audio(ts, body)
    } else {
        None
    }
}

fn decode_video(ts: u32, body: &[u8]) -> (d: Option<Decoded>)
    ensures
        opt_decoded(d) == video_body(ts as int, body@),
{
    if body.len() < 5 || body[0] % 16 != VIDEO_CODEC_AVC {
        return None;  // only H.264 is in scope
    }
    let payload: &[u8] = bytes::skip(body, 5);
    match body[1] {
        0 => {
            // Sequence header: the AVCDecoderConfigurationRecord itself.
            if payload.len() == 0 {
                return None;
            }
            Some(Decoded::VideoConfig(bytes::copy_of(payload)))
        },
        1 => {
            // NAL units, length-prefixed. Composition offset is signed 24-bit.
            let raw: i64 = bytes::read_be24(body, 2) as i64;
            let cts: i64 = if raw < 0x80_0000 {
                raw
            } else {
                raw - 0x100_0000
            };
            let nals: Vec<&[u8]> = h264::from_length_prefixed(payload)?;
            if nals.len() == 0 {
                return None;
            }
            let dts: i64 = ts as i64;
            Some(
                Decoded::Packet(
                    MediaPacket {
                        kind: MediaKind::Video,
                        dts,
                        pts: dts + cts,
                        is_key: body[0] / 16 == 1,
                        data: h264::to_annex_b(nals.as_slice()),
                    },
                ),
            )
        },
        _ => None,  // end-of-sequence and anything exotic: not media
    }
}

fn decode_audio(ts: u32, body: &[u8]) -> (d: Option<Decoded>)
    ensures
        opt_decoded(d) == audio_body(ts as int, body@),
{
    if body.len() < 2 || body[0] / 16 != AUDIO_FORMAT_AAC {
        return None;  // only AAC-LC is in scope
    }
    let payload: &[u8] = bytes::skip(body, 2);
    match body[1] {
        0 => {
            if payload.len() == 0 {
                return None;
            }
            Some(Decoded::AudioConfig(bytes::copy_of(payload)))
        },
        1 => Some(
            Decoded::Packet(
                MediaPacket {
                    kind: MediaKind::Audio,
                    dts: ts as i64,
                    pts: ts as i64,
                    is_key: false,
                    data: bytes::copy_of(payload),
                },
            ),
        ),
        _ => None,
    }
}

} // verus!
