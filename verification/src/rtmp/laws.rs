//! What a publisher sends on one end of a connection, an ingest server takes
//! in at the other.

use vstd::prelude::*;
use vstd::utf8::encode_utf8;

use crate::bytes;
use crate::codecs::aac::adts_payload;
use crate::codecs::h264::{annex_b, annex_b_units};
use crate::doubles::double_of;
use crate::flv::{TagView, TAG_AUDIO, TAG_VIDEO};
use crate::models::{MediaKind, PacketView};
use crate::mux::{audio_sequence_body, clamp_offset, video_sequence_body, MuxView};
use crate::mux_laws::{audio_frames_decode, sequence_headers_decode, video_frames_decode};
use crate::rtmp::amf0::{scalar_bytes, scalars_round_trip, values_at, ValView};
use crate::rtmp::chunk::{frame, framed_messages_read_back, MessageView};
use crate::rtmp::client::{stream_command, tag_message, with_tag, with_tags};
use crate::rtmp::link::{LinkView, CID_COMMAND, MSG_AMF0_COMMAND, MSG_AUDIO, MSG_VIDEO};
use crate::rtmp::server::{ends_publish, ingested, HandlerCall, IngestView};

verus! {

/// The bytes that go out for tags published on stream `pid`, in chunks of at
/// most `chunk` bytes.
pub open spec fn published(chunk: int, pid: u32, tags: Seq<TagView>) -> Seq<u8>
    decreases tags.len(),
{
    if tags.len() == 0 {
        Seq::empty()
    } else {
        let more = published(chunk, pid, tags.drop_first());
        match tag_message(tags.first()) {
            Some((cid, mtype, payload)) => frame(
                cid,
                mtype,
                pid,
                tags.first().ts,
                payload,
                chunk,
            ) + more,
            None => more,
        }
    }
}

/// An ingest once its handler has been told of a tag: audio and video are told,
/// metadata is not.
pub open spec fn heard_of(i: IngestView, tag: TagView) -> IngestView {
    if tag.kind == MSG_VIDEO || tag.kind == MSG_AUDIO {
        i.with_media(MessageView { mtype: tag.kind, ts: tag.ts, payload: tag.body })
    } else {
        i
    }
}

/// An ingest once its handler has been told of a run of tags.
pub open spec fn heard(i: IngestView, tags: Seq<TagView>) -> IngestView
    decreases tags.len(),
{
    if tags.len() == 0 {
        i
    } else {
        heard(heard_of(i, tags.first()), tags.drop_first())
    }
}

/// The same ingest, with its connection at another point.
pub open spec fn at_link(i: IngestView, link: LinkView) -> IngestView {
    IngestView { link, ..i }
}

/// True of a tag whose message, if it makes one, can be framed: it is not
/// empty, and its length fits 24 bits.
pub open spec fn carried(tag: TagView) -> bool {
    tag_message(tag) matches Some((_, _, payload)) ==> 0 < payload.len() < 0x100_0000
}

/// Publishing tags sends their messages, in order, and nothing else.
pub proof fn published_tags_go_out(l: LinkView, pid: u32, tags: Seq<TagView>)
    ensures
        with_tags(l, pid, tags).out == l.out + published(l.chunk(), pid, tags),
    decreases tags.len(),
{
    if tags.len() == 0 {
        assert(l.out + Seq::<u8>::empty() =~= l.out);
    } else {
        let next = with_tag(l, pid, tags.first());
        let more = published(l.chunk(), pid, tags.drop_first());
        published_tags_go_out(next, pid, tags.drop_first());
        if let Some((cid, mtype, payload)) = tag_message(tags.first()) {
            let f = frame(cid, mtype, pid, tags.first().ts, payload, l.chunk());
            bytes::lemma_concat(l.out, f, more);
        }
    }
}

proof fn lemma_heard_anywhere(i: IngestView, l: LinkView, tags: Seq<TagView>)
    ensures
        heard(at_link(i, l), tags) == at_link(heard(i, tags), l),
        heard(i, tags).link == i.link,
    decreases tags.len(),
{
    if tags.len() > 0 {
        let t = tags.first();
        assert(heard_of(at_link(i, l), t) == at_link(heard_of(i, t), l));
        lemma_heard_anywhere(heard_of(i, t), l, tags.drop_first());
    }
}

/// An ingest that gets what a publisher sends for some tags tells its handler
/// of those tags, in order, and goes on with what follows. (The two agree on
/// the chunk size: the publisher announces it.)
#[verifier::rlimit(40)]
pub proof fn published_tags_are_ingested(
    i: IngestView,
    chunk: int,
    pid: u32,
    tags: Seq<TagView>,
    rest: Seq<u8>,
)
    requires
        chunk > 0,
        i.link.reader.size == chunk,
        i.link.input == published(chunk, pid, tags) + rest,
        forall|k: int| 0 <= k < tags.len() ==> carried(#[trigger] tags[k]),
    ensures
        exists|l: LinkView|
            {
                &&& l.input == rest
                &&& l.reader.size == chunk
                &&& l.ending == i.link.ending
                &&& ingested(i) == #[trigger] ingested(at_link(heard(i, tags), l))
            },
    decreases tags.len(),
{
    if tags.len() == 0 {
        assert(i.link.input =~= rest);
        assert(ingested(i) == ingested(at_link(heard(i, tags), i.link)));
    } else {
        let t = tags.first();
        let later = tags.drop_first();
        let more = published(chunk, pid, later);
        assert forall|k: int| 0 <= k < later.len() implies carried(#[trigger] later[k]) by {
            assert(later[k] == tags[k + 1]);
        }
        assert(carried(tags[0]));
        let next = match tag_message(t) {
            None => i,
            Some((cid, mtype, payload)) => {
                let f = frame(cid, mtype, pid, t.ts, payload, chunk);
                bytes::lemma_concat(f, more, rest);
                framed_messages_read_back(
                    i.link.reader.streams,
                    cid,
                    mtype,
                    pid,
                    t.ts,
                    payload,
                    chunk as nat,
                    more + rest,
                );
                let (l, m) = i.link.received()->0;
                heard_of(at_link(i, l), t)
            },
        };
        published_tags_are_ingested(next, chunk, pid, later, rest);
        let l = choose|l: LinkView|
            {
                &&& l.input == rest
                &&& l.reader.size == chunk
                &&& l.ending == next.link.ending
                &&& ingested(next) == #[trigger] ingested(at_link(heard(next, later), l))
            };
        lemma_heard_anywhere(heard_of(i, t), next.link, later);
        assert(next == at_link(heard_of(i, t), next.link));
        assert(ingested(i) == ingested(at_link(heard(i, tags), l)));
    }
}

/// The whole of a publish: an ingest that gets what a publisher sends for some
/// tags and then its goodbye tells its handler of the tags, in order, then of
/// the end, and ends cleanly. (The stream key must fit the protocol's 16-bit
/// length field.)
pub proof fn publishes_are_ingested(
    i: IngestView,
    chunk: int,
    pid: u32,
    tags: Seq<TagView>,
    key: Seq<char>,
    rest: Seq<u8>,
)
    requires
        chunk > 0,
        i.link.reader.size == chunk,
        i.link.input == published(chunk, pid, tags) + (frame(
            CID_COMMAND,
            MSG_AMF0_COMMAND,
            pid,
            0,
            stream_command("FCUnpublish"@, 4, key),
            chunk,
        ) + rest),
        forall|k: int| 0 <= k < tags.len() ==> carried(#[trigger] tags[k]),
        encode_utf8(key).len() < 0x1_0000,
    ensures
        ingested(i).0.told == heard(i, tags).told.push(HandlerCall::Finished),
        ingested(i).1 is Clean,
{
    let command = stream_command("FCUnpublish"@, 4, key);
    let goodbye = frame(CID_COMMAND, MSG_AMF0_COMMAND, pid, 0, command, chunk) + rest;
    published_tags_are_ingested(i, chunk, pid, tags, goodbye);
    let l = choose|l: LinkView|
        {
            &&& l.input == goodbye
            &&& l.reader.size == chunk
            &&& l.ending == i.link.ending
            &&& ingested(i) == #[trigger] ingested(at_link(heard(i, tags), l))
        };
    lemma_goodbye(key);
    framed_messages_read_back(
        l.reader.streams,
        CID_COMMAND,
        MSG_AMF0_COMMAND,
        pid,
        0,
        command,
        chunk as nat,
        rest,
    );
}

/// The packet that arrives for one that was muxed in state `m`: its timestamps
/// are those of the tag, its video is back in Annex-B form, and its audio is
/// without ADTS headers.
pub open spec fn arriving(m: MuxView, p: PacketView) -> PacketView {
    let ts = m.frame_tag(p).ts as int;
    match p.kind {
        MediaKind::Video => PacketView {
            dts: ts,
            pts: ts + clamp_offset(m.offset_of(p)),
            data: annex_b(annex_b_units(p.data)),
            ..p
        },
        MediaKind::Audio => PacketView {
            dts: ts,
            pts: ts,
            is_key: false,
            data: adts_payload(p.data),
            ..p
        },
    }
}

/// A handler is told of the packets that the publisher muxed: the tag of a
/// frame arrives as that frame. (A video packet without any NAL unit is no
/// frame.)
pub proof fn muxed_packets_arrive(m: MuxView, p: PacketView, i: IngestView)
    requires
        p.kind is Video ==> annex_b_units(p.data).len() > 0 && forall|k: int|
            0 <= k < annex_b_units(p.data).len() ==> (#[trigger] annex_b_units(p.data)[k]).len()
                < 0x1_0000_0000,
    ensures
        heard_of(i, m.frame_tag(p)) == i.tell(HandlerCall::Packet(arriving(m, p))),
{
    let ts = m.frame_tag(p).ts;
    match p.kind {
        MediaKind::Video => video_frames_decode(ts, p.is_key, m.offset_of(p), p.data),
        MediaKind::Audio => audio_frames_decode(ts, p.data),
    }
}

/// A handler is told of the decoder configurations that the publisher sent:
/// each together with the last of the other kind.
pub proof fn sent_configurations_arrive(ts: u32, config: Seq<u8>, i: IngestView)
    requires
        config.len() > 0,
    ensures
        heard_of(i, TagView { kind: TAG_VIDEO, ts, body: video_sequence_body(config) }) == (
        IngestView { avcc: Some(config), ..i }).tell(
            HandlerCall::Configure(Some(config), i.asc),
        ),
        heard_of(i, TagView { kind: TAG_AUDIO, ts, body: audio_sequence_body(config) }) == (
        IngestView { asc: Some(config), ..i }).tell(
            HandlerCall::Configure(i.avcc, Some(config)),
        ),
{
    sequence_headers_decode(ts, config);
}

proof fn lemma_utf8_len(s: Seq<char>)
    ensures
        encode_utf8(s).len() <= 4 * s.len(),
    decreases s.len(),
{
    if s.len() > 0 {
        lemma_utf8_len(s.drop_first());
    }
}

proof fn lemma_goodbye(key: Seq<char>)
    requires
        encode_utf8(key).len() < 0x1_0000,
    ensures
        ends_publish(values_at(stream_command("FCUnpublish"@, 4, key))),
        0 < stream_command("FCUnpublish"@, 4, key).len() < 0x100_0000,
{
    let command = stream_command("FCUnpublish"@, 4, key);
    let name = scalar_bytes(ValView::String("FCUnpublish"@));
    let rest = scalar_bytes(ValView::Number(double_of(4) as u64)) + scalar_bytes(ValView::Null)
        + scalar_bytes(ValView::String(key)) + scalar_bytes(ValView::String("live"@));
    reveal_strlit("FCUnpublish");
    reveal_strlit("live");
    assert(command =~= name + rest);
    lemma_utf8_len("FCUnpublish"@);
    lemma_utf8_len("live"@);
    scalars_round_trip(ValView::String("FCUnpublish"@), rest);
}

} // verus!
