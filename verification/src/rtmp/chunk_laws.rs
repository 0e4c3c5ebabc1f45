//! Laws of the chunk streams: chunks of different streams may be interleaved in
//! any way, and an abort concerns one stream only.

use vstd::prelude::*;

use crate::bytes;
use crate::bytes::{be24, be32, from_le32, le32};
use crate::rtmp::chunk::{
    basic_header, chunk_at, chunks, header_at, header_len, idle_stream, next_message, stream_of,
    with_header, ChunkView, HeaderView, MessageView, ReadView, StreamView,
};

verus! {

/// Every complete message in `input`, with its chunk stream.
pub open spec fn delivered(
    streams: Map<int, StreamView>,
    size: nat,
    input: Seq<u8>,
) -> Seq<(int, MessageView)>
    decreases input.len(),
{
    match chunk_at(streams, size, input) {
        ChunkView::Short => Seq::empty(),
        ChunkView::Partial(next, n) => if 0 < n <= input.len() {
            delivered(next, size, input.skip(n))
        } else {
            Seq::empty()
        },
        ChunkView::Complete(next, n, m) => if 0 < n <= input.len() {
            seq![((header_at(input)->0).cid, m)] + delivered(next, size, input.skip(n))
        } else {
            Seq::empty()
        },
    }
}

/// The messages of one chunk stream.
pub open spec fn on(messages: Seq<(int, MessageView)>, cid: int) -> Seq<(int, MessageView)>
    decreases messages.len(),
{
    if messages.len() == 0 {
        messages
    } else if messages.first().0 == cid {
        seq![messages.first()] + on(messages.drop_first(), cid)
    } else {
        on(messages.drop_first(), cid)
    }
}

/// The bytes of the chunks in `input` that are on chunk stream `cid`.
pub open spec fn sifted(
    streams: Map<int, StreamView>,
    size: nat,
    input: Seq<u8>,
    cid: int,
) -> Seq<u8>
    decreases input.len(),
{
    match chunk_at(streams, size, input) {
        ChunkView::Short => Seq::empty(),
        ChunkView::Partial(next, n) => if 0 < n <= input.len() {
            let rest = sifted(next, size, input.skip(n), cid);
            if (header_at(input)->0).cid == cid {
                input.take(n) + rest
            } else {
                rest
            }
        } else {
            Seq::empty()
        },
        ChunkView::Complete(next, n, _) => if 0 < n <= input.len() {
            let rest = sifted(next, size, input.skip(n), cid);
            if (header_at(input)->0).cid == cid {
                input.take(n) + rest
            } else {
                rest
            }
        } else {
            Seq::empty()
        },
    }
}

/// The format of the first chunk in `input` that is on chunk stream `cid`; 0 if
/// there is none.
pub open spec fn first_format(
    streams: Map<int, StreamView>,
    size: nat,
    input: Seq<u8>,
    cid: int,
) -> int
    decreases input.len(),
{
    match header_at(input) {
        None => 0,
        Some(h) => if h.cid == cid {
            h.format
        } else {
            match chunk_at(streams, size, input) {
                ChunkView::Short => 0,
                ChunkView::Partial(next, n) => if 0 < n <= input.len() {
                    first_format(next, size, input.skip(n), cid)
                } else {
                    0
                },
                ChunkView::Complete(next, n, _) => if 0 < n <= input.len() {
                    first_format(next, size, input.skip(n), cid)
                } else {
                    0
                },
            }
        },
    }
}

/// True if two runs of messages agree but for the times of those on `cid`.
pub open spec fn agree_but_for_times(
    a: Seq<(int, MessageView)>,
    b: Seq<(int, MessageView)>,
    cid: int,
) -> bool {
    &&& a.len() == b.len()
    &&& forall|i: int|
        0 <= i < a.len() ==> {
            &&& (#[trigger] a[i]).0 == b[i].0
            &&& a[i].0 != cid ==> a[i].1 == b[i].1
            &&& a[i].1.mtype == b[i].1.mtype
            &&& a[i].1.payload == b[i].1.payload
        }
}

/// The messages of an input come one by one, each by a read.
pub proof fn messages_come_one_by_one(streams: Map<int, StreamView>, size: nat, input: Seq<u8>)
    ensures
        match next_message(streams, size, input) {
            ReadView::Ended => delivered(streams, size, input).len() == 0,
            ReadView::Got(next, rest, m) => {
                let all = delivered(streams, size, input);
                &&& all.len() > 0
                &&& all.first().1 == m
                &&& all.drop_first() == delivered(next, size, rest)
            },
        },
    decreases input.len(),
{
    match chunk_at(streams, size, input) {
        ChunkView::Short => {},
        ChunkView::Partial(next, n) => {
            if 0 < n <= input.len() {
                messages_come_one_by_one(next, size, input.skip(n));
            }
        },
        ChunkView::Complete(next, n, m) => {
            crate::rtmp::chunk::lemma_chunk_len(streams, size, input);
            let rest = delivered(next, size, input.skip(n));
            let all = seq![((header_at(input)->0).cid, m)] + rest;
            assert(all.drop_first() =~= rest);
        },
    }
}

proof fn lemma_header_local(a: Seq<u8>, b: Seq<u8>, n: int)
    requires
        header_at(a) matches Some(h) && h.len <= n <= a.len(),
        n <= b.len(),
        forall|i: int| 0 <= i < n ==> a[i] == b[i],
    ensures
        header_at(b) == header_at(a),
{
    let h = header_at(a)->0;
    let (format, cid, at) = crate::rtmp::chunk::basic_header(a)->0;
    assert(crate::rtmp::chunk::basic_header(b) == Some((format, cid, at)));
    let x = a.skip(at);
    let y = b.skip(at);
    let len = at + crate::rtmp::chunk::header_len(format);
    assert forall|i: int| 0 <= i < len - at implies x[i] == y[i] by {}
    assert(format < 2 ==> forall|i: int| 0 <= i < 3 ==> x.skip(3)[i] == y.skip(3)[i]);
    assert(format < 1 ==> forall|i: int| 0 <= i < 4 ==> x.skip(7)[i] == y.skip(7)[i]);
    if h.len > len {
        assert forall|i: int| 0 <= i < 4 implies a.skip(len)[i] == b.skip(len)[i] by {}
    }
}

/// What a chunk makes of its own stream, the bytes it takes, and the message it
/// completes.
spec fn effect(streams: Map<int, StreamView>, size: nat, input: Seq<u8>) -> Option<
    (StreamView, int, Option<MessageView>),
> {
    let cid = (header_at(input)->0).cid;
    match chunk_at(streams, size, input) {
        ChunkView::Short => None,
        ChunkView::Partial(next, n) => Some((next[cid], n, None)),
        ChunkView::Complete(next, n, m) => Some((next[cid], n, Some(m))),
    }
}

proof fn lemma_effect(streams: Map<int, StreamView>, size: nat, input: Seq<u8>)
    ensures
        effect(streams, size, input) is None <==> chunk_at(streams, size, input) is Short,
        effect(streams, size, input) matches Some((st, n, m)) ==> {
            let h = header_at(input)->0;
            &&& header_at(input) is Some
            &&& 0 < n <= input.len()
            &&& h.len <= n
            &&& chunk_at(streams, size, input) == match m {
                None => ChunkView::Partial(streams.insert(h.cid, st), n),
                Some(msg) => ChunkView::Complete(streams.insert(h.cid, st), n, msg),
            }
        },
{
}

/// A chunk does the same to a stream whatever the other streams are doing and
/// whatever follows it.
proof fn lemma_chunk_local(
    streams: Map<int, StreamView>,
    other: Map<int, StreamView>,
    size: nat,
    a: Seq<u8>,
    b: Seq<u8>,
)
    requires
        effect(streams, size, a) matches Some((_, n, _)) && n <= b.len() && forall|i: int|
            0 <= i < n ==> a[i] == b[i],
        stream_of(streams, (header_at(a)->0).cid) == stream_of(other, (header_at(a)->0).cid),
    ensures
        effect(other, size, b) == effect(streams, size, a),
        header_at(b) == header_at(a),
{
    lemma_effect(streams, size, a);
    let (st, n, m) = effect(streams, size, a)->0;
    lemma_header_local(a, b, n);
    let h = header_at(a)->0;
    let before = with_header(stream_of(streams, h.cid), h);
    let take = crate::rtmp::chunk::part_len(before, size);
    if before.payload.len() < before.length {
        assert(a.subrange(h.len, h.len + take) =~= b.subrange(h.len, h.len + take));
    }
}

/// Interleaving does not show: the messages of a chunk stream are those that
/// its own chunks give by themselves, to a reader in which that stream is where
/// it is in this one.
pub proof fn streams_are_read_apart(
    streams: Map<int, StreamView>,
    other: Map<int, StreamView>,
    size: nat,
    input: Seq<u8>,
    cid: int,
)
    requires
        stream_of(streams, cid) == stream_of(other, cid),
    ensures
        on(delivered(streams, size, input), cid) == delivered(
            other,
            size,
            sifted(streams, size, input, cid),
        ),
    decreases input.len(),
{
    lemma_effect(streams, size, input);
    match effect(streams, size, input) {
        None => {
            assert(header_at(Seq::empty()) is None);
            assert(chunk_at(other, size, Seq::empty()) is Short);
        },
        Some((st, n, m)) => {
            let h = header_at(input)->0;
            let next = streams.insert(h.cid, st);
            let rest = input.skip(n);
            let all = delivered(streams, size, input);
            let tail = delivered(next, size, rest);
            if let Some(msg) = m {
                assert(all.first() == (h.cid, msg));
                assert(all.drop_first() =~= tail);
            }
            if h.cid == cid {
                let bytes = sifted(next, size, rest, cid);
                let mine = input.take(n) + bytes;
                assert(sifted(streams, size, input, cid) == mine);
                lemma_chunk_local(streams, other, size, input, mine);
                lemma_effect(other, size, mine);
                let after = other.insert(cid, st);
                assert(mine.skip(n) =~= bytes);
                assert(stream_of(next, cid) == stream_of(after, cid));
                streams_are_read_apart(next, after, size, rest, cid);
            } else {
                assert(stream_of(next, cid) == stream_of(streams, cid));
                streams_are_read_apart(next, other, size, rest, cid);
            }
        },
    }
}

/// Behind an abort a chunk stream starts afresh: its messages are those that a
/// reader which has read nothing makes of its chunks, however they are
/// interleaved with others. Nothing of the message that was aborted is in them.
pub proof fn aborted_streams_start_afresh(
    streams: Map<int, StreamView>,
    size: nat,
    input: Seq<u8>,
    cid: int,
)
    ensures
        on(delivered(streams.remove(cid), size, input), cid) == delivered(
            Map::empty(),
            size,
            sifted(streams.remove(cid), size, input, cid),
        ),
{
    assert(stream_of(streams.remove(cid), cid) == idle_stream());
    assert(stream_of(Map::empty(), cid) == idle_stream());
    streams_are_read_apart(streams.remove(cid), Map::empty(), size, input, cid);
}

/// Two states of a stream that take the same bytes from here on.
spec fn in_step(a: StreamView, b: StreamView) -> bool {
    a.length == b.length && a.mtype == b.mtype && a.payload == b.payload
}

proof fn lemma_in_step(
    a: Map<int, StreamView>,
    b: Map<int, StreamView>,
    size: nat,
    input: Seq<u8>,
    cid: int,
)
    requires
        a.remove(cid) == b.remove(cid),
        in_step(stream_of(a, cid), stream_of(b, cid)),
    ensures
        agree_but_for_times(delivered(a, size, input), delivered(b, size, input), cid),
    decreases input.len(),
{
    lemma_effect(a, size, input);
    lemma_effect(b, size, input);
    if let Some(h) = header_at(input) {
        if h.cid != cid {
            lemma_same_elsewhere(a, b, h.cid, cid);
        }
        match (effect(a, size, input), effect(b, size, input)) {
            (Some((s, n, x)), Some((t, k, y))) => {
                assert(n == k);
                lemma_inserted(a, b, s, t, h.cid, cid);
                lemma_in_step(a.insert(h.cid, s), b.insert(h.cid, t), size, input.skip(n), cid);
                let p = delivered(a.insert(h.cid, s), size, input.skip(n));
                let q = delivered(b.insert(h.cid, t), size, input.skip(n));
                if let (Some(u), Some(v)) = (x, y) {
                    lemma_agree_in_front(p, q, cid, (h.cid, u), (h.cid, v));
                }
            },
            _ => {},
        }
    }
}

proof fn lemma_same_elsewhere(
    a: Map<int, StreamView>,
    b: Map<int, StreamView>,
    c: int,
    cid: int,
)
    requires
        a.remove(cid) == b.remove(cid),
        c != cid,
    ensures
        stream_of(a, c) == stream_of(b, c),
{
    assert(a.remove(cid).dom().contains(c) == a.dom().contains(c));
    assert(b.remove(cid).dom().contains(c) == b.dom().contains(c));
    if a.dom().contains(c) {
        assert(a.remove(cid)[c] == a[c]);
        assert(b.remove(cid)[c] == b[c]);
    }
}

proof fn lemma_inserted(
    a: Map<int, StreamView>,
    b: Map<int, StreamView>,
    s: StreamView,
    t: StreamView,
    c: int,
    cid: int,
)
    requires
        a.remove(cid) == b.remove(cid),
        c != cid ==> s == t,
    ensures
        a.insert(c, s).remove(cid) == b.insert(c, t).remove(cid),
{
    if c == cid {
        assert(a.insert(c, s).remove(cid) =~= a.remove(cid));
        assert(b.insert(c, t).remove(cid) =~= b.remove(cid));
    } else {
        assert(a.insert(c, s).remove(cid) =~= a.remove(cid).insert(c, s));
        assert(b.insert(c, t).remove(cid) =~= b.remove(cid).insert(c, t));
    }
}

proof fn lemma_agree_in_front(
    p: Seq<(int, MessageView)>,
    q: Seq<(int, MessageView)>,
    cid: int,
    u: (int, MessageView),
    v: (int, MessageView),
)
    requires
        agree_but_for_times(p, q, cid),
        agree_but_for_times(seq![u], seq![v], cid),
    ensures
        agree_but_for_times(seq![u] + p, seq![v] + q, cid),
{
    let a = seq![u] + p;
    let b = seq![v] + q;
    assert(seq![u][0] == u && seq![v][0] == v);
    assert forall|i: int| 0 <= i < a.len() implies {
        &&& (#[trigger] a[i]).0 == b[i].0
        &&& a[i].0 != cid ==> a[i].1 == b[i].1
        &&& a[i].1.mtype == b[i].1.mtype
        &&& a[i].1.payload == b[i].1.payload
    } by {
        if i > 0 {
            assert(a[i] == p[i - 1] && b[i] == q[i - 1]);
        }
    }
}

proof fn lemma_reopened(
    a: Map<int, StreamView>,
    b: Map<int, StreamView>,
    size: nat,
    input: Seq<u8>,
    cid: int,
)
    requires
        a.remove(cid) == b.remove(cid),
        first_format(a, size, input, cid) <= 1,
    ensures
        agree_but_for_times(delivered(a, size, input), delivered(b, size, input), cid),
        first_format(a, size, input, cid) == 0 ==> delivered(a, size, input) == delivered(
            b,
            size,
            input,
        ),
    decreases input.len(),
{
    lemma_effect(a, size, input);
    lemma_effect(b, size, input);
    if let Some(h) = header_at(input) {
        if h.cid != cid {
            lemma_same_elsewhere(a, b, h.cid, cid);
        }
        match (effect(a, size, input), effect(b, size, input)) {
            (Some((s, n, x)), Some((t, k, y))) => {
                assert(n == k);
                lemma_inserted(a, b, s, t, h.cid, cid);
                let after = a.insert(h.cid, s);
                let beside = b.insert(h.cid, t);
                let rest = input.skip(n);
                if h.cid != cid {
                    lemma_reopened(after, beside, size, rest, cid);
                } else {
                    lemma_in_step(after, beside, size, rest, cid);
                    if h.format == 0 {
                        assert(s == t);
                        assert(after =~= a.remove(cid).insert(cid, s));
                        assert(beside =~= b.remove(cid).insert(cid, t));
                    }
                }
                if let (Some(u), Some(v)) = (x, y) {
                    lemma_agree_in_front(
                        delivered(after, size, rest),
                        delivered(beside, size, rest),
                        cid,
                        (h.cid, u),
                        (h.cid, v),
                    );
                }
            },
            _ => {},
        }
    }
}

/// An abort leaves the other streams alone, however the chunks are interleaved:
/// every message on them, the rest of one that had begun among them, comes as if
/// nothing had been aborted. A message on the aborted stream that says all of
/// itself (format 0) comes so too; one that counts its time on (format 1) does
/// but for its time. (A chunk that goes on with the aborted message has no length
/// any more, and what it carries is taken for further chunks.)
pub proof fn aborts_leave_other_streams_alone(
    streams: Map<int, StreamView>,
    size: nat,
    input: Seq<u8>,
    cid: int,
)
    requires
        first_format(streams, size, input, cid) <= 1,
    ensures
        agree_but_for_times(
            delivered(streams, size, input),
            delivered(streams.remove(cid), size, input),
            cid,
        ),
        first_format(streams, size, input, cid) == 0 ==> delivered(streams, size, input)
            == delivered(streams.remove(cid), size, input),
{
    assert(streams.remove(cid) =~= streams.remove(cid).remove(cid));
    lemma_reopened(streams, streams.remove(cid), size, input, cid);
}

/// To abort a stream that has no state changes nothing.
pub proof fn aborting_an_idle_stream_changes_nothing(streams: Map<int, StreamView>, cid: int)
    requires
        !streams.contains_key(cid),
    ensures
        streams.remove(cid) == streams,
{
    assert(streams.remove(cid) =~= streams);
}

// ---------------------------------------------------------------------------
// Time
// ---------------------------------------------------------------------------

/// The headers that a sender puts in front of a message. Format 0 has the time
/// in the time field, formats 1 and 2 the time since the message before; formats
/// 0 and 1 have the length and the type, and format 0 the stream id. Format 3
/// has none of these. A time that does not fit 24 bits stands behind them.
pub open spec fn opening_head(
    format: int,
    cid: u8,
    field: int,
    length: int,
    mtype: u8,
    stream_id: int,
) -> Seq<u8> {
    seq![(64 * format + cid) as u8] + ((if format < 3 {
        be24(
            if field < 0xFF_FFFF {
                field
            } else {
                0xFF_FFFF
            },
        )
    } else {
        Seq::empty()
    }) + ((if format < 2 {
        be24(length) + seq![mtype]
    } else {
        Seq::empty()
    }) + ((if format < 1 {
        le32(stream_id)
    } else {
        Seq::empty()
    }) + (if format < 3 && field >= 0xFF_FFFF {
        be32(field)
    } else {
        Seq::empty()
    }))))
}

#[verifier::rlimit(40)]
proof fn lemma_opening_head(
    format: int,
    cid: u8,
    field: int,
    length: int,
    mtype: u8,
    stream_id: int,
    rest: Seq<u8>,
)
    requires
        0 <= format <= 3,
        2 <= cid < 64,
        0 <= field < 0x1_0000_0000,
        0 <= length < 0x100_0000,
        0 <= stream_id < 0x1_0000_0000,
    ensures
        ({
            let head = opening_head(format, cid, field, length, mtype, stream_id);
            header_at(head + rest) matches Some(h) && {
                &&& h.format == format
                &&& h.cid == cid
                &&& h.len == head.len()
                &&& format < 3 ==> h.time == field
                &&& format < 2 ==> h.length == length && h.mtype == mtype
                &&& format < 1 ==> h.stream_id == stream_id
            }
        }),
        opening_head(format, cid, field, length, mtype, stream_id).len() > 0,
{
    let head = opening_head(format, cid, field, length, mtype, stream_id);
    let input = head + rest;
    let short = if field < 0xFF_FFFF {
        field
    } else {
        0xFF_FFFF
    };
    let none = Seq::<u8>::empty();
    let ext = if format < 3 && field >= 0xFF_FFFF {
        be32(field)
    } else {
        none
    };
    let id = if format < 1 {
        le32(stream_id)
    } else {
        none
    };
    let what = if format < 2 {
        be24(length) + seq![mtype]
    } else {
        none
    };
    let time = if format < 3 {
        be24(short)
    } else {
        none
    };
    let d3 = ext + rest;
    let d2 = id + d3;
    let d1 = what + d2;
    let d0 = time + d1;
    let first = (64 * format + cid) as u8;
    assert(input =~= seq![first] + d0);
    assert(input[0] == first);
    assert(first as int / 64 == format && first as int % 64 == cid);
    assert(basic_header(input) == Some((format, cid as int, 1int)));
    assert(input.skip(1) =~= d0);
    let h = 1 + header_len(format);
    if format < 3 {
        bytes::lemma_front_be24(short, d1);
        assert(d0.skip(3) =~= d1);
    }
    if format < 2 {
        assert(d1 =~= be24(length) + (seq![mtype] + d2));
        bytes::lemma_front_be24(length, seq![mtype] + d2);
        assert(d0[6] == d1[3]);
        assert(d1[3] == mtype);
    }
    if format < 1 {
        assert(d0.skip(7) =~= d2);
        bytes::big_endian_round_trips(stream_id);
        assert(from_le32(d2) == from_le32(le32(stream_id)));
    }
    assert(input.skip(h) =~= d3);
    if format < 3 && field >= 0xFF_FFFF {
        bytes::lemma_front_be32(field, rest);
    }
}

/// The time of the message that a header begins, on a stream whose last message
/// was at `t`: an absolute one in format 0; in formats 1 and 2 that of the last
/// message and the difference, modulo 2^32; in format 3 that of the last message.
#[verifier::rlimit(40)]
pub proof fn headers_tell_the_time(
    streams: Map<int, StreamView>,
    size: nat,
    format: int,
    cid: u8,
    field: int,
    mtype: u8,
    stream_id: u32,
    payload: Seq<u8>,
    rest: Seq<u8>,
)
    requires
        0 <= format <= 3,
        2 <= cid < 64,
        size > 0,
        0 <= field < 0x1_0000_0000,
        0 < payload.len() < 0x100_0000,
        format >= 2 ==> stream_of(streams, cid as int).length == payload.len() && stream_of(
            streams,
            cid as int,
        ).mtype == mtype,
        format == 3 ==> stream_of(streams, cid as int).payload.len() == 0,
    ensures
        ({
            let t = stream_of(streams, cid as int).ts as int;
            let input = opening_head(
                format,
                cid,
                field,
                payload.len() as int,
                mtype,
                stream_id as int,
            ) + (chunks(cid, payload, size as int) + rest);
            next_message(streams, size, input) matches ReadView::Got(next, left, m) && {
                &&& left == rest
                &&& m.mtype == mtype
                &&& m.payload == payload
                &&& format == 0 ==> m.ts == field
                &&& format == 1 || format == 2 ==> (m.ts == t + field || m.ts == t + field
                    - 0x1_0000_0000)
                &&& format == 3 ==> m.ts == t
                &&& next.remove(cid as int) == streams.remove(cid as int)
                &&& next.dom().contains(cid as int)
                &&& next[cid as int].ts == m.ts
                &&& next[cid as int].mtype == mtype
                &&& next[cid as int].length == payload.len()
                &&& next[cid as int].payload.len() == 0
            }
        }),
{
    let len = payload.len() as int;
    let head = opening_head(format, cid, field, len, mtype, stream_id as int);
    let body = chunks(cid, payload, size as int);
    let input = head + (body + rest);
    let k = cid as int;
    lemma_opening_head(format, cid, field, len, mtype, stream_id as int, body + rest);
    let h = header_at(input)->0;
    let old = stream_of(streams, k);
    let st = with_header(old, h);
    let t = old.ts as int;
    if format == 1 || format == 2 {
        assert((t + field) % 0x1_0000_0000 == if t + field < 0x1_0000_0000 {
            t + field
        } else {
            t + field - 0x1_0000_0000
        });
    }
    lemma_body(streams, size, head, cid, h, st, payload, rest);
    let done = StreamView { payload: Seq::empty(), ..st };
    assert(streams.insert(k, done).remove(k) =~= streams.remove(k));
}

/// What follows a header that begins a message, read to its end.
#[verifier::rlimit(60)]
proof fn lemma_body(
    streams: Map<int, StreamView>,
    size: nat,
    head: Seq<u8>,
    cid: u8,
    h: HeaderView,
    st: StreamView,
    payload: Seq<u8>,
    rest: Seq<u8>,
)
    requires
        2 <= cid < 64,
        size > 0,
        0 < payload.len() < 0x100_0000,
        header_at(head + (chunks(cid, payload, size as int) + rest)) == Some(h),
        h.len == head.len(),
        h.cid == cid,
        st == with_header(stream_of(streams, cid as int), h),
        st.length == payload.len(),
        st.payload.len() == 0,
    ensures
        next_message(streams, size, head + (chunks(cid, payload, size as int) + rest))
            == ReadView::Got(
            streams.insert(cid as int, StreamView { payload: Seq::empty(), ..st }),
            rest,
            MessageView { mtype: st.mtype, ts: st.ts, payload },
        ),
{
    let len = payload.len() as int;
    let input = head + (chunks(cid, payload, size as int) + rest);
    let at = head.len() as int;
    let k = cid as int;
    let done = StreamView { payload: Seq::empty(), ..st };
    assert(st.payload =~= Seq::empty());
    if payload.len() <= size {
        assert(input.subrange(at, at + len) =~= payload);
        assert(st.payload + payload =~= payload);
        assert(input.skip(at + len) =~= rest);
        assert(chunk_at(streams, size, input) == ChunkView::Complete(
            streams.insert(k, done),
            at + len,
            MessageView { mtype: st.mtype, ts: st.ts, payload },
        ));
    } else {
        let piece = payload.take(size as int);
        let more = payload.skip(size as int);
        assert(input.subrange(at, at + size) =~= piece);
        assert(st.payload + piece =~= piece);
        let next = streams.insert(k, StreamView { payload: piece, ..st });
        assert(chunk_at(streams, size, input) == ChunkView::Partial(next, at + size));
        assert(input.skip(at + size) =~= (seq![0xC0u8 | cid] + chunks(cid, more, size as int))
            + rest);
        crate::rtmp::chunk::lemma_continue(next, cid, more, size, rest);
        assert(piece + more =~= payload);
        assert(next.insert(k, done) =~= streams.insert(k, done));
    }
}

/// The number of a chunk stream is read from one byte up to 63, from two up to
/// 319, and from three, the lower one first, up to 65599; the format stands in
/// the top two bits of the first.
pub proof fn stream_numbers_are_read(format: int, cid: int, rest: Seq<u8>)
    requires
        0 <= format < 4,
        2 <= cid < 65600,
    ensures
        cid < 64 ==> basic_header(seq![(64 * format + cid) as u8] + rest) == Some(
            (format, cid, 1int),
        ),
        64 <= cid < 320 ==> basic_header(
            seq![(64 * format) as u8, (cid - 64) as u8] + rest,
        ) == Some((format, cid, 2int)),
        64 <= cid ==> basic_header(
            seq![
                (64 * format + 1) as u8,
                ((cid - 64) % 256) as u8,
                ((cid - 64) / 256) as u8,
            ] + rest,
        ) == Some((format, cid, 3int)),
{
}

/// One message of a sender, and the format it is begun with.
pub struct Opened {
    /// Chunk format, 0 to 3.
    pub format: int,
    /// The message, with its absolute time.
    pub message: MessageView,
    /// The message stream, which format 0 names.
    pub stream_id: u32,
}

/// The bytes of a run of messages on chunk stream `cid`, behind `before`.
pub open spec fn opened_run(
    cid: u8,
    size: nat,
    before: MessageView,
    run: Seq<Opened>,
) -> Seq<u8>
    decreases run.len(),
{
    if run.len() == 0 {
        Seq::empty()
    } else {
        let m = run.first().message;
        let gap = m.ts - before.ts;
        opening_head(
            run.first().format,
            cid,
            if run.first().format == 0 {
                m.ts as int
            } else if gap >= 0 {
                gap
            } else {
                gap + 0x1_0000_0000
            },
            m.payload.len() as int,
            m.mtype,
            run.first().stream_id as int,
        ) + (chunks(cid, m.payload, size as int) + opened_run(cid, size, m, run.drop_first()))
    }
}

/// True if every message of a run, behind `before`, can be begun with its format:
/// format 2 needs the type and the length of the message before it, and format 3
/// its time too.
pub open spec fn openable(before: MessageView, run: Seq<Opened>) -> bool
    decreases run.len(),
{
    run.len() > 0 ==> {
        let o = run.first();
        let m = o.message;
        &&& 0 <= o.format <= 3
        &&& 0 < m.payload.len() < 0x100_0000
        &&& o.format >= 2 ==> m.mtype == before.mtype && m.payload.len() == before.payload.len()
        &&& o.format == 3 ==> m.ts == before.ts
        &&& openable(m, run.drop_first())
    }
}

/// A run of messages reads back with the absolute times that were sent, however
/// each of them is begun: with its time, with the difference to the one before
/// (over the turn of the 32-bit clock too), or with none.
#[verifier::rlimit(40)]
pub proof fn sent_times_read_back(
    streams: Map<int, StreamView>,
    size: nat,
    cid: u8,
    before: MessageView,
    run: Seq<Opened>,
)
    requires
        2 <= cid < 64,
        size > 0,
        openable(before, run),
        stream_of(streams, cid as int).ts == before.ts,
        stream_of(streams, cid as int).mtype == before.mtype,
        stream_of(streams, cid as int).length == before.payload.len(),
        stream_of(streams, cid as int).payload.len() == 0,
    ensures
        ({
            let all = delivered(streams, size, opened_run(cid, size, before, run));
            &&& all.len() == run.len()
            &&& forall|i: int| 0 <= i < run.len() ==> #[trigger] all[i].1 == run[i].message
        }),
    decreases run.len(),
{
    let input = opened_run(cid, size, before, run);
    let all = delivered(streams, size, input);
    messages_come_one_by_one(streams, size, input);
    if run.len() > 0 {
        let o = run.first();
        let m = o.message;
        let rest = run.drop_first();
        let gap = m.ts - before.ts;
        let field = if o.format == 0 {
            m.ts as int
        } else if gap >= 0 {
            gap
        } else {
            gap + 0x1_0000_0000
        };
        headers_tell_the_time(
            streams,
            size,
            o.format,
            cid,
            field,
            m.mtype,
            o.stream_id,
            m.payload,
            opened_run(cid, size, m, rest),
        );
        if let ReadView::Got(next, left, got) = next_message(streams, size, input) {
            assert(got =~= m);
            sent_times_read_back(next, size, cid, m, rest);
            let later = delivered(next, size, left);
            assert(all.drop_first() == later);
            assert forall|i: int| 0 <= i < run.len() implies #[trigger] all[i].1
                == run[i].message by {
                if i > 0 {
                    assert(all[i] == later[i - 1]);
                    assert(later[i - 1].1 == rest[i - 1].message);
                }
            }
        }
    } else {
        assert(header_at(Seq::empty()) is None);
        assert(chunk_at(streams, size, Seq::empty()) is Short);
    }
}

} // verus!
