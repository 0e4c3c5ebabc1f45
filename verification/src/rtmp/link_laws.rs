//! Laws of a connection: greetings, control messages and acknowledgements.

use vstd::prelude::*;

use crate::bytes;
use crate::bytes::{be16, be32, from_be32};
use crate::rtmp::chunk::MessageView;
use crate::rtmp::client::{greeted, is_ping_response, round_trip_of};
use crate::rtmp::handshake::{c2_echoes, c2_for, plain_block, seeded_block};
use crate::rtmp::link::LinkView;
use crate::rtmp::server::{limited, s1_seed, welcomed};

verus! {

/// The number that four bytes from `at` on make, the first the highest.
pub open spec fn word_at(d: Seq<u8>, at: int) -> int {
    d[at] * 0x100_0000 + d[at + 1] * 0x1_0000 + d[at + 2] * 0x100 + d[at + 3]
}

// ---------------------------------------------------------------------------
// Greetings
// ---------------------------------------------------------------------------

/// A greeting's block is 1536 bytes: the time, four zeros, filler.
pub proof fn blocks_are_laid_out(time: u32, seed: u64)
    ensures
        seeded_block(time, seed).len() == 1536,
        word_at(seeded_block(time, seed), 0) == time,
        word_at(seeded_block(time, seed), 4) == 0,
        plain_block(time).len() == 1536,
        word_at(plain_block(time), 0) == time,
        word_at(plain_block(time), 4) == 0,
{
    bytes::bytes_are_in_order(time as int);
}

/// True if `out` is a whole greeting behind `before`: the version, a block that
/// starts with `time`, and `echo`.
pub open spec fn greets(before: Seq<u8>, out: Seq<u8>, time: u32, echo: Seq<u8>) -> bool {
    let n = before.len() as int;
    &&& out.len() == n + 3073
    &&& out.take(n) == before
    &&& out[n] == 3
    &&& word_at(out, n + 1) == time
    &&& word_at(out, n + 5) == 0
    &&& out.skip(n + 1537) == echo
}

/// A server that is greeted in version 3 says version 3, sends a block of its own
/// time, and gives the publisher's block back byte for byte. It has then taken
/// the version and two blocks off its input.
pub proof fn publishers_are_welcomed(l: LinkView, now: u32)
    requires
        l.input.len() >= 3073,
        l.input[0] == 3,
    ensures
        welcomed(l, now) matches Ok(after) && {
            &&& greets(l.out, after.out, now, l.input.subrange(1, 1537))
            &&& after.input == l.input.skip(3073)
            &&& after.reader == l.reader
            &&& after.negotiated == l.negotiated
        },
{
    let c1 = l.input.subrange(1, 1537);
    let after = welcomed(l, now)->Ok_0;
    let n = l.out.len() as int;
    let block = seeded_block(now, s1_seed(c1, now));
    blocks_are_laid_out(now, s1_seed(c1, now));
    assert(after.out == l.out + seq![3u8] + block + c1);
    assert(after.out.take(n) =~= l.out);
    assert(after.out.skip(n + 1537) =~= c1);
    assert forall|i: int| 0 <= i < 1536 implies after.out[n + 1 + i] == block[i] by {}
}

/// A publisher says version 3, sends a block of its time, and answers the
/// server's block with one of the same length that starts as the server's does.
pub proof fn servers_are_greeted(l: LinkView, time: u32)
    requires
        l.input.len() >= 3073,
        l.input[0] == 3,
    ensures
        greeted(l, time) matches Ok(after) && {
            &&& greets(l.out, after.out, time, c2_for(l.input.subrange(1, 1537)))
            &&& after.input == l.input.skip(3073)
            &&& after.reader == l.reader
            &&& after.negotiated == l.negotiated
        },
{
    let s1 = l.input.subrange(1, 1537);
    let after = greeted(l, time)->Ok_0;
    let n = l.out.len() as int;
    let block = plain_block(time);
    c2_echoes(s1);
    blocks_are_laid_out(time, 0);
    assert(after.out == l.out + seq![3u8] + block + c2_for(s1));
    assert(after.out.take(n) =~= l.out);
    assert(after.out.skip(n + 1537) =~= c2_for(s1));
    assert forall|i: int| 0 <= i < 1536 implies after.out[n + 1 + i] == block[i] by {}
}

// ---------------------------------------------------------------------------
// Control messages
// ---------------------------------------------------------------------------

/// A ping, event 0 with a stamp, is answered at once with event 1 and the same
/// stamp; nothing else about the connection changes.
pub proof fn pings_are_answered(l: LinkView, m: MessageView)
    requires
        m.mtype == 4,
        m.payload.len() >= 6,
        m.payload[0] == 0 && m.payload[1] == 0,
    ensures
        l.controlled(m) == Some(
            l.sent(
                3,
                4,
                0,
                0,
                seq![0u8, 1u8, m.payload[2], m.payload[3], m.payload[4], m.payload[5]],
            ),
        ),
{
    bytes::bytes_are_in_order(1);
    assert(be16(1) + m.payload.subrange(2, 6) =~= seq![
        0u8,
        1u8,
        m.payload[2],
        m.payload[3],
        m.payload[4],
        m.payload[5],
    ]);
}

/// A ping comes back: what the peer of whoever sent it answers is the answer that
/// the sender waits for, and to no other ping.
pub proof fn pings_come_back(l: LinkView, m: MessageView, stamp: u32, other: u32)
    requires
        m.mtype == 4,
        m.payload == be16(0) + be32(stamp as int),
    ensures
        exists|reply: MessageView|
            l.controlled(m) == Some(l.sent(3, reply.mtype, 0, reply.ts, reply.payload))
                && #[trigger] is_ping_response(reply, stamp) && (other != stamp
                ==> !is_ping_response(reply, other)),
        !is_ping_response(m, stamp),
{
    bytes::bytes_are_in_order(0);
    bytes::bytes_are_in_order(1);
    bytes::bytes_are_in_order(stamp as int);
    let p = m.payload;
    pings_are_answered(l, m);
    let reply = MessageView {
        mtype: 4,
        ts: 0,
        payload: seq![0u8, 1u8, p[2], p[3], p[4], p[5]],
    };
    assert(reply.payload.skip(2) =~= be32(stamp as int));
    bytes::big_endian_round_trips(stamp as int);
    assert(is_ping_response(reply, stamp));
}

/// The round-trip time is what leads from the sending to the present.
pub proof fn round_trips_reach_the_present(sent_ns: u64, now_ns: u64)
    requires
        sent_ns <= now_ns,
    ensures
        sent_ns + round_trip_of(sent_ns, now_ns) == now_ns,
{
}

/// A user control message of any other event changes nothing.
pub proof fn other_events_are_passed_over(l: LinkView, m: MessageView)
    requires
        m.mtype == 4,
        m.payload.len() < 6 || m.payload[0] != 0 || m.payload[1] != 0,
    ensures
        l.controlled(m) == Some(l),
{
}

/// A chunk size that the peer announces is read by from then on, up to 2^24 - 1;
/// one of zero is refused. What is sent stays as it was.
pub proof fn chunk_sizes_are_adopted(l: LinkView, m: MessageView)
    requires
        m.mtype == 1,
        m.payload.len() >= 4,
    ensures
        word_at(m.payload, 0) == 0 <==> l.controlled(m) is None,
        l.controlled(m) matches Some(after) ==> {
            &&& word_at(m.payload, 0) < 0x100_0000 ==> after.reader.size == word_at(m.payload, 0)
            &&& word_at(m.payload, 0) >= 0x100_0000 ==> after.reader.size == 0xFF_FFFF
            &&& after.reader.streams == l.reader.streams
            &&& after.reader.count == l.reader.count
            &&& after.out == l.out
            &&& after.chunk() == l.chunk()
            &&& after.window == l.window
        },
{
}

/// The acknowledgement window is the number that the peer sends, in either of the
/// two messages that carry one.
pub proof fn windows_are_adopted(l: LinkView, m: MessageView)
    requires
        m.mtype == 5 || m.mtype == 6,
        m.payload.len() >= 4,
    ensures
        l.controlled(m) matches Some(after) && {
            &&& after.window == word_at(m.payload, 0)
            &&& after == (LinkView { window: after.window, ..l })
        },
{
    bytes::lemma_be32_back(m.payload);
}

/// An abort drops what has come of a message on the chunk stream that it names,
/// and on no other.
pub proof fn aborts_drop_one_stream(l: LinkView, m: MessageView, other: int)
    requires
        m.mtype == 2,
        m.payload.len() >= 4,
    ensures
        l.controlled(m) matches Some(after) && {
            &&& !after.reader.streams.dom().contains(word_at(m.payload, 0))
            &&& other != word_at(m.payload, 0) ==> {
                &&& after.reader.streams.dom().contains(other) <==> l.reader.streams.dom().contains(
                    other,
                )
                &&& after.reader.streams[other] == l.reader.streams[other]
            }
            &&& after.out == l.out
            &&& after.reader.size == l.reader.size
        },
{
}

/// Media, data and commands change nothing of the connection.
pub proof fn content_is_not_control(l: LinkView, m: MessageView)
    requires
        m.mtype == 0 || m.mtype == 3 || m.mtype >= 7,
    ensures
        l.controlled(m) == Some(l),
{
}

/// True if a peer that is told `payload` in a message of type `mtype` reads
/// chunks of `size`.
pub open spec fn sets_size(mtype: u8, payload: Seq<u8>, size: nat) -> bool {
    forall|peer: LinkView, m: MessageView|
        m.mtype == mtype && m.payload == payload ==> (#[trigger] peer.controlled(m) matches Some(
            after,
        ) && after.reader.size == size)
}

/// A side that announces its chunk size does so in chunks of the old size, sends
/// in chunks of 4096 from then on, and is read in chunks of 4096 by a peer that
/// has taken the announcement.
pub proof fn sizes_are_announced(l: LinkView)
    requires
        !l.negotiated,
    ensures
        exists|payload: Seq<u8>|
            l.announced().out == (#[trigger] l.sent(3, 1, 0, 0, payload)).out && sets_size(
                1,
                payload,
                4096,
            ),
        l.chunk() == 128,
        l.announced().chunk() == 4096,
        l.announced().input == l.input,
        l.announced().reader == l.reader,
{
    let payload = be32(4096);
    bytes::big_endian_round_trips(4096);
    assert(l.announced().out == l.sent(3, 1, 0, 0, payload).out);
    assert forall|peer: LinkView, m: MessageView|
        m.mtype == 1 && m.payload == payload implies #[trigger] peer.controlled(m) matches Some(
        after,
    ) && after.reader.size == 4096 by {
        assert(from_be32(payload) == 4096);
    }
}

/// A server announces a chunk size of 4096 and, twice, a window of 2,500,000
/// bytes, the second time as a dynamic limit.
pub proof fn limits_are_announced(l: LinkView)
    ensures
        exists|window: Seq<u8>, limit: Seq<u8>|
            limited(l) == #[trigger] l.announced().sent(3, 5, 0, 0, window).sent(3, 6, 0, 0, limit)
                && window.len() == 4 && word_at(window, 0) == 2_500_000 && limit.len() == 5
                && word_at(limit, 0) == 2_500_000 && limit[4] == 2,
{
    let window = be32(2_500_000);
    let limit = be32(2_500_000) + seq![2u8];
    bytes::bytes_are_in_order(2_500_000);
    assert(limited(l) == l.announced().sent(3, 5, 0, 0, window).sent(3, 6, 0, 0, limit));
}

// ---------------------------------------------------------------------------
// Acknowledgements
// ---------------------------------------------------------------------------

/// Once a message has been received, less than a window has come in since the
/// last acknowledgement. One goes out only when a full window has, and tells how
/// many bytes have come in, modulo 2^32.
pub proof fn full_windows_are_acknowledged(l: LinkView)
    ensures
        l.received() matches Some((after, m)) ==> {
            let before = (l.read()->0).0;
            let count = before.reader.count;
            let due = l.window != 0 && count - l.acked >= l.window;
            &&& m == (l.read()->0).1
            &&& after.reader == before.reader
            &&& after.input == before.input
            &&& after.window == l.window
            &&& after.window != 0 ==> after.reader.count - after.acked < after.window
            &&& !due ==> after.out == l.out && after.acked == l.acked
            &&& due ==> after.acked == count && exists|payload: Seq<u8>|
                after.out == (#[trigger] before.sent(3, 3, 0, 0, payload)).out && payload.len() == 4
                    && word_at(payload, 0) == count % 0x1_0000_0000
        },
{
    if let Some((after, m)) = l.received() {
        let before = (l.read()->0).0;
        let count = before.reader.count;
        if before.owes_ack() {
            let payload = be32(count as int);
            lemma_low(count as int);
            assert(after.out == before.sent(3, 3, 0, 0, payload).out);
        }
    }
}

/// What lies above 32 bits does not touch a byte below.
proof fn lemma_byte(q: int, y: int, d: int, up: int)
    requires
        0 <= q,
        0 <= y < 0x1_0000_0000,
        d > 0,
        d * up == 0x1_0000_0000,
        up % 0x100 == 0,
    ensures
        (q * 0x1_0000_0000 + y) / d % 0x100 == y / d % 0x100,
{
    assert(q * 0x1_0000_0000 == (q * up) * d) by (nonlinear_arith)
        requires
            d * up == 0x1_0000_0000,
    ;
    vstd::arithmetic::div_mod::lemma_hoist_over_denominator(y, q * up, d as nat);
    let k = up / 0x100;
    assert(q * up == 0x100 * (q * k)) by (nonlinear_arith)
        requires
            up == 0x100 * k,
    ;
    vstd::arithmetic::div_mod::lemma_mod_multiples_vanish(q * k, y / d, 0x100);
}

/// The four bytes of a number are those of its remainder.
proof fn lemma_low(x: int)
    requires
        0 <= x,
    ensures
        be32(x).len() == 4,
        word_at(be32(x), 0) == x % 0x1_0000_0000,
{
    let y = x % 0x1_0000_0000;
    let q = x / 0x1_0000_0000;
    bytes::bytes_are_in_order(y);
    lemma_byte(q, y, 0x100_0000, 0x100);
    lemma_byte(q, y, 0x1_0000, 0x1_0000);
    lemma_byte(q, y, 0x100, 0x100_0000);
    lemma_byte(q, y, 1, 0x1_0000_0000);
    assert(be32(x) =~= be32(y));
}

} // verus!
