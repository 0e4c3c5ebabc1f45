//! Laws of the dialogue as a whole: a publisher that is answered publishes, and a
//! server that is asked accepts.

use vstd::prelude::*;
use vstd::string::*;

use crate::bytes;
use crate::bytes::be32;
use crate::doubles::double_of;
use crate::rtmp::amf0::{values_at, ValView};
use crate::rtmp::chunk::{frame, framed_messages_read_back, MessageView};
use crate::rtmp::client::{
    after_greeting, awaited, connect_command, create_stream_command, granted_stream,
    publish_status, stream_command, Publish, Reply,
};
use crate::rtmp::command::{command_name, info_text, transaction};
use crate::rtmp::command_laws::{
    answers, carriable, connects_are_understood, plain_commands_are_understood,
    stream_commands_are_understood,
};
use crate::rtmp::link::{next_command, CommandView, LinkView};
use crate::rtmp::server::{
    answered, asked_app, command_step, commanded, connect_result, create_stream_result,
    publish_key, publish_started, Answer, Negotiation, Step,
};

verus! {

/// A command as one side sends it.
#[verifier::opaque]
pub open spec fn said(sid: u32, payload: Seq<u8>, chunk: nat) -> Seq<u8> {
    frame(3, 20, sid, 0, payload, chunk as int)
}

/// The announcement of a chunk size of 4096, in chunks of 128 bytes.
#[verifier::opaque]
pub open spec fn sized() -> Seq<u8> {
    frame(3, 1, 0, 0, be32(4096), 128)
}

/// True if `after` is `before` once these bytes have been sent.
pub open spec fn wrote(before: LinkView, after: LinkView, bytes: Seq<u8>) -> bool {
    &&& after.out == before.out + bytes
    &&& after.input == before.input
    &&& after.reader == before.reader
    &&& after.window == before.window
}

proof fn lemma_sent(l: LinkView, sid: u32, payload: Seq<u8>)
    ensures
        wrote(l, l.sent(3, 20, sid, 0, payload), said(sid, payload, l.chunk() as nat)),
        l.sent(3, 20, sid, 0, payload).negotiated == l.negotiated,
{
    reveal(said);
}

proof fn lemma_announced(l: LinkView)
    requires
        !l.negotiated,
    ensures
        wrote(l, l.announced(), sized()),
        l.announced().negotiated,
{
    reveal(sized);
}

proof fn lemma_regrouped(a: Seq<u8>, b: Seq<u8>, c: Seq<u8>, d: Seq<u8>, e: Seq<u8>)
    ensures
        a + b + c + d + e == a + (b + (c + (d + e))),
        a + b + c + d + e == a + (b + c + d + e),
{
    assert(a + b + c + d + e =~= a + (b + (c + (d + e))));
    assert(a + b + c + d + e =~= a + (b + c + d + e));
}

/// True of a payload that is a command with a name.
pub open spec fn is_command(payload: Seq<u8>) -> bool {
    &&& 0 < payload.len() < 0x100_0000
    &&& values_at(payload).len() > 0
    &&& values_at(payload)[0] is String
}

/// True if `after` is `before` once the input up to `rest` has been read, on a
/// connection without an acknowledgement window: nothing was sent.
pub open spec fn read_on(before: LinkView, after: LinkView, rest: Seq<u8>) -> bool {
    &&& after.input == rest
    &&& after.reader.size == before.reader.size
    &&& after.out == before.out
    &&& after.negotiated == before.negotiated
    &&& after.window == 0
}

proof fn lemma_message_arrives(
    l: LinkView,
    mtype: u8,
    sid: u32,
    payload: Seq<u8>,
    rest: Seq<u8>,
)
    requires
        l.window == 0,
        l.reader.size > 0,
        0 < payload.len() < 0x100_0000,
        l.input == frame(3, mtype, sid, 0, payload, l.reader.size as int) + rest,
    ensures
        l.received() matches Some((after, m)) && read_on(l, after, rest) && m == (MessageView {
            mtype,
            ts: 0,
            payload,
        }) && after.input.len() < l.input.len(),
{
    framed_messages_read_back(
        l.reader.streams,
        3,
        mtype,
        sid,
        0,
        payload,
        l.reader.size,
        rest,
    );
    crate::rtmp::link::lemma_received_shrinks(l);
}

proof fn lemma_command_arrives(
    l: LinkView,
    sid: u32,
    payload: Seq<u8>,
    rest: Seq<u8>,
    limit: Option<nat>,
)
    requires
        l.window == 0,
        l.reader.size > 0,
        is_command(payload),
        l.input == said(sid, payload, l.reader.size) + rest,
        limit != Some(0nat),
    ensures
        next_command(l, limit) matches CommandView::Command(after, vals) && read_on(l, after, rest)
            && vals == values_at(payload) && after.input.len() < l.input.len(),
{
    reveal(said);
    lemma_message_arrives(l, 20, sid, payload, rest);
}

// ---------------------------------------------------------------------------
// The publisher
// ---------------------------------------------------------------------------

/// What a publisher says behind the handshake: its chunk size, in chunks of 128
/// bytes, and then `connect`, `createStream` and `publish` in chunks of that size.
pub open spec fn asks(app: Seq<char>, tc_url: Seq<char>, key: Seq<char>, sid: u32) -> Seq<u8> {
    sized() + said(0, connect_command(app, tc_url), 4096) + said(0, create_stream_command(), 4096)
        + said(sid, stream_command("publish"@, 3, key), 4096)
}

/// A publisher whose `connect` and `createStream` are answered with `_result`
/// under their transactions, the second with a stream id, and whose `publish` is
/// confirmed, publishes on that stream. It has then announced its chunk size and
/// asked for these three things, and for nothing else; what follows the answers
/// is still to be read.
pub proof fn answered_publishers_publish(
    l: LinkView,
    app: Seq<char>,
    key: Seq<char>,
    tc_url: Seq<char>,
    connected: Seq<u8>,
    created: Seq<u8>,
    started: Seq<u8>,
    sid: u32,
    rest: Seq<u8>,
)
    requires
        l.window == 0,
        !l.negotiated,
        l.reader.size > 0,
        is_command(connected) && is_command(created) && is_command(started),
        answers(connected, "_result"@, double_of(1) as u64),
        answers(created, "_result"@, double_of(2) as u64),
        granted_stream(values_at(created)) == Some(sid),
        command_name(values_at(started)) == "onStatus"@,
        info_text(values_at(started), "code"@) == "NetStream.Publish.Start"@,
        l.input == said(0, connected, l.reader.size) + (said(0, created, l.reader.size) + (said(
            sid,
            started,
            l.reader.size,
        ) + rest)),
    ensures
        after_greeting(l, app, key, tc_url) matches Publish::Done(ready, on) && {
            &&& on == sid
            &&& ready.input == rest
            &&& ready.out == l.out + asks(app, tc_url, key, sid)
        },
{
    let n = l.reader.size;
    let connect = connect_command(app, tc_url);
    let create = create_stream_command();
    let publish = stream_command("publish"@, 3, key);
    let tail = said(sid, started, n) + rest;
    let more = said(0, created, n) + tail;
    lemma_announced(l);
    let first = l.announced();
    lemma_sent(first, 0, connect);
    let a = first.sent(3, 20, 0, 0, connect);
    let b = lemma_reply(a, "connect"@, double_of(1) as u64, connected, more);
    lemma_sent(b, 0, create);
    let c = b.sent(3, 20, 0, 0, create);
    let d = lemma_reply(c, "createStream"@, double_of(2) as u64, created, tail);
    lemma_sent(d, sid, publish);
    let e = d.sent(3, 20, sid, 0, publish);
    let f = lemma_status_comes(e, sid, started, rest);
    lemma_regrouped(
        l.out,
        sized(),
        said(0, connect, 4096),
        said(0, create, 4096),
        said(sid, publish, 4096),
    );
    lemma_done(l, a, b, c, d, e, f, app, key, tc_url, created, sid);
}

proof fn lemma_done(
    l: LinkView,
    a: LinkView,
    b: LinkView,
    c: LinkView,
    d: LinkView,
    e: LinkView,
    f: LinkView,
    app: Seq<char>,
    key: Seq<char>,
    tc_url: Seq<char>,
    created: Seq<u8>,
    sid: u32,
)
    requires
        a == l.announced().sent(3, 20, 0, 0, connect_command(app, tc_url)),
        awaited(a, 64, "connect"@, double_of(1) as u64) matches Reply::Answer(x, _) && x == b,
        c == b.sent(3, 20, 0, 0, create_stream_command()),
        awaited(c, 64, "createStream"@, double_of(2) as u64) == Reply::Answer(
            d,
            values_at(created),
        ),
        granted_stream(values_at(created)) == Some(sid),
        e == d.sent(3, 20, sid, 0, stream_command("publish"@, 3, key)),
        publish_status(e, 64) matches Reply::Answer(y, _) && y == f,
    ensures
        after_greeting(l, app, key, tc_url) == Publish::Done(f, sid),
{
}

proof fn lemma_reply(l: LinkView, op: Seq<char>, txn: u64, reply: Seq<u8>, rest: Seq<u8>) -> (after:
    LinkView)
    requires
        l.window == 0,
        l.reader.size > 0,
        is_command(reply),
        answers(reply, "_result"@, txn),
        l.input == said(0, reply, l.reader.size) + rest,
    ensures
        awaited(l, 64, op, txn) == Reply::Answer(after, values_at(reply)),
        read_on(l, after, rest),
{
    lemma_command_arrives(l, 0, reply, rest, None);
    next_command(l, None)->Command_0
}

proof fn lemma_status_comes(l: LinkView, sid: u32, started: Seq<u8>, rest: Seq<u8>) -> (after:
    LinkView)
    requires
        l.window == 0,
        l.reader.size > 0,
        is_command(started),
        command_name(values_at(started)) == "onStatus"@,
        info_text(values_at(started), "code"@) == "NetStream.Publish.Start"@,
        l.input == said(sid, started, l.reader.size) + rest,
    ensures
        publish_status(l, 64) == Reply::Answer(after, values_at(started)),
        read_on(l, after, rest),
{
    lemma_command_arrives(l, sid, started, rest, None);
    let code = info_text(values_at(started), "code"@);
    assert(code.is_prefix_of(code));
    next_command(l, None)->Command_0
}

/// A publisher whose `connect` is answered with `_error` has failed, whatever
/// else the server has to say, and says nothing more.
pub proof fn refused_publishers_fail(
    l: LinkView,
    app: Seq<char>,
    key: Seq<char>,
    tc_url: Seq<char>,
    refusal: Seq<u8>,
    rest: Seq<u8>,
)
    requires
        l.window == 0,
        !l.negotiated,
        l.reader.size > 0,
        is_command(refusal),
        command_name(values_at(refusal)) == "_error"@,
        l.input == said(0, refusal, l.reader.size) + rest,
    ensures
        after_greeting(l, app, key, tc_url) matches Publish::Failed(f, out) && {
            &&& f == crate::rtmp::client::Failure::Refused("connect"@, values_at(refusal))
            &&& out == l.out + sized() + said(0, connect_command(app, tc_url), 4096)
        },
{
    reveal_strlit("_error");
    reveal_strlit("_result");
    assert("_error"@.len() != "_result"@.len());
    lemma_announced(l);
    lemma_sent(l.announced(), 0, connect_command(app, tc_url));
    let a = l.announced().sent(3, 20, 0, 0, connect_command(app, tc_url));
    lemma_command_arrives(a, 0, refusal, rest, None);
}

// ---------------------------------------------------------------------------
// The server
// ---------------------------------------------------------------------------

/// A publisher that asks for the app that is served is accepted, under the key
/// that it asks for, and its commands are answered: `connect` and `createStream`
/// with a `_result` under their transactions, `publish` with its confirmation.
pub proof fn asking_publishers_are_accepted(
    l: LinkView,
    app: Seq<char>,
    tc_url: Seq<char>,
    key: Seq<char>,
    sid: u32,
    rest: Seq<u8>,
)
    requires
        l.window == 0,
        l.reader.size == 128,
        l.input == asks(app, tc_url, key, sid) + rest,
        app.len() < 0x2000,
        carriable(tc_url),
        carriable(key),
        connect_command(app, tc_url).len() < 0x100_0000,
        stream_command("publish"@, 3, key).len() < 0x100_0000,
    ensures
        commanded(l, false, app) matches Negotiation::Accepted(after, served, under) && {
            &&& served == app
            &&& under == key
            &&& after.input == rest
            &&& after.out == l.out + said(
                0,
                connect_result(double_of(1) as u64),
                l.chunk() as nat,
            ) + said(0, create_stream_result(double_of(2) as u64), l.chunk() as nat) + said(
                1,
                publish_started(),
                l.chunk() as nat,
            )
        },
{
    reveal_strlit("publish");
    crate::rtmp::amf0_laws::lemma_utf8_len("publish"@);
    crate::rtmp::amf0_laws::lemma_utf8_len(app);
    connects_are_understood(app, tc_url);
    plain_commands_are_understood();
    stream_commands_are_understood("publish"@, 3, key);
    lemma_nonempty();
    lemma_accepted(
        l,
        app,
        key,
        sid,
        connect_command(app, tc_url),
        create_stream_command(),
        stream_command("publish"@, 3, key),
        rest,
    );
}

/// The announcement of a chunk size, and what is read behind it.
#[verifier::rlimit(40)]
proof fn lemma_sized(l: LinkView, first: Seq<u8>) -> (a: LinkView)
    requires
        l.window == 0,
        l.reader.size == 128,
        l.input == sized() + first,
    ensures
        a == (LinkView { reader: a.reader, input: first, ..l }),
        a.reader.size == 4096,
        a.input.len() < l.input.len(),
        next_command(l, Some(64)) == next_command(a, Some(63)),
{
    reveal(sized);
    bytes::big_endian_round_trips(4096);
    lemma_message_arrives(l, 1, 0, be32(4096), first);
    let (a0, m0) = l.received()->0;
    a0.controlled(m0)->0
}

proof fn lemma_accepted(
    l: LinkView,
    app: Seq<char>,
    key: Seq<char>,
    sid: u32,
    connect: Seq<u8>,
    create: Seq<u8>,
    publish: Seq<u8>,
    rest: Seq<u8>,
)
    requires
        l.window == 0,
        l.reader.size == 128,
        l.input == sized() + said(0, connect, 4096) + said(0, create, 4096) + said(
            sid,
            publish,
            4096,
        ) + rest,
        is_command(connect) && is_command(create) && is_command(publish),
        command_name(values_at(connect)) == "connect"@,
        transaction(values_at(connect)) == Some(double_of(1) as u64),
        asked_app(values_at(connect)) == app,
        values_at(create).len() == 3,
        values_at(create)[0] == ValView::String("createStream"@),
        values_at(create)[1] == ValView::Number(double_of(2) as u64),
        values_at(publish).len() == 5,
        values_at(publish)[0] == ValView::String("publish"@),
        publish_key(values_at(publish)) == Some(key),
    ensures
        commanded(l, false, app) matches Negotiation::Accepted(after, served, under) && {
            &&& served == app
            &&& under == key
            &&& after.input == rest
            &&& after.out == l.out + said(
                0,
                connect_result(double_of(1) as u64),
                l.chunk() as nat,
            ) + said(0, create_stream_result(double_of(2) as u64), l.chunk() as nat) + said(
                1,
                publish_started(),
                l.chunk() as nat,
            )
        },
{
    let third = said(sid, publish, 4096) + rest;
    let second = said(0, create, 4096) + third;
    let first = said(0, connect, 4096) + second;
    lemma_regrouped(
        sized(),
        said(0, connect, 4096),
        said(0, create, 4096),
        said(sid, publish, 4096),
        rest,
    );
    let a = lemma_sized(l, first);
    let b = lemma_connect_step(l, a, app, connect, second);
    let c = lemma_create_step(b, app, create, third);
    let d = lemma_publish_step(c, app, key, sid, publish, rest);
    lemma_three_steps(l, b, c, d, app, key);
}

proof fn lemma_three_steps(
    l: LinkView,
    b: LinkView,
    c: LinkView,
    d: LinkView,
    app: Seq<char>,
    key: Seq<char>,
)
    requires
        command_step(l, false, app) == Step::More(b, true),
        command_step(b, true, app) == Step::More(c, true),
        command_step(c, true, app) == Step::Over(Negotiation::Accepted(d, app, key)),
        c.input.len() < b.input.len() < l.input.len(),
    ensures
        commanded(l, false, app) == Negotiation::Accepted(d, app, key),
{
    assert(commanded(c, true, app) == Negotiation::Accepted(d, app, key));
    assert(commanded(b, true, app) == commanded(c, true, app));
    assert(commanded(l, false, app) == commanded(b, true, app));
}

/// The connection once a command has been read up to `rest` and answered.
spec fn replied(
    before: LinkView,
    after: LinkView,
    sid: u32,
    reply: Seq<u8>,
    rest: Seq<u8>,
) -> bool {
    &&& after.input == rest
    &&& after.reader.size == before.reader.size
    &&& after.negotiated == before.negotiated
    &&& after.window == 0
    &&& after.out == before.out + said(sid, reply, before.chunk() as nat)
}

proof fn lemma_connect_step(
    l: LinkView,
    a: LinkView,
    app: Seq<char>,
    connect: Seq<u8>,
    rest: Seq<u8>,
) -> (b: LinkView)
    requires
        a.window == 0,
        a.reader.size == 4096,
        a.input == said(0, connect, 4096) + rest,
        a.input.len() < l.input.len(),
        next_command(l, Some(64)) == next_command(a, Some(63)),
        is_command(connect),
        command_name(values_at(connect)) == "connect"@,
        transaction(values_at(connect)) == Some(double_of(1) as u64),
        asked_app(values_at(connect)) == app,
    ensures
        command_step(l, false, app) == Step::More(b, true),
        replied(a, b, 0, connect_result(double_of(1) as u64), rest),
        b.input.len() < l.input.len(),
{
    lemma_command_arrives(a, 0, connect, rest, Some(63));
    let a2 = next_command(a, Some(63))->Command_0;
    lemma_sent(a2, 0, connect_result(double_of(1) as u64));
    a2.sent(3, 20, 0, 0, connect_result(double_of(1) as u64))
}

proof fn lemma_create_step(b: LinkView, app: Seq<char>, create: Seq<u8>, rest: Seq<u8>) -> (c:
    LinkView)
    requires
        b.window == 0,
        b.reader.size == 4096,
        b.input == said(0, create, 4096) + rest,
        is_command(create),
        values_at(create).len() == 3,
        values_at(create)[0] == ValView::String("createStream"@),
        values_at(create)[1] == ValView::Number(double_of(2) as u64),
    ensures
        command_step(b, true, app) == Step::More(c, true),
        replied(b, c, 0, create_stream_result(double_of(2) as u64), rest),
        c.input.len() < b.input.len(),
{
    lemma_command_arrives(b, 0, create, rest, Some(64));
    let b2 = next_command(b, Some(64))->Command_0;
    lemma_created(b2, app, values_at(create));
    lemma_sent(b2, 0, create_stream_result(double_of(2) as u64));
    b2.sent(3, 20, 0, 0, create_stream_result(double_of(2) as u64))
}

proof fn lemma_publish_step(
    c: LinkView,
    app: Seq<char>,
    key: Seq<char>,
    sid: u32,
    publish: Seq<u8>,
    rest: Seq<u8>,
) -> (d: LinkView)
    requires
        c.window == 0,
        c.reader.size == 4096,
        c.input == said(sid, publish, 4096) + rest,
        is_command(publish),
        values_at(publish).len() == 5,
        values_at(publish)[0] == ValView::String("publish"@),
        publish_key(values_at(publish)) == Some(key),
    ensures
        command_step(c, true, app) == Step::Over(Negotiation::Accepted(d, app, key)),
        replied(c, d, 1, publish_started(), rest),
{
    lemma_command_arrives(c, sid, publish, rest, Some(64));
    let c2 = next_command(c, Some(64))->Command_0;
    lemma_published(c2, app, values_at(publish), key);
    lemma_sent(c2, 1, publish_started());
    c2.sent(3, 20, 1, 0, publish_started())
}

proof fn lemma_created(l: LinkView, served: Seq<char>, vals: Seq<ValView>)
    requires
        vals.len() == 3,
        vals[0] == ValView::String("createStream"@),
        vals[1] == ValView::Number(double_of(2) as u64),
    ensures
        answered(l, true, served, vals) == Answer::More(
            l.sent(3, 20, 0, 0, create_stream_result(double_of(2) as u64)),
            true,
        ),
{
    reveal_strlit("connect");
    reveal_strlit("releaseStream");
    reveal_strlit("FCPublish");
    reveal_strlit("createStream");
    assert("connect"@.len() == 7 && "createStream"@.len() == 12);
    assert("releaseStream"@.len() == 13 && "FCPublish"@.len() == 9);
}

proof fn lemma_published(l: LinkView, served: Seq<char>, vals: Seq<ValView>, key: Seq<char>)
    requires
        vals.len() == 5,
        vals[0] == ValView::String("publish"@),
        publish_key(vals) == Some(key),
    ensures
        answered(l, true, served, vals) == Answer::Accepted(
            l.sent(3, 20, 1, 0, publish_started()),
            key,
        ),
{
    reveal_strlit("connect");
    reveal_strlit("releaseStream");
    reveal_strlit("FCPublish");
    reveal_strlit("createStream");
    reveal_strlit("publish");
    assert("connect"@.len() == 7 && "createStream"@.len() == 12);
    assert("releaseStream"@.len() == 13 && "FCPublish"@.len() == 9);
    assert("connect"@[0] == 'c' && "publish"@[0] == 'p');
}

/// A command is not empty.
proof fn lemma_nonempty()
    ensures
        0 < create_stream_command().len() < 0x100_0000,
        forall|app: Seq<char>, url: Seq<char>| #[trigger] connect_command(app, url).len() > 0,
        forall|key: Seq<char>| #[trigger] stream_command("publish"@, 3, key).len() > 0,
{
    reveal_strlit("createStream");
    crate::rtmp::amf0_laws::lemma_utf8_len("createStream"@);
}

} // verus!
