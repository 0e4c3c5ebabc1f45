//! Laws of the control plane: what each side says, and what the other
//! understands by it.

use vstd::arithmetic::power2::pow2;
use vstd::prelude::*;
use vstd::string::*;
use vstd::utf8::encode_utf8;

use crate::bytes;
use crate::doubles::double_of;
use crate::rounding::{small_wholes_are_exact, units};
use crate::rtmp::amf0::{
    is_field, object_bytes, scalar_bytes, values_at, ValView,
};
use crate::rtmp::amf0_laws::{
    lemma_last_object, lemma_no_values, lemma_one_scalar, lemma_utf8_len, lemma_value_of, value_of,
};
use crate::rtmp::client::{
    close_stream_command, connect_command, create_stream_command, granted_stream, stream_command,
};
use crate::rtmp::command::{command_name, field_text, info_text, transaction};
use crate::rtmp::link::LinkView;
use crate::rtmp::server::{
    answered, asked_app, connect_error, connect_result, create_stream_result, empty_result,
    ends_publish, publish_key, publish_started, Answer,
};

verus! {

/// True of text that a command can carry.
pub open spec fn carriable(s: Seq<char>) -> bool {
    encode_utf8(s).len() < 0x1_0000
}

/// True if `bits` is the pattern of the whole number `n`.
pub open spec fn stands_for(bits: u64, n: int) -> bool {
    units(bits as int) == n * pow2(1074)
}

proof fn lemma_short(s: Seq<char>)
    requires
        s.len() < 0x4000,
    ensures
        carriable(s),
{
    lemma_utf8_len(s);
}

proof fn lemma_last_scalar(v: ValView)
    requires
        crate::rtmp::amf0::is_scalar(v),
    ensures
        values_at(scalar_bytes(v)) == seq![v],
{
    let none = Seq::<u8>::empty();
    lemma_one_scalar(v, none);
    lemma_no_values();
    assert(scalar_bytes(v) + none =~= scalar_bytes(v));
    assert(seq![v] + Seq::<ValView>::empty() =~= seq![v]);
}

/// Three scalars in front of other values.
proof fn lemma_three(a: ValView, b: ValView, c: ValView, rest: Seq<u8>)
    requires
        crate::rtmp::amf0::is_scalar(a) && crate::rtmp::amf0::is_scalar(b)
            && crate::rtmp::amf0::is_scalar(c),
    ensures
        values_at(scalar_bytes(a) + scalar_bytes(b) + scalar_bytes(c) + rest) == seq![a, b, c]
            + values_at(rest),
{
    let x = scalar_bytes(a);
    let y = scalar_bytes(b);
    let z = scalar_bytes(c);
    lemma_regroup(x, y, z, rest);
    lemma_one_scalar(a, y + (z + rest));
    lemma_one_scalar(b, z + rest);
    lemma_one_scalar(c, rest);
    assert(seq![a] + (seq![b] + (seq![c] + values_at(rest))) =~= seq![a, b, c] + values_at(rest));
}

proof fn lemma_regroup(x: Seq<u8>, y: Seq<u8>, z: Seq<u8>, rest: Seq<u8>)
    ensures
        x + y + z + rest == x + (y + (z + rest)),
{
    assert(x + y + z + rest =~= x + (y + (z + rest)));
}

// ---------------------------------------------------------------------------
// The publisher's commands
// ---------------------------------------------------------------------------

/// The fields of a `connect`.
spec fn connect_fields(app: Seq<char>, tc_url: Seq<char>) -> Seq<(Seq<char>, ValView)> {
    seq![
        ("app"@, ValView::String(app)),
        ("flashVer"@, ValView::String("FMLE/3.0 (compatible; FMSc/1.0)"@)),
        ("tcUrl"@, ValView::String(tc_url)),
        ("fpad"@, ValView::Boolean(false)),
        ("capabilities"@, ValView::Number(double_of(15) as u64)),
        ("audioCodecs"@, ValView::Number(double_of(4071) as u64)),
        ("videoCodecs"@, ValView::Number(double_of(252) as u64)),
        ("videoFunction"@, ValView::Number(double_of(1) as u64)),
    ]
}

/// A `connect` is transaction 1 and tells the app and the URL that the publisher
/// was given; a server takes the app to be just that.
pub proof fn connects_are_understood(app: Seq<char>, tc_url: Seq<char>)
    requires
        carriable(app),
        carriable(tc_url),
    ensures
        ({
            let vals = values_at(connect_command(app, tc_url));
            &&& vals.len() == 3
            &&& vals[0] == ValView::String("connect"@)
            &&& vals[1] matches ValView::Number(n) && stands_for(n, 1)
            &&& vals[2] matches ValView::Object(fields) && {
                &&& value_of(fields, "app"@) == Some(ValView::String(app))
                &&& value_of(fields, "tcUrl"@) == Some(ValView::String(tc_url))
            }
            &&& command_name(vals) == "connect"@
            &&& transaction(vals) == Some(double_of(1) as u64)
            &&& asked_app(vals) == app
        }),
{
    let fields = connect_fields(app, tc_url);
    let one = double_of(1) as u64;
    lemma_connect_fields(app, tc_url);
    reveal_strlit("connect");
    lemma_short("connect"@);
    lemma_with_object("connect"@, one, fields);
    small_wholes_are_exact(1);
    let last = ValView::Object(fields);
    let vals = values_at(connect_command(app, tc_url));
    assert(vals == seq![ValView::String("connect"@), ValView::Number(one), last]);
    lemma_asked(vals, fields, app);
}

/// A name, a transaction and an object, as values.
proof fn lemma_with_object(name: Seq<char>, txn: u64, fields: Seq<(Seq<char>, ValView)>)
    requires
        carriable(name),
        forall|i: int| 0 <= i < fields.len() ==> is_field(#[trigger] fields[i]),
    ensures
        values_at(
            scalar_bytes(ValView::String(name)) + scalar_bytes(ValView::Number(txn))
                + object_bytes(fields),
        ) == seq![ValView::String(name), ValView::Number(txn), ValView::Object(fields)],
{
    let a = ValView::String(name);
    let b = ValView::Number(txn);
    let c = ValView::Object(fields);
    let x = scalar_bytes(a);
    let y = scalar_bytes(b);
    let object = object_bytes(fields);
    assert(x + y + object =~= x + (y + object));
    lemma_one_scalar(a, y + object);
    lemma_one_scalar(b, object);
    lemma_last_object(fields);
    assert(seq![a] + (seq![b] + seq![c]) =~= seq![a, b, c]);
}

/// The app behind a name and a transaction.
proof fn lemma_asked(vals: Seq<ValView>, fields: Seq<(Seq<char>, ValView)>, app: Seq<char>)
    requires
        vals.len() == 3,
        !(vals[0] is Object),
        !(vals[1] is Object),
        vals[2] == ValView::Object(fields),
        field_text(fields, "app"@) == Some(app),
    ensures
        asked_app(vals) == app,
{
    let a = vals.drop_first();
    let b = a.drop_first();
    assert(a.first() == vals[1] && b.first() == vals[2]);
    assert(asked_app(b) == app);
    assert(asked_app(a) == asked_app(b));
}

/// The fields of a `connect` can be sent, and found again.
proof fn lemma_connect_fields(app: Seq<char>, tc_url: Seq<char>)
    requires
        carriable(app),
        carriable(tc_url),
    ensures
        ({
            let fields = connect_fields(app, tc_url);
            &&& forall|i: int| 0 <= i < fields.len() ==> is_field(#[trigger] fields[i])
            &&& value_of(fields, "app"@) == Some(ValView::String(app))
            &&& value_of(fields, "tcUrl"@) == Some(ValView::String(tc_url))
            &&& field_text(fields, "app"@) == Some(app)
        }),
{
    let fields = connect_fields(app, tc_url);
    reveal_strlit("app");
    reveal_strlit("flashVer");
    reveal_strlit("FMLE/3.0 (compatible; FMSc/1.0)");
    reveal_strlit("tcUrl");
    reveal_strlit("fpad");
    reveal_strlit("capabilities");
    reveal_strlit("audioCodecs");
    reveal_strlit("videoCodecs");
    reveal_strlit("videoFunction");
    lemma_short("FMLE/3.0 (compatible; FMSc/1.0)"@);
    assert forall|i: int| 0 <= i < fields.len() implies is_field(#[trigger] fields[i]) by {
        lemma_short(fields[i].0);
    }
    assert("app"@.len() == 3 && "flashVer"@.len() == 8 && "tcUrl"@.len() == 5);
    assert(fields[0].0 == "app"@ && fields[1].0 == "flashVer"@ && fields[2].0 == "tcUrl"@);
    lemma_value_of(fields, 0);
    lemma_value_of(fields, 2);
}

/// A command about a stream tells its name, its transaction and the stream key; a
/// server takes the key of a `publish` to be just that.
pub proof fn stream_commands_are_understood(name: Seq<char>, txn: nat, key: Seq<char>)
    requires
        carriable(name),
        carriable(key),
        txn < 0x20_0000_0000_0000,
    ensures
        ({
            let vals = values_at(stream_command(name, txn, key));
            &&& vals.len() == 5
            &&& vals[0] == ValView::String(name)
            &&& vals[1] matches ValView::Number(n) && stands_for(n, txn as int)
            &&& vals[2] == ValView::Null
            &&& vals[3] == ValView::String(key)
            &&& vals[4] == ValView::String("live"@)
            &&& command_name(vals) == name
            &&& publish_key(vals) == Some(key)
        }),
{
    let b = double_of(txn) as u64;
    reveal_strlit("live");
    lemma_short("live"@);
    small_wholes_are_exact(txn as u64);
    lemma_five(name, b, key, "live"@);
}

/// A name, a transaction, null and two strings, as values.
proof fn lemma_five(name: Seq<char>, txn: u64, x: Seq<char>, y: Seq<char>)
    requires
        carriable(name) && carriable(x) && carriable(y),
    ensures
        values_at(
            scalar_bytes(ValView::String(name)) + scalar_bytes(ValView::Number(txn)) + scalar_bytes(
                ValView::Null,
            ) + scalar_bytes(ValView::String(x)) + scalar_bytes(ValView::String(y)),
        ) == seq![
            ValView::String(name),
            ValView::Number(txn),
            ValView::Null,
            ValView::String(x),
            ValView::String(y),
        ],
{
    let a = ValView::String(name);
    let b = ValView::Number(txn);
    let d = ValView::String(x);
    let e = ValView::String(y);
    bytes::lemma_concat(
        scalar_bytes(a) + scalar_bytes(b) + scalar_bytes(ValView::Null),
        scalar_bytes(d),
        scalar_bytes(e),
    );
    lemma_three(a, b, ValView::Null, scalar_bytes(d) + scalar_bytes(e));
    lemma_one_scalar(d, scalar_bytes(e));
    lemma_last_scalar(e);
    assert(seq![a, b, ValView::Null] + (seq![d] + seq![e]) =~= seq![a, b, ValView::Null, d, e]);
}

/// The commands without arguments: `createStream` is transaction 2, and
/// `closeStream` ends the publish.
pub proof fn plain_commands_are_understood()
    ensures
        ({
            let vals = values_at(create_stream_command());
            &&& vals.len() == 3
            &&& vals[0] == ValView::String("createStream"@)
            &&& vals[1] matches ValView::Number(n) && stands_for(n, 2)
            &&& vals[2] == ValView::Null
            &&& transaction(vals) == Some(double_of(2) as u64)
        }),
        command_name(values_at(close_stream_command())) == "closeStream"@,
        ends_publish(values_at(close_stream_command())),
{
    let none = Seq::<u8>::empty();
    let a = ValView::String("createStream"@);
    let b = ValView::Number(double_of(2) as u64);
    reveal_strlit("createStream");
    reveal_strlit("closeStream");
    lemma_short("createStream"@);
    lemma_short("closeStream"@);
    small_wholes_are_exact(2);
    lemma_three(a, b, ValView::Null, none);
    lemma_no_values();
    assert(create_stream_command() + none =~= create_stream_command());
    assert(values_at(create_stream_command()) =~= seq![a, b, ValView::Null]);
    let c = ValView::String("closeStream"@);
    let d = ValView::Number(double_of(5) as u64);
    lemma_three(c, d, ValView::Null, none);
    assert(close_stream_command() + none =~= close_stream_command());
    assert(values_at(close_stream_command()) =~= seq![c, d, ValView::Null]);
}

// ---------------------------------------------------------------------------
// The server's answers
// ---------------------------------------------------------------------------

/// True if a payload is the answer `name` to transaction `txn`.
pub open spec fn answers(payload: Seq<u8>, name: Seq<char>, txn: u64) -> bool {
    let vals = values_at(payload);
    &&& vals.len() > 2
    &&& vals[0] == ValView::String(name)
    &&& vals[1] == ValView::Number(txn)
    &&& vals[2] == ValView::Null
    &&& command_name(vals) == name
    &&& transaction(vals) == Some(txn)
}

proof fn lemma_head(name: Seq<char>, txn: u64, rest: Seq<u8>)
    requires
        carriable(name),
    ensures
        values_at(crate::rtmp::server::reply_head(name, txn) + rest) == seq![
            ValView::String(name),
            ValView::Number(txn),
            ValView::Null,
        ] + values_at(rest),
        answers(crate::rtmp::server::reply_head(name, txn) + rest, name, txn),
{
    lemma_three(ValView::String(name), ValView::Number(txn), ValView::Null, rest);
}

proof fn lemma_status(level: Seq<char>, code: Seq<char>, description: Seq<char>)
    requires
        carriable(level),
        carriable(code),
        carriable(description),
    ensures
        ({
            let vals = values_at(crate::rtmp::server::status_object(level, code, description));
            &&& vals.len() == 1
            &&& vals[0] matches ValView::Object(fields) && {
                &&& value_of(fields, "level"@) == Some(ValView::String(level))
                &&& value_of(fields, "code"@) == Some(ValView::String(code))
                &&& value_of(fields, "description"@) == Some(ValView::String(description))
                &&& field_text(fields, "level"@) == Some(level)
                &&& field_text(fields, "code"@) == Some(code)
                &&& field_text(fields, "description"@) == Some(description)
            }
        }),
{
    let fields = seq![
        ("level"@, ValView::String(level)),
        ("code"@, ValView::String(code)),
        ("description"@, ValView::String(description)),
    ];
    reveal_strlit("level");
    reveal_strlit("code");
    reveal_strlit("description");
    assert("level"@.len() == 5 && "code"@.len() == 4 && "description"@.len() == 11);
    assert forall|i: int| 0 <= i < fields.len() implies is_field(#[trigger] fields[i]) by {
        lemma_short(fields[i].0);
    }
    lemma_last_object(fields);
    lemma_value_of(fields, 0);
    lemma_value_of(fields, 1);
    lemma_value_of(fields, 2);
    let more = fields.drop_first();
    let last = more.drop_first();
    assert(more[0] == fields[1] && more.first() == fields[1]);
    assert(last[0] == fields[2] && last.first() == fields[2]);
    assert(field_text(last, "description"@) == Some(description));
    assert(field_text(more, "description"@) == Some(description));
    assert(field_text(more, "code"@) == Some(code));
    assert(field_text(fields, "level"@) == Some(level));
}

/// What a server answers, and what a publisher makes of it: each `_result` and
/// `_error` carries the transaction that it answers; `createStream` is granted
/// stream 1; and a publish that has started says so in its code.
pub proof fn answers_are_understood(txn: u64, asked: Seq<char>)
    requires
        asked.len() < 0x2000,
    ensures
        answers(connect_result(txn), "_result"@, txn),
        answers(empty_result(txn), "_result"@, txn),
        answers(create_stream_result(txn), "_result"@, txn),
        values_at(create_stream_result(txn)).len() == 4,
        values_at(create_stream_result(txn))[3] matches ValView::Number(n) && stands_for(n, 1),
        granted_stream(values_at(create_stream_result(txn))) == Some(1u32),
        answers(connect_error(txn, asked), "_error"@, txn),
        info_text(values_at(connect_error(txn, asked)), "level"@) == "error"@,
        info_text(values_at(connect_error(txn, asked)), "code"@)
            == "NetConnection.Connect.Rejected"@,
        info_text(values_at(connect_error(txn, asked)), "description"@) == "unknown app `"@ + asked
            + "`"@,
        command_name(values_at(publish_started())) == "onStatus"@,
        info_text(values_at(publish_started()), "level"@) == "status"@,
        info_text(values_at(publish_started()), "code"@) == "NetStream.Publish.Start"@,
{
    lemma_results(txn);
    lemma_rejection(txn, asked);
    lemma_started();
}

#[verifier::rlimit(40)]
proof fn lemma_results(txn: u64)
    ensures
        answers(connect_result(txn), "_result"@, txn),
        answers(empty_result(txn), "_result"@, txn),
        answers(create_stream_result(txn), "_result"@, txn),
        values_at(create_stream_result(txn)).len() == 4,
        values_at(create_stream_result(txn))[3] matches ValView::Number(n) && stands_for(n, 1),
        granted_stream(values_at(create_stream_result(txn))) == Some(1u32),
{
    reveal_strlit("_result");
    lemma_short("_result"@);
    lemma_connect_result(txn);
    lemma_head("_result"@, txn, scalar_bytes(ValView::Null));
    let one = ValView::Number(double_of(1) as u64);
    lemma_head("_result"@, txn, scalar_bytes(one));
    lemma_last_scalar(one);
    small_wholes_are_exact(1);
    crate::doubles::whole_numbers_read_back(1);
}

#[verifier::rlimit(40)]
proof fn lemma_rejection(txn: u64, asked: Seq<char>)
    requires
        asked.len() < 0x2000,
    ensures
        answers(connect_error(txn, asked), "_error"@, txn),
        info_text(values_at(connect_error(txn, asked)), "level"@) == "error"@,
        info_text(values_at(connect_error(txn, asked)), "code"@)
            == "NetConnection.Connect.Rejected"@,
        info_text(values_at(connect_error(txn, asked)), "description"@) == "unknown app `"@ + asked
            + "`"@,
{
    reveal_strlit("_error");
    reveal_strlit("error");
    reveal_strlit("NetConnection.Connect.Rejected");
    reveal_strlit("unknown app `");
    reveal_strlit("`");
    lemma_short("_error"@);
    lemma_short("error"@);
    lemma_short("NetConnection.Connect.Rejected"@);
    let why = "unknown app `"@ + asked + "`"@;
    lemma_short(why);
    let no = crate::rtmp::server::status_object("error"@, "NetConnection.Connect.Rejected"@, why);
    lemma_head("_error"@, txn, no);
    lemma_status("error"@, "NetConnection.Connect.Rejected"@, why);
    lemma_info(connect_error(txn, asked), values_at(no)[0]);
}

proof fn lemma_started()
    ensures
        command_name(values_at(publish_started())) == "onStatus"@,
        info_text(values_at(publish_started()), "level"@) == "status"@,
        info_text(values_at(publish_started()), "code"@) == "NetStream.Publish.Start"@,
{
    reveal_strlit("onStatus");
    reveal_strlit("status");
    reveal_strlit("NetStream.Publish.Start");
    reveal_strlit("Started publishing stream");
    lemma_short("onStatus"@);
    lemma_short("status"@);
    lemma_short("NetStream.Publish.Start"@);
    lemma_short("Started publishing stream"@);
    let zero = double_of(0) as u64;
    let yes = crate::rtmp::server::status_object(
        "status"@,
        "NetStream.Publish.Start"@,
        "Started publishing stream"@,
    );
    lemma_head("onStatus"@, zero, yes);
    lemma_status("status"@, "NetStream.Publish.Start"@, "Started publishing stream"@);
    lemma_info(publish_started(), values_at(yes)[0]);
}

proof fn lemma_info(payload: Seq<u8>, object: ValView)
    requires
        values_at(payload).len() == 4,
        values_at(payload)[0] is String,
        values_at(payload)[1] is Number,
        values_at(payload)[2] is Null,
        values_at(payload)[3] == object,
        object is Object,
    ensures
        object matches ValView::Object(fields) && crate::rtmp::command::first_object(
            values_at(payload),
        ) == Some(fields),
{
    let v = values_at(payload);
    let a = v.drop_first();
    let b = a.drop_first();
    let c = b.drop_first();
    assert(a.first() == v[1] && b.first() == v[2] && c.first() == v[3]);
    assert(crate::rtmp::command::first_object(v) == crate::rtmp::command::first_object(a));
    assert(crate::rtmp::command::first_object(a) == crate::rtmp::command::first_object(b));
    assert(crate::rtmp::command::first_object(b) == crate::rtmp::command::first_object(c));
}

proof fn lemma_connect_result(txn: u64)
    ensures
        answers(connect_result(txn), "_result"@, txn),
{
    let fields = seq![
        ("fmsVer"@, ValView::String("FMS/3,0,1,123"@)),
        ("capabilities"@, ValView::Number(double_of(31) as u64)),
        ("mode"@, ValView::Number(double_of(1) as u64)),
    ];
    reveal_strlit("_result");
    lemma_short("_result"@);
    lemma_head("_result"@, txn, object_bytes(fields));
}

/// What a server does with a command: a `connect` to the app that is served is
/// answered with `_result`, one to another with `_error`; `releaseStream` and
/// `FCPublish` with an empty `_result`, `createStream` with the stream. Each
/// answer goes out as a command and carries the transaction of its command. A
/// `publish` behind a `connect` is accepted under its key; any other command is
/// passed over.
pub proof fn commands_are_answered(
    l: LinkView,
    connected: bool,
    served: Seq<char>,
    vals: Seq<ValView>,
    txn: u64,
)
    requires
        transaction(vals) == Some(txn),
        asked_app(vals).len() < 0x2000,
    ensures
        ({
            let name = command_name(vals);
            let next = answered(l, connected, served, vals);
            &&& name == "connect"@ && asked_app(vals) == served ==> exists|payload: Seq<u8>|
                next == Answer::More(#[trigger] l.sent(3, 20, 0, 0, payload), true) && answers(
                    payload,
                    "_result"@,
                    txn,
                )
            &&& name == "connect"@ && asked_app(vals) != served ==> exists|payload: Seq<u8>|
                next == Answer::UnknownApp(
                    #[trigger] l.sent(3, 20, 0, 0, payload),
                    asked_app(vals),
                ) && answers(payload, "_error"@, txn)
            &&& name == "releaseStream"@ || name == "FCPublish"@ || name == "createStream"@
                ==> exists|payload: Seq<u8>|
                next == Answer::More(#[trigger] l.sent(3, 20, 0, 0, payload), connected) && answers(
                    payload,
                    "_result"@,
                    txn,
                ) && (name == "createStream"@ ==> granted_stream(values_at(payload)) == Some(1u32))
            &&& name == "publish"@ && connected && publish_key(vals) is Some ==> exists|
                payload: Seq<u8>,
            |
                next == Answer::Accepted(
                    #[trigger] l.sent(3, 20, 1, 0, payload),
                    publish_key(vals)->0,
                ) && command_name(values_at(payload)) == "onStatus"@
            &&& name == "publish"@ && !connected ==> next is NoConnect
            &&& name == "publish"@ && connected && publish_key(vals) is None ==> next is NoKey
            &&& name == "deleteStream"@ ==> next == Answer::More(l, connected)
        }),
{
    answers_are_understood(txn, asked_app(vals));
    reveal_strlit("connect");
    reveal_strlit("releaseStream");
    reveal_strlit("FCPublish");
    reveal_strlit("createStream");
    reveal_strlit("publish");
    reveal_strlit("deleteStream");
    let name = command_name(vals);
    let a = l.sent(3, 20, 0, 0, connect_result(txn));
    let b = l.sent(3, 20, 0, 0, connect_error(txn, asked_app(vals)));
    let c = l.sent(3, 20, 0, 0, empty_result(txn));
    let d = l.sent(3, 20, 0, 0, create_stream_result(txn));
    let e = l.sent(3, 20, 1, 0, publish_started());
    assert("connect"@.len() == 7 && "publish"@.len() == 7 && "connect"@[0] == 'c' && "publish"@[0]
        == 'p');
    assert("deleteStream"@.len() == 12 && "createStream"@.len() == 12);
    assert("deleteStream"@[0] == 'd' && "createStream"@[0] == 'c');
    assert("releaseStream"@.len() == 13 && "FCPublish"@.len() == 9);
}

/// A stream is unpublished by `deleteStream`, `closeStream` or `FCUnpublish`, and
/// by no other command.
pub proof fn only_three_commands_unpublish(vals: Seq<ValView>)
    ensures
        ends_publish(vals) <==> vals.len() > 0 && (vals[0] == ValView::String("deleteStream"@)
            || vals[0] == ValView::String("closeStream"@) || vals[0] == ValView::String(
            "FCUnpublish"@,
        )),
{
    reveal_strlit("deleteStream");
    reveal_strlit("closeStream");
    reveal_strlit("FCUnpublish");
}

} // verus!
