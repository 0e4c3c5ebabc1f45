//! RTMP ingest transport. Implements enough of RTMP to publish a live stream:
//! handshake, `connect` / `createStream` / `publish` control plane, and a
//! parser that turns the muxer's FLV byte stream into RTMP `audio`/`video`/
//! `@setDataFrame` messages.
//!
//! Design: the muxer already emits *valid FLV* (header + onMetaData + sequence
//! headers + media tags). An RTMP publish stream is essentially that FLV wrapped
//! in RTMP chunk frames, so this transport re-parses tag boundaries and re-frames
//! each tag body as an RTMP message.
//!
//! Robustness: every parser here (chunk reassembly, AMF0, FLV tags) is
//! bounds-checked — malformed or hostile input yields `Err`, never a panic. The
//! control plane answers `_error` / error-level `onStatus` on every transaction,
//! honors Window Acknowledgement Size with acknowledgement replies, and answers
//! ping requests.

use vstd::prelude::*;
use vstd::string::*;

use crate::bytes;
use crate::bytes::{be16, be32, from_be16, from_be32};
use crate::clock::Clock;
use crate::doubles::{double_bits, double_of, double_to_u32, unsigned_value};
use crate::figures::{in_millis, millis};
use crate::flv::{TagView, TAG_SCRIPT};
use crate::io::{Faults, IoError, IoErrorKind, Sink, Source};
use crate::rtmp::amf0::{
    items_view, object_bytes, object_fields, scalar_bytes, ObjVal, Val, ValView, Writer,
};
use crate::rtmp::chunk::{Message, MessageView, ReaderView};
use crate::rtmp::command::{
    command_name, info, info_text, is_named, transaction, txn_of,
};
use crate::rtmp::handshake;
use crate::rtmp::handshake::{c2_for, plain_block};
use crate::rtmp::link::{
    lemma_items, lemma_received_shrinks, next_command, CommandView, Link, LinkView, CID_AUDIO,
    CID_COMMAND, CID_VIDEO, MAX_PENDING_MESSAGES, MSG_AMF0_COMMAND, MSG_AMF0_DATA, MSG_AUDIO,
    MSG_USER_CONTROL, MSG_VIDEO, UCM_PING_REQUEST, UCM_PING_RESPONSE,
};
use crate::rtmp::tags::{
    lemma_header_parses, parse_tags, tag_views, tags_are_never_malformed, FlvPhase, FlvTag,
    FlvTagParser,
};
use crate::telemetry::{
    entry_views, BookView, Entry, Field, FieldValue, FieldView, Level, LogBook, Record,
};
use crate::text::{append_decimal, begins_with, decimal};
use crate::transport::Transport;

verus! {

/// Default socket timeout in nanoseconds, applied to every read and write on a
/// real connection, so a dead peer can never hang the publisher forever.
pub const DEFAULT_TIMEOUT: u64 = 10_000_000_000;

/// Connection details for publishing.
#[derive(Debug)]
pub struct RtmpConfig {
    /// e.g. `"live"` or `"app"`.
    pub app: String,
    /// Stream key (the publish name), e.g. `"mystream"`.
    pub key: String,
    /// Full `rtmp://host[:port]/app` URL.
    pub tc_url: String,
    /// Read/write timeout for every socket operation, in nanoseconds. Defaults
    /// to [`DEFAULT_TIMEOUT`]; `None` blocks indefinitely.
    pub timeout: Option<u64>,
}

impl Clone for RtmpConfig {
    fn clone(&self) -> (c: Self)
        ensures
            c.app@ == self.app@,
            c.key@ == self.key@,
            c.tc_url@ == self.tc_url@,
            c.timeout == self.timeout,
    {
        RtmpConfig {
            app: self.app.clone(),
            key: self.key.clone(),
            tc_url: self.tc_url.clone(),
            timeout: self.timeout,
        }
    }
}

impl RtmpConfig {
    /// Build a config from the app name, stream key, and full `tcUrl`. Socket
    /// operations time out after [`DEFAULT_TIMEOUT`].
    pub fn new(app: &str, key: &str, tc_url: &str) -> (c: Self)
        ensures
            c.app@ == app@,
            c.key@ == key@,
            c.tc_url@ == tc_url@,
            c.timeout == Some(DEFAULT_TIMEOUT),
    {
        RtmpConfig {
            app: app.to_owned(),
            key: key.to_owned(),
            tc_url: tc_url.to_owned(),
            timeout: Some(DEFAULT_TIMEOUT),
        }
    }
}

/// The port that RTMP servers listen on.
pub const DEFAULT_PORT: u16 = 1935;

/// True if an address names its port: there is a colon behind the brackets
/// that an IPv6 host stands in.
pub open spec fn names_port(addr: Seq<char>) -> bool {
    exists|i: int|
        0 <= i < addr.len() && #[trigger] addr[i] == ':' && forall|j: int|
            i < j < addr.len() ==> addr[j] != ']'
}

/// The address to dial for `"host[:port]"`.
pub open spec fn endpoint_of(addr: Seq<char>) -> Seq<char> {
    if names_port(addr) {
        addr
    } else {
        addr + ":"@ + decimal(DEFAULT_PORT as nat)
    }
}

proof fn lemma_names_port(addr: Seq<char>, c: char)
    ensures
        names_port(addr.push(c)) == (c == ':' || (c != ']' && names_port(addr))),
{
    let s = addr.push(c);
    if c == ':' {
        assert(s[addr.len() as int] == ':');
    } else if c != ']' {
        if names_port(addr) {
            let i = choose|i: int|
                0 <= i < addr.len() && #[trigger] addr[i] == ':' && forall|j: int|
                    i < j < addr.len() ==> addr[j] != ']';
            assert(s[i] == ':');
        }
        if names_port(s) {
            let i = choose|i: int|
                0 <= i < s.len() && #[trigger] s[i] == ':' && forall|j: int|
                    i < j < s.len() ==> s[j] != ']';
            assert(addr[i] == ':');
            assert forall|j: int| i < j < addr.len() implies addr[j] != ']' by {
                assert(s[j] == addr[j]);
            }
        }
    } else {
        assert(s[addr.len() as int] == ']');
    }
}

fn has_port(addr: &str) -> (yes: bool)
    ensures
        yes == names_port(addr@),
{
    let n: usize = addr.unicode_len();
    let mut yes: bool = false;
    let mut i: usize = 0;
    while i < n
        invariant
            i <= n == addr@.len(),
            yes == names_port(addr@.take(i as int)),
        decreases n - i,
    {
        let c: char = addr.get_char(i);
        proof {
            lemma_names_port(addr@.take(i as int), c);
            assert(addr@.take(i + 1) =~= addr@.take(i as int).push(c));
        }
        if c == ':' {
            yes = true;
        } else if c == ']' {
            yes = false;
        }
        i = i + 1;
    }
    assert(addr@.take(n as int) =~= addr@);
    yes
}

/// Where to publish, and what: everything a dialer needs to open a connection
/// and publish again after a dropped one.
#[derive(Debug)]
pub struct RtmpConnector {
    /// `"host[:port]"`; the default RTMP port applies when it is omitted.
    pub addr: String,
    /// App, stream key and URL.
    pub config: RtmpConfig,
}

impl RtmpConnector {
    /// Publish to `addr` (`"host[:port]"`, default RTMP port applies when
    /// omitted) with the given app/stream-key config.
    pub fn tcp(addr: &str, config: RtmpConfig) -> (c: Self)
        ensures
            c.addr@ == addr@,
            c.config == config,
    {
        RtmpConnector { addr: addr.to_owned(), config }
    }

    /// The address to dial, with its port.
    pub fn endpoint(&self) -> (addr: String)
        ensures
            addr@ == endpoint_of(self.addr@),
    {
        let mut out: String = self.addr.clone();
        if !has_port(self.addr.as_str()) {
            out.append(":");
            append_decimal(&mut out, DEFAULT_PORT as u64);
        }
        out
    }
}

// ---------------------------------------------------------------------------
// The dialogue
// ---------------------------------------------------------------------------

/// The `connect` command.
pub open spec fn connect_command(app: Seq<char>, tc_url: Seq<char>) -> Seq<u8> {
    scalar_bytes(ValView::String("connect"@)) + scalar_bytes(ValView::Number(double_of(1) as u64))
        + object_bytes(
        seq![
            ("app"@, ValView::String(app)),
            ("flashVer"@, ValView::String("FMLE/3.0 (compatible; FMSc/1.0)"@)),
            ("tcUrl"@, ValView::String(tc_url)),
            ("fpad"@, ValView::Boolean(false)),
            ("capabilities"@, ValView::Number(double_of(15) as u64)),
            ("audioCodecs"@, ValView::Number(double_of(4071) as u64)),
            ("videoCodecs"@, ValView::Number(double_of(252) as u64)),
            ("videoFunction"@, ValView::Number(double_of(1) as u64)),
        ],
    )
}

/// The `createStream` command.
pub open spec fn create_stream_command() -> Seq<u8> {
    scalar_bytes(ValView::String("createStream"@)) + scalar_bytes(
        ValView::Number(double_of(2) as u64),
    ) + scalar_bytes(ValView::Null)
}

/// A command about a published stream: `publish` or `FCUnpublish`.
pub open spec fn stream_command(name: Seq<char>, txn: nat, key: Seq<char>) -> Seq<u8> {
    scalar_bytes(ValView::String(name)) + scalar_bytes(ValView::Number(double_of(txn) as u64))
        + scalar_bytes(ValView::Null) + scalar_bytes(ValView::String(key)) + scalar_bytes(
        ValView::String("live"@),
    )
}

/// The `closeStream` command.
pub open spec fn close_stream_command() -> Seq<u8> {
    scalar_bytes(ValView::String("closeStream"@)) + scalar_bytes(
        ValView::Number(double_of(5) as u64),
    ) + scalar_bytes(ValView::Null)
}

/// Why a publish did not come about.
pub enum Failure {
    /// The server stopped talking.
    Ended,
    /// The server speaks another version.
    BadVersion(u8),
    /// The server asked for a chunk size of zero.
    BadChunkSize,
    /// The server answered `_error` to the named command.
    Refused(Seq<char>, Seq<ValView>),
    /// No `_result` for the named command came.
    Unanswered(Seq<char>),
    /// The `_result` of `createStream` holds no stream id.
    NoStreamId,
    /// The `onStatus` says no.
    NotPublished(Seq<ValView>),
    /// No `onStatus` came.
    NoStatus,
}

/// A failure in words; `None` where the words are the source's own.
pub open spec fn failure_text(f: Failure) -> Option<Seq<char>> {
    match f {
        Failure::Ended => None,
        Failure::BadVersion(v) => Some("server offered RTMP version "@ + decimal(v as nat)),
        Failure::BadChunkSize => Some("peer set chunk size to 0"@),
        Failure::Refused(op, vals) => Some(
            "server rejected `"@ + op + "`: "@ + info_text(vals, "code"@) + ": "@ + info_text(
                vals,
                "description"@,
            ),
        ),
        Failure::Unanswered(op) => Some("no `_result` for `"@ + op + "` after 64 messages"@),
        Failure::NoStreamId => Some("no stream id in createStream _result"@),
        Failure::NotPublished(vals) => Some(
            "server refused publish: "@ + info_text(vals, "code"@) + " ("@ + info_text(
                vals,
                "level"@,
            ) + "): "@ + info_text(vals, "description"@),
        ),
        Failure::NoStatus => Some("no `onStatus` for publish after 64 messages"@),
    }
}

/// True if `e` reports failure `f` of a connection that ends with `ending`.
pub open spec fn reports(e: IoError, f: Failure, ending: IoErrorKind) -> bool {
    match failure_text(f) {
        None => e.kind == ending,
        Some(text) => e.kind == IoErrorKind::InvalidData && e.message@ == text,
    }
}

/// What waiting for a reply gives.
pub enum Reply {
    /// The reply's values.
    Answer(LinkView, Seq<ValView>),
    /// It failed, after these bytes had been sent.
    Failed(Failure, Seq<u8>),
}

/// The `_result` for transaction `txn`, among the next `n` commands; an
/// `_error` refuses the command `op`.
pub open spec fn awaited(l: LinkView, n: nat, op: Seq<char>, txn: u64) -> Reply
    decreases n,
{
    if n == 0 {
        Reply::Failed(Failure::Unanswered(op), l.out)
    } else {
        match next_command(l, None) {
            CommandView::Ended(out) => Reply::Failed(Failure::Ended, out),
            CommandView::BadChunkSize(out) => Reply::Failed(Failure::BadChunkSize, out),
            CommandView::Exhausted(out) => Reply::Failed(Failure::Ended, out),
            CommandView::Command(l2, vals) => if command_name(vals) == "_result"@ && transaction(
                vals,
            ) == Some(txn) {
                Reply::Answer(l2, vals)
            } else if command_name(vals) == "_error"@ {
                Reply::Failed(Failure::Refused(op, vals), l2.out)
            } else {
                awaited(l2, (n - 1) as nat, op, txn)
            },
        }
    }
}

/// The `onStatus` that confirms (or refuses) the publish, among the next `n`
/// commands.
pub open spec fn publish_status(l: LinkView, n: nat) -> Reply
    decreases n,
{
    if n == 0 {
        Reply::Failed(Failure::NoStatus, l.out)
    } else {
        match next_command(l, None) {
            CommandView::Ended(out) => Reply::Failed(Failure::Ended, out),
            CommandView::BadChunkSize(out) => Reply::Failed(Failure::BadChunkSize, out),
            CommandView::Exhausted(out) => Reply::Failed(Failure::Ended, out),
            CommandView::Command(l2, vals) => if command_name(vals) == "onStatus"@ {
                if "NetStream.Publish.Start"@.is_prefix_of(info_text(vals, "code"@)) {
                    Reply::Answer(l2, vals)
                } else {
                    Reply::Failed(Failure::NotPublished(vals), l2.out)
                }
            } else if command_name(vals) == "_error"@ {
                Reply::Failed(Failure::Refused("publish"@, vals), l2.out)
            } else {
                publish_status(l2, (n - 1) as nat)
            },
        }
    }
}

/// The stream id that a `createStream` reply grants: its fourth value.
pub open spec fn granted_stream(vals: Seq<ValView>) -> Option<u32> {
    if vals.len() > 3 {
        match vals[3] {
            ValView::Number(n) => unsigned_value(n as int),
            _ => None,
        }
    } else {
        None
    }
}

/// What an attempt to publish gives.
pub enum Publish {
    /// The connection, ready for media on this stream.
    Done(LinkView, u32),
    /// It failed, after these bytes had been sent.
    Failed(Failure, Seq<u8>),
}

/// The connection behind the handshake: version and C1 go out, the server's
/// version, S1 and S2 come in, and C2 answers S1. A handshake that fails does
/// so before C2.
pub open spec fn greeted(l: LinkView, time: u32) -> Result<LinkView, Failure> {
    if l.input.len() < 1 {
        Err(Failure::Ended)
    } else if l.input[0] != 3 {
        Err(Failure::BadVersion(l.input[0]))
    } else if l.input.len() < 3073 {
        Err(Failure::Ended)
    } else {
        Ok(
            LinkView {
                input: l.input.skip(3073),
                out: l.out + seq![3u8] + plain_block(time) + c2_for(l.input.subrange(1, 1537)),
                ..l
            },
        )
    }
}

/// The whole dialogue: handshake, chunk size, `connect`, `createStream`,
/// `publish`.
pub open spec fn dialogue(
    start: LinkView,
    time: u32,
    app: Seq<char>,
    key: Seq<char>,
    tc_url: Seq<char>,
) -> Publish {
    match greeted(start, time) {
        Err(f) => Publish::Failed(f, start.out + seq![3u8] + plain_block(time)),
        Ok(l) => after_greeting(l, app, key, tc_url),
    }
}

/// The dialogue behind the handshake.
pub open spec fn after_greeting(
    l: LinkView,
    app: Seq<char>,
    key: Seq<char>,
    tc_url: Seq<char>,
) -> Publish {
    let asked = l.announced().sent(
        CID_COMMAND,
        MSG_AMF0_COMMAND,
        0,
        0,
        connect_command(app, tc_url),
    );
    match awaited(asked, 64, "connect"@, double_of(1) as u64) {
        Reply::Failed(f, out) => Publish::Failed(f, out),
        Reply::Answer(connected, _) => after_connect(connected, key),
    }
}

/// The dialogue behind `connect`.
pub open spec fn after_connect(l: LinkView, key: Seq<char>) -> Publish {
    let asked = l.sent(CID_COMMAND, MSG_AMF0_COMMAND, 0, 0, create_stream_command());
    match awaited(asked, 64, "createStream"@, double_of(2) as u64) {
        Reply::Failed(f, out) => Publish::Failed(f, out),
        Reply::Answer(created, vals) => match granted_stream(vals) {
            None => Publish::Failed(Failure::NoStreamId, created.out),
            Some(sid) => {
                let named = created.sent(
                    CID_COMMAND,
                    MSG_AMF0_COMMAND,
                    sid,
                    0,
                    stream_command("publish"@, 3, key),
                );
                match publish_status(named, 64) {
                    Reply::Failed(f, out) => Publish::Failed(f, out),
                    Reply::Answer(ready, _) => Publish::Done(ready, sid),
                }
            },
        },
    }
}

// ---------------------------------------------------------------------------
// Media
// ---------------------------------------------------------------------------

/// The message that carries a tag: chunk stream, type and payload. Metadata
/// becomes `@setDataFrame("onMetaData", ...)`; a tag of another type, or a
/// script without content, becomes nothing.
pub open spec fn tag_message(tag: TagView) -> Option<(u8, u8, Seq<u8>)> {
    let body = tag.body;
    if tag.kind == MSG_VIDEO {
        Some((CID_VIDEO, MSG_VIDEO, body))
    } else if tag.kind == MSG_AUDIO {
        Some((CID_AUDIO, MSG_AUDIO, body))
    } else if tag.kind == TAG_SCRIPT && body.len() > 3 && body[0] == 2 && body.len() > 3
        + from_be16(body.skip(1)) {
        Some(
            (
                CID_COMMAND,
                MSG_AMF0_DATA,
                scalar_bytes(ValView::String("@setDataFrame"@)) + scalar_bytes(
                    ValView::String("onMetaData"@),
                ) + body.skip(3 + from_be16(body.skip(1))),
            ),
        )
    } else {
        None
    }
}

/// The connection once a tag has been published on stream `pid`.
pub open spec fn with_tag(l: LinkView, pid: u32, tag: TagView) -> LinkView {
    match tag_message(tag) {
        Some((cid, mtype, payload)) => l.sent(cid, mtype, pid, tag.ts, payload),
        None => l,
    }
}

/// The connection once a run of tags has been published.
pub open spec fn with_tags(l: LinkView, pid: u32, tags: Seq<TagView>) -> LinkView
    decreases tags.len(),
{
    if tags.len() == 0 {
        l
    } else {
        with_tags(with_tag(l, pid, tags.first()), pid, tags.drop_first())
    }
}

proof fn lemma_with_tags_push(l: LinkView, pid: u32, tags: Seq<TagView>, tag: TagView)
    ensures
        with_tags(l, pid, tags.push(tag)) == with_tag(with_tags(l, pid, tags), pid, tag),
    decreases tags.len(),
{
    let all = tags.push(tag);
    if tags.len() == 0 {
        assert(all.drop_first() =~= Seq::<TagView>::empty());
        assert(all.first() == tag);
        let one = with_tag(l, pid, tag);
        assert(with_tags(one, pid, all.drop_first()) == one);
    } else {
        assert(all.first() == tags.first());
        assert(all.drop_first() =~= tags.drop_first().push(tag));
        lemma_with_tags_push(with_tag(l, pid, tags.first()), pid, tags.drop_first(), tag);
    }
}

/// True if `now` is the connection after a run of tags that broke off: those in
/// front of some tag that goes out have been published, and of that one a part
/// at most.
pub open spec fn publishing_broke(l: LinkView, pid: u32, tags: Seq<TagView>, now: LinkView) -> bool {
    exists|k: int|
        0 <= k < tags.len() && tag_message(tags[k]) is Some && (#[trigger] with_tags(
            l,
            pid,
            tags.take(k),
        )).send_failed(now)
}

/// How many of the tags go out as messages.
pub open spec fn outgoing(tags: Seq<TagView>) -> nat
    decreases tags.len(),
{
    if tags.len() == 0 {
        0
    } else {
        let rest = outgoing(tags.drop_first());
        if tag_message(tags.first()) is Some {
            rest + 1
        } else {
            rest
        }
    }
}

/// The round-trip time of a ping that went out at one time and was answered at
/// another, in nanoseconds.
pub open spec fn round_trip_of(sent_ns: u64, now_ns: u64) -> u64 {
    if now_ns > sent_ns {
        (now_ns - sent_ns) as u64
    } else {
        0
    }
}

/// The connection once the answer to a ping with this stamp has come in, among
/// the next `n` messages; other control messages are dealt with.
pub open spec fn pinged(l: LinkView, n: nat, stamp: u32) -> Option<LinkView>
    decreases n,
{
    if n == 0 {
        None
    } else {
        match l.received() {
            None => None,
            Some((l2, m)) => if is_ping_response(m, stamp) {
                Some(l2)
            } else {
                match l2.controlled(m) {
                    None => None,
                    Some(l3) => pinged(l3, (n - 1) as nat, stamp),
                }
            },
        }
    }
}

/// Everything that has been sent when the answer to a ping with this stamp has
/// come in, or will not come any more.
pub open spec fn ping_out(l: LinkView, n: nat, stamp: u32) -> Seq<u8>
    decreases n,
{
    if n == 0 {
        l.out
    } else {
        match l.received() {
            None => l.out,
            Some((l2, m)) => if is_ping_response(m, stamp) {
                l2.out
            } else {
                match l2.controlled(m) {
                    None => l2.out,
                    Some(l3) => ping_out(l3, (n - 1) as nat, stamp),
                }
            },
        }
    }
}

/// True of the answer to a ping with this stamp.
pub open spec fn is_ping_response(m: MessageView, stamp: u32) -> bool {
    m.mtype == MSG_USER_CONTROL && m.payload.len() >= 6 && from_be16(m.payload)
        == UCM_PING_RESPONSE && from_be32(m.payload.skip(2)) == stamp
}

// ---------------------------------------------------------------------------
// Carrying it out
// ---------------------------------------------------------------------------

fn invalid(message: String) -> (e: IoError)
    ensures
        e.kind == IoErrorKind::InvalidData,
        e.message == message,
{
    IoError { kind: IoErrorKind::InvalidData, message }
}

/// Append a field of the info object, if it is there.
fn append_info(out: &mut String, vals: &[Val], key: &str)
    ensures
        final(out)@ == old(out)@ + info_text(items_view(vals@), key@),
{
    match info(vals, key) {
        Some(s) => {
            out.append(s);
        },
        None => {
            assert(out@ =~= old(out)@ + Seq::<char>::empty());
        },
    }
}

/// Turn an AMF0 `_error` reply into a descriptive failure.
fn command_error(op: &str, vals: &[Val]) -> (e: IoError)
    ensures
        forall|ending: IoErrorKind| #[trigger]
            reports(e, Failure::Refused(op@, items_view(vals@)), ending),
{
    let mut out: String = "server rejected `".to_owned();
    out.append(op);
    out.append("`: ");
    append_info(&mut out, vals, "code");
    out.append(": ");
    append_info(&mut out, vals, "description");
    invalid(out)
}

/// Turn a refusing `onStatus` into a descriptive failure.
fn status_error(vals: &[Val]) -> (e: IoError)
    ensures
        forall|ending: IoErrorKind| #[trigger]
            reports(e, Failure::NotPublished(items_view(vals@)), ending),
{
    let mut out: String = "server refused publish: ".to_owned();
    append_info(&mut out, vals, "code");
    out.append(" (");
    append_info(&mut out, vals, "level");
    out.append("): ");
    append_info(&mut out, vals, "description");
    invalid(out)
}

/// The handshake.
fn greet<R: Source, W: Sink>(link: &mut Link<R, W>, time: u32) -> (r: Result<(), IoError>)
    ensures
        r is Ok ==> greeted(old(link)@, time) == Ok::<LinkView, Failure>(final(link)@),
        r is Ok ==> final(link)@.ending == old(link)@.ending,
        old(link).steady() ==> final(link).steady() && match greeted(old(link)@, time) {
            Ok(_) => r is Ok,
            Err(f) => (r matches Err(e) && reports(e, f, old(link)@.ending)) && final(link)@.out
                == old(link)@.out + seq![3u8] + plain_block(time),
        },
{
    let ghost start = link@;
    let (version, c1): (u8, Vec<u8>) = handshake::build_c1_simple(time);
    let mut hello: Vec<u8> = Vec::new();
    hello.push(version);
    link.write_raw(hello.as_slice())?;
    assert(hello@ =~= seq![3u8]);
    link.write_raw(c1.as_slice())?;
    link.flush()?;
    let s0: Vec<u8> = link.read_raw(1)?;
    if s0[0] != 3 {
        let mut out: String = "server offered RTMP version ".to_owned();
        append_decimal(&mut out, s0[0] as u64);
        return Err(invalid(out));
    }
    let s1: Vec<u8> = link.read_raw(1536)?;
    let _s2: Vec<u8> = link.read_raw(1536)?;
    proof {
        bytes::lemma_skip_skip(start.input, 1, 1536);
        bytes::lemma_skip_skip(start.input, 1537, 1536);
        assert(s1@ =~= start.input.subrange(1, 1537));
    }
    let c2: Vec<u8> = handshake::build_c2(s1.as_slice());
    link.write_raw(c2.as_slice())?;
    link.flush()?;
    assert(link@ == greeted(start, time)->Ok_0);
    Ok(())
}

/// Drain messages until the `_result` matching transaction `txn` arrives.
/// Control traffic (chunk size, ack windows, pings) is handled en passant;
/// async notifications are skipped. `_error` becomes a descriptive failure
/// carrying the server's code/description; so does never getting an answer.
fn await_result<R: Source, W: Sink>(link: &mut Link<R, W>, op: &str, txn: u64) -> (r: Result<
    Vec<Val>,
    IoError,
>)
    ensures
        r matches Ok(vals) ==> awaited(old(link)@, 64, op@, txn) == Reply::Answer(
            final(link)@,
            items_view(vals@),
        ),
        r is Ok ==> final(link)@.ending == old(link)@.ending,
        old(link).steady() ==> final(link).steady() && match awaited(old(link)@, 64, op@, txn) {
            Reply::Answer(_, _) => r is Ok,
            Reply::Failed(f, out) => (r matches Err(e) && reports(e, f, old(link)@.ending))
                && final(link)@.out == out,
        },
{
    let mut left: usize = MAX_PENDING_MESSAGES;
    while left > 0
        invariant
            left <= 64,
            link@.ending == old(link)@.ending,
            old(link).steady() ==> link.steady(),
            awaited(old(link)@, 64, op@, txn) == awaited(link@, left as nat, op@, txn),
        decreases left,
    {
        proof {
            lemma_found_named(link@, None);
        }
        let vals: Vec<Val> = link.read_command(None)?;
        proof {
            lemma_items(vals@);
        }
        if is_named(vals.as_slice(), "_result") {
            if txn_of(vals.as_slice()) == Some(txn) {
                return Ok(vals);
            }
            proof {
                reveal_strlit("_result");
                reveal_strlit("_error");
                assert("_result"@.len() != "_error"@.len());
            }
        } else if is_named(vals.as_slice(), "_error") {
            return Err(command_error(op, vals.as_slice()));
        }
        left = left - 1;
    }
    let mut out: String = "no `_result` for `".to_owned();
    out.append(op);
    out.append("` after 64 messages");
    Err(invalid(out))
}

/// A command that was found begins with its name; without a limit the search
/// only ends with the connection.
proof fn lemma_found_named(l: LinkView, limit: Option<nat>)
    ensures
        next_command(l, limit) matches CommandView::Command(_, vals) ==> vals.len() > 0
            && vals[0] is String,
        limit is None ==> !(next_command(l, limit) is Exhausted),
    decreases l.input.len(),
{
    if limit != Some(0nat) {
        let less = match limit {
            Some(n) => Some((n - 1) as nat),
            None => None,
        };
        lemma_received_shrinks(l);
        if let Some((l2, m)) = l.received() {
            lemma_found_named(l2, less);
            if let Some(l3) = l2.controlled(m) {
                if l3.input.len() < l.input.len() {
                    lemma_found_named(l3, less);
                }
            }
        }
    }
}

/// Wait for the `onStatus` that confirms (or refuses) the publish.
fn await_publish_status<R: Source, W: Sink>(link: &mut Link<R, W>) -> (r: Result<(), IoError>)
    ensures
        r is Ok ==> (publish_status(old(link)@, 64) matches Reply::Answer(l, _) && l
            == final(link)@),
        r is Ok ==> final(link)@.ending == old(link)@.ending,
        old(link).steady() ==> final(link).steady() && match publish_status(old(link)@, 64) {
            Reply::Answer(_, _) => r is Ok,
            Reply::Failed(f, out) => (r matches Err(e) && reports(e, f, old(link)@.ending))
                && final(link)@.out == out,
        },
{
    let mut left: usize = MAX_PENDING_MESSAGES;
    while left > 0
        invariant
            left <= 64,
            link@.ending == old(link)@.ending,
            old(link).steady() ==> link.steady(),
            publish_status(old(link)@, 64) == publish_status(link@, left as nat),
        decreases left,
    {
        proof {
            lemma_found_named(link@, None);
        }
        let vals: Vec<Val> = link.read_command(None)?;
        proof {
            lemma_items(vals@);
        }
        if is_named(vals.as_slice(), "onStatus") {
            let started: bool = match info(vals.as_slice(), "code") {
                Some(code) => begins_with(code, "NetStream.Publish.Start"),
                None => {
                    proof {
                        reveal_strlit("NetStream.Publish.Start");
                    }
                    false
                },
            };
            if started {
                return Ok(());
            }
            return Err(status_error(vals.as_slice()));
        } else if is_named(vals.as_slice(), "_error") {
            return Err(command_error("publish", vals.as_slice()));
        }
        left = left - 1;
    }
    Err(invalid("no `onStatus` for publish after 64 messages".to_owned()))
}

fn connect_app<R: Source, W: Sink>(link: &mut Link<R, W>, app: &str, tc_url: &str) -> (r: Result<
    (),
    IoError,
>)
    ensures
        ({
            let reply = awaited(
                old(link)@.sent(
                    CID_COMMAND,
                    MSG_AMF0_COMMAND,
                    0,
                    0,
                    connect_command(app@, tc_url@),
                ),
                64,
                "connect"@,
                double_of(1) as u64,
            );
            &&& r is Ok ==> (reply matches Reply::Answer(l, _) && l == final(link)@)
            &&& old(link).steady() ==> final(link).steady() && match reply {
                Reply::Answer(_, _) => r is Ok,
                Reply::Failed(f, out) => (r matches Err(e) && reports(e, f, old(link)@.ending))
                && final(link)@.out == out,
            }
        }),
        r is Ok ==> final(link)@.ending == old(link)@.ending,
{
    let one: u64 = double_bits(1);
    let fields: [(&str, ObjVal<'_>); 8] = [
        ("app", ObjVal::Str(app)),
        ("flashVer", ObjVal::Str("FMLE/3.0 (compatible; FMSc/1.0)")),
        ("tcUrl", ObjVal::Str(tc_url)),
        ("fpad", ObjVal::Bool(false)),
        ("capabilities", ObjVal::Num(double_bits(15))),
        ("audioCodecs", ObjVal::Num(double_bits(4071))),
        ("videoCodecs", ObjVal::Num(double_bits(252))),
        ("videoFunction", ObjVal::Num(one)),
    ];
    assert(object_fields(fields@) =~= seq![
        ("app"@, ValView::String(app@)),
        ("flashVer"@, ValView::String("FMLE/3.0 (compatible; FMSc/1.0)"@)),
        ("tcUrl"@, ValView::String(tc_url@)),
        ("fpad"@, ValView::Boolean(false)),
        ("capabilities"@, ValView::Number(double_of(15) as u64)),
        ("audioCodecs"@, ValView::Number(double_of(4071) as u64)),
        ("videoCodecs"@, ValView::Number(double_of(252) as u64)),
        ("videoFunction"@, ValView::Number(double_of(1) as u64)),
    ]);
    let mut w: Writer = Writer::new();
    w.string("connect");
    w.number(one);
    w.object(fields.as_slice());
    let command: Vec<u8> = w.into_bytes();
    assert(command@ =~= connect_command(app@, tc_url@));
    link.send_message(CID_COMMAND, MSG_AMF0_COMMAND, 0, 0, command.as_slice())?;
    let _reply: Vec<Val> = await_result(link, "connect", one)?;
    Ok(())
}

fn create_stream<R: Source, W: Sink>(link: &mut Link<R, W>) -> (r: Result<u32, IoError>)
    ensures
        ({
            let reply = awaited(
                old(link)@.sent(CID_COMMAND, MSG_AMF0_COMMAND, 0, 0, create_stream_command()),
                64,
                "createStream"@,
                double_of(2) as u64,
            );
            &&& r matches Ok(sid) ==> (reply matches Reply::Answer(l, vals) && l == final(link)@
                && granted_stream(vals) == Some(sid))
            &&& old(link).steady() ==> final(link).steady() && match reply {
                Reply::Answer(l, vals) => match granted_stream(vals) {
                    Some(_) => r is Ok,
                    None => (r matches Err(e) && reports(
                        e,
                        Failure::NoStreamId,
                        old(link)@.ending,
                    )) && final(link)@.out == l.out,
                },
                Reply::Failed(f, out) => (r matches Err(e) && reports(e, f, old(link)@.ending))
                && final(link)@.out == out,
            }
        }),
        r is Ok ==> final(link)@.ending == old(link)@.ending,
{
    let two: u64 = double_bits(2);
    let mut w: Writer = Writer::new();
    w.string("createStream");
    w.number(two);
    w.null();
    let command: Vec<u8> = w.into_bytes();
    assert(command@ =~= create_stream_command());
    link.send_message(CID_COMMAND, MSG_AMF0_COMMAND, 0, 0, command.as_slice())?;
    let vals: Vec<Val> = await_result(link, "createStream", two)?;
    proof {
        lemma_items(vals@);
    }
    if vals.len() > 3 {
        if let Val::Number(n) = &vals[3] {
            if let Some(sid) = double_to_u32(*n) {
                return Ok(sid);
            }
        }
    }
    Err(invalid("no stream id in createStream _result".to_owned()))
}

/// Encode `publish` or `FCUnpublish`.
fn encode_stream_command(name: &str, txn: u32, key: &str) -> (out: Vec<u8>)
    ensures
        out@ == stream_command(name@, txn as nat, key@),
{
    let mut w: Writer = Writer::new();
    w.string(name);
    w.number(double_bits(txn));
    w.null();
    w.string(key);
    w.string("live");
    let out: Vec<u8> = w.into_bytes();
    assert(out@ =~= stream_command(name@, txn as nat, key@));
    out
}

fn do_publish<R: Source, W: Sink>(link: &mut Link<R, W>, sid: u32, key: &str) -> (r: Result<
    (),
    IoError,
>)
    ensures
        ({
            let reply = publish_status(
                old(link)@.sent(
                    CID_COMMAND,
                    MSG_AMF0_COMMAND,
                    sid,
                    0,
                    stream_command("publish"@, 3, key@),
                ),
                64,
            );
            &&& r is Ok ==> (reply matches Reply::Answer(l, _) && l == final(link)@)
            &&& old(link).steady() ==> final(link).steady() && match reply {
                Reply::Answer(_, _) => r is Ok,
                Reply::Failed(f, out) => (r matches Err(e) && reports(e, f, old(link)@.ending))
                && final(link)@.out == out,
            }
        }),
        r is Ok ==> final(link)@.ending == old(link)@.ending,
{
    let command: Vec<u8> = encode_stream_command("publish", 3, key);
    link.send_message(CID_COMMAND, MSG_AMF0_COMMAND, sid, 0, command.as_slice())?;
    await_publish_status(link)
}

/// Perform the full publish handshake over a connection and give the message
/// stream that was granted. Nothing is sent behind the command that failed: a
/// server that refuses the `connect` is never sent a `createStream`.
pub fn publish_over<R: Source, W: Sink>(
    link: &mut Link<R, W>,
    cfg: &RtmpConfig,
    time: u32,
) -> (r: Result<u32, IoError>)
    ensures
        ({
            let outcome = dialogue(old(link)@, time, cfg.app@, cfg.key@, cfg.tc_url@);
            &&& r matches Ok(sid) ==> outcome == Publish::Done(final(link)@, sid)
            &&& old(link).steady() ==> final(link).steady() && match outcome {
                Publish::Done(_, _) => r is Ok,
                Publish::Failed(f, out) => (r matches Err(e) && reports(e, f, old(link)@.ending))
                    && final(link)@.out == out,
            }
        }),
{
    greet(link, time)?;
    // Tell the server to expect larger chunks. Sent right after the handshake,
    // before the first command. The *inbound* reader stays at the 128-byte
    // protocol default: the peer decides when to switch its own chunking and
    // says so via an inbound Set Chunk Size control message. Assuming the peer
    // has already switched is what breaks against real servers (e.g. YouTube)
    // that keep 128-byte chunks for the early control plane.
    link.announce_chunk_size()?;
    connect_app(link, cfg.app.as_str(), cfg.tc_url.as_str())?;
    let sid: u32 = create_stream(link)?;
    do_publish(link, sid, cfg.key.as_str())?;
    Ok(sid)
}

/// The round-trip time of a ping that went out at one time and was answered at
/// another, in nanoseconds.
pub fn round_trip_time(sent_ns: u64, now_ns: u64) -> (ns: u64)
    ensures
        ns == round_trip_of(sent_ns, now_ns),
{
    if now_ns > sent_ns {
        now_ns - sent_ns
    } else {
        0
    }
}

/// RTMP transport over the two directions of a connection, so tests can inject
/// bytes in memory instead of a real socket.
pub struct RtmpTransport<R: Source, W: Sink> {
    link: Link<R, W>,
    flv: FlvTagParser,
    pid: u32,
    key: String,
    clock: Clock,
    /// When bytes last went out successfully or a message came in.
    last_activity: u64,
    /// How often that has been noted.
    noted: Ghost<nat>,
    rtt: Option<u64>,
    fed: Ghost<Seq<u8>>,
    faults: Ghost<Faults>,
    /// The log records that wait to be delivered.
    book: LogBook,
}

impl<R: Source, W: Sink> RtmpTransport<R, W> {
    /// The connection.
    pub closed spec fn spec_link(&self) -> LinkView {
        self.link@
    }

    /// True if everything that is sent is accepted.
    pub closed spec fn steady(&self) -> bool {
        self.link.steady()
    }

    /// The message stream that media goes out on.
    pub closed spec fn spec_pid(&self) -> u32 {
        self.pid
    }

    /// The stream key.
    pub closed spec fn spec_key(&self) -> Seq<char> {
        self.key@
    }

    /// Where the FLV parser stands.
    pub closed spec fn spec_phase(&self) -> FlvPhase {
        self.flv.spec_phase()
    }

    /// FLV bytes that do not make a tag yet.
    pub closed spec fn buffered(&self) -> Seq<u8> {
        self.flv.buffered()
    }

    /// The log records that wait to be delivered.
    pub closed spec fn spec_book(&self) -> BookView {
        self.book@
    }

    /// How often progress has been noted since the connection was made: once for
    /// each message that went out, and once for each that came in.
    pub closed spec fn spec_noted(&self) -> nat {
        self.noted@
    }

    /// True if the reported progress is that of `before` unless progress has been
    /// noted since.
    pub open spec fn in_time(&self, before: &Self) -> bool {
        &&& self.spec_noted() >= before.spec_noted()
        &&& self.spec_noted() == before.spec_noted() ==> self.progress() == before.progress()
    }

    /// True if no progress has been noted since `before`.
    pub open spec fn idle_since(&self, before: &Self) -> bool {
        self.spec_noted() == before.spec_noted() && self.progress() == before.progress()
    }

    /// Keep log records up to this level, and no others; `None` keeps none.
    pub fn set_log_level(&mut self, max: Option<Level>)
        ensures
            final(self).spec_link() == old(self).spec_link(),
            final(self).steady() == old(self).steady(),
            final(self).written() == old(self).written(),
            final(self).spec_pid() == old(self).spec_pid(),
            final(self).spec_key() == old(self).spec_key(),
            final(self).spec_phase() == old(self).spec_phase(),
            final(self).buffered() == old(self).buffered(),
            final(self).idle_since(old(self)),
            final(self).round_trip() == old(self).round_trip(),
            final(self).spec_book() == (BookView { max, ..old(self).spec_book() }),
    {
        self.book.set_level(max);
    }

    /// The log records to deliver, in the order in which they came.
    pub fn take_records(&mut self) -> (records: Vec<Entry>)
        ensures
            final(self).spec_link() == old(self).spec_link(),
            final(self).steady() == old(self).steady(),
            final(self).written() == old(self).written(),
            final(self).spec_pid() == old(self).spec_pid(),
            final(self).spec_key() == old(self).spec_key(),
            final(self).spec_phase() == old(self).spec_phase(),
            final(self).buffered() == old(self).buffered(),
            final(self).idle_since(old(self)),
            final(self).round_trip() == old(self).round_trip(),
            entry_views(records@) == old(self).spec_book().records,
            final(self).spec_book() == (BookView {
                records: Seq::empty(),
                ..old(self).spec_book()
            }),
    {
        self.book.take()
    }

    /// The message stream that media goes out on.
    pub fn pid(&self) -> (pid: u32)
        ensures
            pid == self.spec_pid(),
    {
        self.pid
    }

    /// Give the outbound direction of the connection back.
    pub fn into_sink(self) -> (sink: W)
        ensures
            sink.written() == self.spec_link().out,
    {
        self.link.into_sink()
    }

    /// The transport over a connection on which the publish dialogue ended at
    /// `now_ns`.
    fn ready(link: Link<R, W>, key: String, sid: u32, clock: Clock, now_ns: u64) -> (t: Self)
        ensures
            t.spec_link() == link@,
            t.steady() == link.steady(),
            t.spec_pid() == sid,
            t.spec_key() == key@,
            t.spec_phase() == FlvPhase::Header,
            t.buffered() == Seq::<u8>::empty(),
            t.written() == Seq::<u8>::empty(),
            t.round_trip() is None,
            t.progress() == Some(now_ns),
            t.spec_noted() == 0,
            t.spec_book() == BookView::closed(),
    {
        RtmpTransport {
            link,
            flv: FlvTagParser::new(),
            pid: sid,
            key,
            clock,
            last_activity: now_ns,
            noted: Ghost(0),
            rtt: None,
            fed: Ghost(Seq::empty()),
            faults: Ghost(Faults::none()),
            book: LogBook::new(),
        }
    }

    /// Perform the full publish handshake over a connection, then return a
    /// ready transport. `time` is the current Unix time in seconds; progress is
    /// reported on `clock`.
    pub fn connect(source: R, sink: W, cfg: &RtmpConfig, time: u32, clock: Clock) -> (r: Result<
        Self,
        IoError,
    >)
        ensures
            ({
                let start = LinkView {
                    reader: ReaderView::fresh(),
                    input: source.input(),
                    ending: source.ending(),
                    out: sink.written(),
                    negotiated: false,
                    window: 0,
                    acked: 0,
                    framed: 0,
                };
                let outcome = dialogue(start, time, cfg.app@, cfg.key@, cfg.tc_url@);
                &&& r matches Ok(t) ==> {
                    &&& outcome == Publish::Done(t.spec_link(), t.spec_pid())
                    &&& t.spec_key() == cfg.key@
                    &&& t.spec_phase() == FlvPhase::Header
                    &&& t.buffered() == Seq::<u8>::empty()
                    &&& t.written() == Seq::<u8>::empty()
                    &&& t.round_trip() is None
                    &&& t.progress() is Some
                    &&& t.spec_noted() == 0
                    &&& t.spec_book() == BookView::closed()
                    &&& sink.reliable() ==> t.steady() && t.takes_flv()
                }
                &&& sink.reliable() ==> match outcome {
                    Publish::Done(_, _) => r is Ok,
                    Publish::Failed(f, _) => r matches Err(e) && reports(e, f, source.ending()),
                }
            }),
    {
        let mut link: Link<R, W> = Link::new(source, sink);
        let sid: u32 = publish_over(&mut link, cfg, time)?;
        let now_ns: u64 = clock.now_ns();
        Ok(RtmpTransport::ready(link, cfg.key.clone(), sid, clock, now_ns))
    }

    /// Note that the peer was alive at `now_ns`.
    fn touch_at(&mut self, now_ns: u64)
        ensures
            final(self).progress() == Some(now_ns),
            final(self).spec_noted() == old(self).spec_noted() + 1,
            final(self).rtt == old(self).rtt,
            final(self).link == old(self).link,
            final(self).flv == old(self).flv,
            final(self).pid == old(self).pid,
            final(self).key == old(self).key,
            final(self).fed == old(self).fed,
            final(self).faults == old(self).faults,
            final(self).book == old(self).book,
    {
        self.last_activity = now_ns;
        self.noted = Ghost(self.noted@ + 1);
    }

    /// Note that the peer is alive.
    fn touch(&mut self)
        ensures
            final(self).spec_noted() == old(self).spec_noted() + 1,
            final(self).rtt == old(self).rtt,
            final(self).link == old(self).link,
            final(self).flv == old(self).flv,
            final(self).pid == old(self).pid,
            final(self).key == old(self).key,
            final(self).fed == old(self).fed,
            final(self).faults == old(self).faults,
            final(self).book == old(self).book,
    {
        let now_ns: u64 = self.clock.now_ns();
        self.touch_at(now_ns);
    }

    /// Note that a ping which went out at `sent_ns` was answered at `now_ns`.
    fn answered_at(&mut self, sent_ns: u64, now_ns: u64)
        ensures
            final(self).round_trip() == Some(round_trip_of(sent_ns, now_ns)),
            final(self).idle_since(old(self)),
            final(self).link == old(self).link,
            final(self).flv == old(self).flv,
            final(self).pid == old(self).pid,
            final(self).key == old(self).key,
            final(self).fed == old(self).fed,
            final(self).faults == old(self).faults,
            final(self).book == old(self).book,
    {
        self.rtt = Some(round_trip_time(sent_ns, now_ns));
    }

    /// Acknowledge what has come in, where that is due.
    fn acknowledge(&mut self) -> (r: Result<(), IoError>)
        ensures
            r is Ok ==> final(self).spec_link() == old(self).spec_link().acknowledged(),
            old(self).steady() ==> r is Ok && final(self).steady(),
            final(self).in_time(old(self)),
            final(self).rtt == old(self).rtt,
            final(self).flv == old(self).flv,
            final(self).pid == old(self).pid,
            final(self).key == old(self).key,
            final(self).fed == old(self).fed,
            final(self).faults == old(self).faults,
            final(self).book == old(self).book,
    {
        let due: bool = self.link.ack_due();
        self.link.maybe_send_ack()?;
        if due {
            self.touch();
        }
        Ok(())
    }

    /// React to one protocol-control message from the server.
    fn control(&mut self, msg: &Message) -> (r: Result<(), IoError>)
        ensures
            r is Ok ==> old(self).spec_link().controlled(msg@) == Some(final(self).spec_link()),
            old(self).spec_link().controlled(msg@) is None ==> final(self).spec_link() == old(
                self,
            ).spec_link(),
            old(self).steady() ==> final(self).steady() && (r is Ok <==> old(
                self,
            ).spec_link().controlled(msg@) is Some),
            final(self).in_time(old(self)),
            final(self).rtt == old(self).rtt,
            final(self).flv == old(self).flv,
            final(self).pid == old(self).pid,
            final(self).key == old(self).key,
            final(self).fed == old(self).fed,
            final(self).faults == old(self).faults,
            final(self).book == old(self).book,
    {
        let due: bool = self.link.answer_due(msg);
        self.link.handle_control(msg)?;
        if due {
            self.touch();
        }
        Ok(())
    }

    /// Push one message out to the server.
    fn send(&mut self, cid: u8, mtype: u8, stream_id: u32, ts: u32, payload: &[u8]) -> (r: Result<
        (),
        IoError,
    >)
        ensures
            r is Ok ==> final(self).spec_link() == old(self).spec_link().sent(
                cid,
                mtype,
                stream_id,
                ts,
                payload@,
            ),
            old(self).steady() ==> r is Ok && final(self).steady(),
            r is Ok ==> final(self).spec_noted() == old(self).spec_noted() + 1,
            r is Err ==> final(self).idle_since(old(self)),
            r is Err ==> old(self).spec_link().send_failed(final(self).spec_link()),
            final(self).flv == old(self).flv,
            final(self).pid == old(self).pid,
            final(self).key == old(self).key,
            final(self).rtt == old(self).rtt,
            final(self).fed == old(self).fed,
            final(self).faults == old(self).faults,
            final(self).book == old(self).book,
    {
        self.link.send_message(cid, mtype, stream_id, ts, payload)?;
        // A successful flush is forward progress — the stall detector resets.
        self.touch();
        Ok(())
    }

    /// Convert one parsed FLV tag into the matching RTMP message.
    fn emit_tag(&mut self, mtype: u8, ts: u32, body: &[u8]) -> (r: Result<(), IoError>)
        ensures
            r is Ok ==> final(self).spec_link() == with_tag(
                old(self).spec_link(),
                old(self).pid,
                TagView { kind: mtype, ts, body: body@ },
            ),
            r is Err ==> old(self).spec_link().send_failed(final(self).spec_link())
                && tag_message(TagView { kind: mtype, ts, body: body@ }) is Some,
            old(self).steady() ==> r is Ok && final(self).steady(),
            if r is Ok && tag_message(TagView { kind: mtype, ts, body: body@ }) is Some {
                final(self).spec_noted() == old(self).spec_noted() + 1
            } else {
                final(self).idle_since(old(self))
            },
            final(self).flv == old(self).flv,
            final(self).pid == old(self).pid,
            final(self).key == old(self).key,
            final(self).rtt == old(self).rtt,
            final(self).fed == old(self).fed,
            final(self).faults == old(self).faults,
            final(self).book == old(self).book,
    {
        let pid: u32 = self.pid;
        if mtype == MSG_VIDEO {
            self.send(CID_VIDEO, MSG_VIDEO, pid, ts, body)
        } else if mtype == MSG_AUDIO {
            self.send(CID_AUDIO, MSG_AUDIO, pid, ts, body)
        } else if mtype == TAG_SCRIPT && body.len() > 3 && body[0] == 2 {
            // onMetaData -> RTMP @setDataFrame("onMetaData", ECMA-array).
            // FLV body: [0x02][u16 len]["onMetaData"][ECMA array...]; the
            // array starts right after the typed string.
            let rest: usize = 3 + bytes::read_be16(body, 1) as usize;
            if body.len() > rest {
                let mut w: Writer = Writer::new();
                w.string("@setDataFrame");
                w.string("onMetaData");
                let mut msg: Vec<u8> = w.into_bytes();
                bytes::append(&mut msg, bytes::skip(body, rest));
                assert(msg@ =~= scalar_bytes(ValView::String("@setDataFrame"@)) + scalar_bytes(
                    ValView::String("onMetaData"@),
                ) + body@.skip(rest as int));
                self.send(CID_COMMAND, MSG_AMF0_DATA, pid, ts, msg.as_slice())
            } else {
                Ok(())
            }
        } else {
            Ok(())
        }
    }

    /// Send a ping and await its answer; why there was none, if there was none.
    fn probe(&mut self, stamp: u32) -> (error: Option<String>)
        ensures
            error is None ==> final(self).round_trip() is Some,
            error is Some ==> final(self).round_trip() == old(self).round_trip(),
            error is None ==> final(self).spec_noted() > old(self).spec_noted(),
            final(self).in_time(old(self)),
            final(self).book == old(self).book,
            final(self).written() == old(self).written(),
            final(self).spec_pid() == old(self).spec_pid(),
            final(self).spec_key() == old(self).spec_key(),
            final(self).spec_phase() == old(self).spec_phase(),
            final(self).buffered() == old(self).buffered(),
            old(self).steady() ==> final(self).steady() && ({
                let asked = old(self).spec_link().sent(
                    CID_COMMAND,
                    MSG_USER_CONTROL,
                    0,
                    0,
                    be16(UCM_PING_REQUEST as int) + be32(stamp as int),
                );
                &&& final(self).spec_link().out == ping_out(asked, 64, stamp)
                &&& match pinged(asked, 64, stamp) {
                    Some(l) => final(self).round_trip() is Some && final(self).spec_link() == l,
                    None => final(self).round_trip() == old(self).round_trip(),
                }
            }),
    {
        let mut payload: Vec<u8> = Vec::new();
        bytes::append_be16(&mut payload, UCM_PING_REQUEST);
        bytes::append_be32(&mut payload, stamp);
        assert(payload@ =~= be16(UCM_PING_REQUEST as int) + be32(stamp as int));
        let sent_at: u64 = self.clock.now_ns();
        if let Err(e) = self.send(CID_COMMAND, MSG_USER_CONTROL, 0, 0, payload.as_slice()) {
            return Some(e.message);
        }
        let ghost asked = self.link@;
        let mut left: usize = MAX_PENDING_MESSAGES;
        while left > 0
            invariant
                left <= 64,
                old(self).link.steady() ==> self.link.steady() && pinged(asked, 64, stamp)
                    == pinged(self.link@, left as nat, stamp),
                old(self).link.steady() ==> ping_out(asked, 64, stamp) == ping_out(
                    self.link@,
                    left as nat,
                    stamp,
                ),
                old(self).link.steady() ==> asked == old(self).link@.sent(
                    CID_COMMAND,
                    MSG_USER_CONTROL,
                    0,
                    0,
                    be16(UCM_PING_REQUEST as int) + be32(stamp as int),
                ),
                self.flv == old(self).flv,
                self.pid == old(self).pid,
                self.key == old(self).key,
                self.rtt == old(self).rtt,
                self.fed == old(self).fed,
                self.faults == old(self).faults,
                self.book == old(self).book,
                self.noted@ > old(self).noted@,
            decreases left,
        {
            let ghost before = self.link@;
            let msg: Message = match self.link.read_next() {
                Ok(m) => m,
                Err(e) => {
                    return Some(e.message);
                },
            };
            self.touch();
            if let Err(e) = self.acknowledge() {
                return Some(e.message);
            }
            assert(before.received() == Some((self.link@, msg@)));
            if msg.mtype == MSG_USER_CONTROL && msg.payload.len() >= 6 {
                let p: &[u8] = msg.payload.as_slice();
                assert(p@.skip(0) =~= p@);
                if bytes::read_be16(p, 0) == UCM_PING_RESPONSE && bytes::read_be32(p, 2) == stamp {
                    let now_ns: u64 = self.clock.now_ns();
                    self.answered_at(sent_at, now_ns);
                    return None;
                }
            }
            if let Err(e) = self.control(&msg) {
                return Some(e.message);
            }
            left = left - 1;
        }
        Some("no ping response from server".to_owned())
    }

    /// Measure the round-trip time with a user-control ping: send a
    /// `PING_REQUEST` carrying `stamp`, await the echoed `PING_RESPONSE`, and
    /// time the exchange. Best-effort — a server that never answers leaves
    /// `rtt` unset rather than failing the connection.
    pub fn measure_rtt(&mut self, stamp: u32)
        ensures
            final(self).in_time(old(self)),
            final(self).written() == old(self).written(),
            final(self).spec_pid() == old(self).spec_pid(),
            final(self).spec_key() == old(self).spec_key(),
            final(self).spec_phase() == old(self).spec_phase(),
            final(self).buffered() == old(self).buffered(),
            old(self).steady() ==> final(self).steady() && ({
                let asked = old(self).spec_link().sent(
                    CID_COMMAND,
                    MSG_USER_CONTROL,
                    0,
                    0,
                    be16(UCM_PING_REQUEST as int) + be32(stamp as int),
                );
                &&& final(self).spec_link().out == ping_out(asked, 64, stamp)
                &&& match pinged(asked, 64, stamp) {
                    Some(l) => final(self).round_trip() is Some && final(self).spec_link() == l,
                    None => final(self).round_trip() == old(self).round_trip(),
                }
            }),
            final(self).spec_book() == match final(self).round_trip() {
                Some(ns) => old(self).spec_book().noted(
                    Level::Debug,
                    "stream::rtmp"@,
                    "rtt measured"@,
                    seq![("rtt_ms"@, FieldView::Float(millis(ns)))],
                ),
                None => final(self).spec_book(),
            },
            final(self).round_trip() is None ==> old(self).spec_book().failed_somehow(
                final(self).spec_book(),
                Level::Debug,
                "stream::rtmp"@,
                "rtt probe skipped"@,
            ),
    {
        let outcome: Option<String> = self.probe(stamp);
        match (self.rtt, outcome) {
            (Some(ns), _) => {
                let ms: u64 = in_millis(ns);
                let fields: [Field<'_>; 1] = [Field { key: "rtt_ms", value: FieldValue::Float(ms) }];
                let list: &[Field<'_>] = fields.as_slice();
                let ghost level = Level::Debug;
                assert((Record {
                    level,
                    module: "stream::rtmp",
                    message: "rtt measured",
                    fields: list,
                })@.fields =~= seq![("rtt_ms"@, FieldView::Float(millis(ns)))]);
                self.book.note(Level::Debug, "stream::rtmp", "rtt measured", list);
            },
            (None, Some(error)) => {
                self.book.fail(Level::Debug, "stream::rtmp", "rtt probe skipped", error.as_str());
            },
            (None, None) => {},
        }
    }
}

impl<R: Source, W: Sink> RtmpTransport<R, W> {
    /// Publish the tags that `data` completes.
    fn pass_on(&mut self, data: &[u8]) -> (r: Result<(), IoError>)
        ensures
            r is Ok ==> final(self).fed@ == old(self).fed@ + data@,
            r is Err ==> final(self).fed == old(self).fed,
            final(self).faults == old(self).faults,
            final(self).book == old(self).book,
            final(self).spec_pid() == old(self).spec_pid(),
            final(self).spec_key() == old(self).spec_key(),
            final(self).round_trip() == old(self).round_trip(),
            final(self).in_time(old(self)),
            ({
                let parsed = parse_tags(old(self).spec_phase(), old(self).buffered() + data@);
                &&& r is Ok ==> (parsed.tags matches Some(tags) && final(self).spec_link()
                    == with_tags(old(self).spec_link(), old(self).spec_pid(), tags)
                    && final(self).spec_noted() == old(self).spec_noted() + outgoing(tags))
                &&& r is Err ==> match parsed.tags {
                    Some(tags) => publishing_broke(
                        old(self).spec_link(),
                        old(self).spec_pid(),
                        tags,
                        final(self).spec_link(),
                    ),
                    None => final(self).spec_link() == old(self).spec_link(),
                }
                &&& final(self).spec_phase() == parsed.phase
                &&& final(self).buffered() == parsed.rest
                &&& old(self).steady() ==> final(self).steady() && match parsed.tags {
                    Some(_) => r is Ok,
                    None => r matches Err(e) && e.kind == IoErrorKind::InvalidData && e.message@
                        == "malformed FLV header"@,
                }
            }),
    {
        let tags: Vec<FlvTag> = match self.flv.feed(data) {
            Ok(tags) => tags,
            Err(e) => {
                return Err(IoError { kind: IoErrorKind::InvalidData, message: e.message() });
            },
        };
        let ghost views = tag_views(tags@);
        let ghost parser = self.flv;
        let mut i: usize = 0;
        assert(views.skip(0) =~= views);
        assert(views.take(0) =~= Seq::<TagView>::empty());
        while i < tags.len()
            invariant
                i <= tags@.len(),
                views == tag_views(tags@),
                self.flv == parser,
                self.pid == old(self).pid,
                self.key == old(self).key,
                self.rtt == old(self).rtt,
                self.fed == old(self).fed,
                self.faults == old(self).faults,
                self.book == old(self).book,
                old(self).link.steady() ==> self.link.steady(),
                self.in_time(old(self)),
                self.noted@ + outgoing(views.skip(i as int)) == old(self).noted@ + outgoing(views),
                self.link@ == with_tags(old(self).link@, self.pid, views.take(i as int)),
                parse_tags(old(self).spec_phase(), old(self).buffered() + data@).tags == Some(
                    views,
                ),
                parser.spec_phase() == parse_tags(
                    old(self).spec_phase(),
                    old(self).buffered() + data@,
                ).phase,
                parser.buffered() == parse_tags(
                    old(self).spec_phase(),
                    old(self).buffered() + data@,
                ).rest,
            decreases tags@.len() - i,
        {
            let ghost here = views.skip(i as int);
            assert(here.first() == tags@[i as int]@);
            assert(here.drop_first() =~= views.skip(i + 1));
            proof {
                lemma_with_tags_push(
                    old(self).link@,
                    self.pid,
                    views.take(i as int),
                    tags@[i as int]@,
                );
                assert(views.take(i + 1) =~= views.take(i as int).push(tags@[i as int]@));
            }
            self.emit_tag(tags[i].mtype, tags[i].ts, tags[i].body.as_slice())?;
            i = i + 1;
        }
        assert(views.take(i as int) =~= views);
        self.fed = Ghost(self.fed@ + data@);
        Ok(())
    }
}

impl<R: Source, W: Sink> Sink for RtmpTransport<R, W> {
    /// The FLV bytes that have been handed over.
    closed spec fn written(&self) -> Seq<u8> {
        self.fed@
    }

    /// Behind the FLV header, whatever comes in tags is passed on.
    open spec fn reliable(&self) -> bool {
        self.steady() && self.spec_phase() != FlvPhase::Header
    }

    /// A stream that does not begin with an FLV header is refused.
    open spec fn takes_flv(&self) -> bool {
        self.steady() && (self.spec_phase() != FlvPhase::Header || self.buffered().len() == 0)
    }

    closed spec fn faults(&self) -> Faults {
        self.faults@
    }

    fn write_all(&mut self, data: &[u8]) -> (r: Result<(), IoError>)
        ensures
            final(self).spec_book() == old(self).spec_book(),
            final(self).spec_pid() == old(self).spec_pid(),
            final(self).spec_key() == old(self).spec_key(),
            final(self).round_trip() == old(self).round_trip(),
            final(self).in_time(old(self)),
            ({
                let parsed = parse_tags(old(self).spec_phase(), old(self).buffered() + data@);
                &&& r is Ok ==> (parsed.tags matches Some(tags) && final(self).spec_link()
                    == with_tags(old(self).spec_link(), old(self).spec_pid(), tags)
                    && final(self).spec_noted() == old(self).spec_noted() + outgoing(tags))
                &&& r is Err ==> match parsed.tags {
                    Some(tags) => publishing_broke(
                        old(self).spec_link(),
                        old(self).spec_pid(),
                        tags,
                        final(self).spec_link(),
                    ),
                    None => final(self).spec_link() == old(self).spec_link(),
                }
                &&& final(self).spec_phase() == parsed.phase
                &&& final(self).buffered() == parsed.rest
                &&& old(self).steady() ==> final(self).steady() && match parsed.tags {
                    Some(_) => r is Ok,
                    None => r matches Err(e) && e.kind == IoErrorKind::InvalidData && e.message@
                        == "malformed FLV header"@,
                }
            }),
    {
        proof {
            let all = self.buffered() + data@;
            if self.spec_phase() != FlvPhase::Header {
                tags_are_never_malformed(self.spec_phase(), all);
            } else if self.buffered().len() == 0 {
                assert(all =~= data@);
                lemma_header_parses();
            }
        }
        let r: Result<(), IoError> = self.pass_on(data);
        self.faults = Ghost(self.faults@.written(r is Err));
        r
    }

    fn flush(&mut self) -> (r: Result<(), IoError>)
        ensures
            final(self).spec_book() == old(self).spec_book(),
            final(self).spec_link() == old(self).spec_link(),
            final(self).idle_since(old(self)),
    {
        let r: Result<(), IoError> = self.link.flush();
        self.faults = Ghost(self.faults@.flushed(r is Err));
        r
    }
}

impl<R: Source, W: Sink> Transport for RtmpTransport<R, W> {
    closed spec fn progress(&self) -> Option<u64> {
        Some(self.last_activity)
    }

    closed spec fn sent(&self) -> u64 {
        self.link@.framed
    }

    closed spec fn round_trip(&self) -> Option<u64> {
        self.rtt
    }

    /// Best-effort unpublish so the server tears down the ingest cleanly.
    fn shutdown(&mut self) -> (r: Result<(), IoError>)
        ensures
            final(self).spec_book() == old(self).spec_book(),
            r is Ok,
            final(self).in_time(old(self)),
            old(self).spec_link().out.is_prefix_of(final(self).spec_link().out),
            old(self).steady() ==> final(self).spec_noted() == old(self).spec_noted() + 2,
            old(self).steady() ==> final(self).steady() && final(self).spec_link() == old(
                self,
            ).spec_link().sent(
                CID_COMMAND,
                MSG_AMF0_COMMAND,
                old(self).spec_pid(),
                0,
                stream_command("FCUnpublish"@, 4, old(self).spec_key()),
            ).sent(
                CID_COMMAND,
                MSG_AMF0_COMMAND,
                old(self).spec_pid(),
                0,
                close_stream_command(),
            ),
    {
        let pid: u32 = self.pid;
        let unpublish: Vec<u8> = encode_stream_command("FCUnpublish", 4, self.key.as_str());
        let _first = self.send(CID_COMMAND, MSG_AMF0_COMMAND, pid, 0, unpublish.as_slice());
        let mut w: Writer = Writer::new();
        w.string("closeStream");
        w.number(double_bits(5));
        w.null();
        let close: Vec<u8> = w.into_bytes();
        assert(close@ =~= close_stream_command());
        let _second = self.send(CID_COMMAND, MSG_AMF0_COMMAND, pid, 0, close.as_slice());
        let _flushed = self.link.flush();
        Ok(())
    }

    fn last_progress(&self) -> (at: Option<u64>) {
        Some(self.last_activity)
    }

    fn bytes_written(&self) -> (n: u64) {
        self.link.framed()
    }

    fn rtt(&self) -> (ns: Option<u64>) {
        self.rtt
    }

    fn maintain(&mut self) -> (r: Result<(), IoError>)
        ensures
            r is Ok,
            *final(self) == *old(self),
    {
        Ok(())
    }
}

/// A server that refuses the `connect`, or does not answer it, ends the
/// dialogue there: what was sent up to then is all that is ever sent, and it is
/// the same whatever the stream key.
pub proof fn refused_connects_end_the_dialogue(
    l: LinkView,
    app: Seq<char>,
    key: Seq<char>,
    other: Seq<char>,
    tc_url: Seq<char>,
)
    ensures
        ({
            let asked = l.announced().sent(
                CID_COMMAND,
                MSG_AMF0_COMMAND,
                0,
                0,
                connect_command(app, tc_url),
            );
            awaited(asked, 64, "connect"@, double_of(1) as u64) matches Reply::Failed(f, out) ==> {
                &&& after_greeting(l, app, key, tc_url) == Publish::Failed(f, out)
                &&& after_greeting(l, app, other, tc_url) == Publish::Failed(f, out)
            }
        }),
{
}

} // verus!
