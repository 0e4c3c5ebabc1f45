//! RTMP ingest server — the *publish* side of the product.
//!
//! The crate's transport publishes to a remote RTMP server; this module is the
//! reverse: it accepts a publisher, performs the RTMP handshake and the
//! `connect` / `createStream` / `publish` control plane, then decodes every
//! `audio` / `video` message back into [`MediaPacket`]s and feeds them to a
//! [`PublishHandler`]. That is how an incoming RTMP ingest becomes HLS output,
//! a recording, or any other [`crate::sink::PacketSink`].
//!
//! ```text
//! publisher ──▶ PublishSession ──▶ PublishHandler (HLS / recording / fan-out)
//!                 (handshake +
//!                  control plane +
//!                  FLV tag decoding)
//! ```
//!
//! Robustness is a first-class concern: every parser here is bounds-checked and
//! hostile or malformed input surfaces as an error, never a panic. The server
//! answers the protocol-control traffic a real publisher expects (chunk size
//! changes, acknowledgement windows, pings), refuses unknown apps, and ends a
//! session cleanly when the publisher unpublishes or drops the connection.

use vstd::prelude::*;
use vstd::string::*;

use crate::bytes;
use crate::bytes::{be32, from_be32};
use crate::clock::Clock;
use crate::codecs::h264::opt_bytes;
use crate::doubles::{double_bits, double_of};
use crate::flv;
use crate::flv::{tag_body, Decoded, DecodedView};
use crate::io::{IoError, IoErrorKind, Sink, Source};
use crate::models::{MediaPacket, PacketView};
use crate::mux::opt_slice;
use crate::rtmp::amf0::{
    items_view, object_bytes, object_fields, scalar_bytes, values_at, ObjVal, Reader, Val, ValView,
    Writer,
};
use crate::rtmp::chunk::{Message, MessageView, ReaderView};
use crate::rtmp::command::{command_name, field_text, is_named, str_field, transaction, txn_of};
use crate::rtmp::handshake;
use crate::rtmp::handshake::seeded_block;
use crate::rtmp::link::{
    lemma_items, lemma_received_shrinks, next_command, owes_reply, CommandView, Link, LinkView,
    CID_COMMAND, MAX_PENDING_MESSAGES, MSG_AMF0_COMMAND, MSG_AUDIO, MSG_SET_PEER_BW, MSG_VIDEO, MSG_WINDOW_ACK,
};
use crate::sink::{PacketSink, SinkCall};
use crate::telemetry::{
    entry_views, lemma_none_repeated, lemma_one_repeated, lemma_repeated, BookView, Entry, Field,
    FieldValue, FieldView, Level, LogBook, Record,
};
use crate::text::{append_decimal, decimal, same_text};

verus! {

/// Acknowledgement window the server asks publishers to honor, in bytes.
pub const ACK_WINDOW: u32 = 2_500_000;

/// The message stream id `createStream` grants. Publish starts on it and all
/// media messages ride it; we only ever create one stream per session.
pub const PUBLISH_STREAM_ID: u32 = 1;

/// Tuning knobs for an ingest server.
#[derive(Debug)]
pub struct ServerConfig {
    /// Application name the server accepts on `connect`. A publisher that
    /// connects to another app is refused with `NetConnection.Connect.Rejected`.
    pub app: String,
    /// Budget for the whole handshake + `connect`/`createStream`/`publish`
    /// exchange, and the read/write timeout applied to every socket operation
    /// once streaming (a publisher that stalls past it is dropped), in
    /// nanoseconds. Defaults to 10 s.
    pub timeout: u64,
}

impl Default for ServerConfig {
    fn default() -> (c: Self)
        ensures
            c.app@ == "live"@,
            c.timeout == 10_000_000_000,
    {
        ServerConfig { app: "live".to_owned(), timeout: 10_000_000_000 }
    }
}

impl Clone for ServerConfig {
    fn clone(&self) -> (c: Self)
        ensures
            c.app@ == self.app@,
            c.timeout == self.timeout,
    {
        ServerConfig { app: self.app.clone(), timeout: self.timeout }
    }
}

/// What a completed ingest session was: who connected and to which app/key.
///
/// Produced by the server, read by the caller; `non_exhaustive` so new
/// attributes can be added in a minor release.
#[derive(Debug, PartialEq, Eq)]
#[non_exhaustive]
pub struct SessionInfo {
    /// The app name the publisher connected to (validated against the config).
    pub app: String,
    /// The stream key the publisher named in `publish`.
    pub key: String,
    /// Human-readable peer address, when the socket could provide one.
    pub peer: String,
}

impl Clone for SessionInfo {
    fn clone(&self) -> (c: Self)
        ensures
            c.app@ == self.app@,
            c.key@ == self.key@,
            c.peer@ == self.peer@,
    {
        SessionInfo { app: self.app.clone(), key: self.key.clone(), peer: self.peer.clone() }
    }
}

// ---------------------------------------------------------------------------
// Handlers
// ---------------------------------------------------------------------------

/// One call of a publish handler.
#[verifier::ext_equal]
pub enum HandlerCall {
    /// A codec configuration change: AVCC and ASC.
    Configure(Option<Seq<u8>>, Option<Seq<u8>>),
    /// A media packet.
    Packet(PacketView),
    /// The end of the publish.
    Finished,
}

/// Consumes the media a publisher sends. Driven from the connection's read loop
/// only: every method is called sequentially, never concurrently.
pub trait PublishHandler: Sized {
    /// The calls so far. Unknown of an implementation that does not say.
    open spec fn handled(&self) -> Seq<HandlerCall> {
        arbitrary()
    }

    /// Codec configuration change — a new H.264 `AVCDecoderConfigurationRecord`
    /// and/or AAC `AudioSpecificConfig`. Called before the first packet that
    /// needs them; either argument is `None` while that track is absent.
    fn configure(&mut self, avcc: Option<&[u8]>, asc: Option<&[u8]>)
        ensures
            final(self).handled() == old(self).handled().push(
                HandlerCall::Configure(opt_slice(avcc), opt_slice(asc)),
            ),
    ;

    /// One decoded media packet, in publish order with millisecond timestamps.
    fn packet(&mut self, pkt: &MediaPacket)
        ensures
            final(self).handled() == old(self).handled().push(HandlerCall::Packet(pkt@)),
    ;

    /// The publish ended (`deleteStream`/`closeStream`/`FCUnpublish` or the
    /// connection closed): flush and finalize any container state.
    fn finished(&mut self)
        ensures
            final(self).handled() == old(self).handled().push(HandlerCall::Finished),
    ;
}

/// Adapts a [`PacketSink`] (an HLS output, a recording, ...) into a
/// [`PublishHandler`], so ingest drives exactly the same outputs the engine
/// drives. The sink keeps the last-seen AVCC/ASC and forwards configuration
/// merges to the underlying sink, and a failing sink is retired — it stops
/// receiving calls but never takes the ingest connection down (mirroring the
/// engine's sink semantics).
pub struct SinkHandler<S: PacketSink> {
    sink: S,
    avcc: Option<Vec<u8>>,
    asc: Option<Vec<u8>>,
    retired: bool,
    log: Ghost<Seq<HandlerCall>>,
    /// The log records that wait to be delivered.
    book: LogBook,
}

/// The newer of two optional values.
pub open spec fn merged(new: Option<Seq<u8>>, kept: Option<Seq<u8>>) -> Option<Seq<u8>> {
    if new is Some {
        new
    } else {
        kept
    }
}

impl<S: PacketSink> SinkHandler<S> {
    /// The sink's calls.
    pub closed spec fn forwarded(&self) -> Seq<SinkCall> {
        self.sink.calls()
    }

    /// The last-seen AVCC.
    pub closed spec fn spec_avcc(&self) -> Option<Seq<u8>> {
        opt_bytes(self.avcc)
    }

    /// The last-seen ASC.
    pub closed spec fn spec_asc(&self) -> Option<Seq<u8>> {
        opt_bytes(self.asc)
    }

    /// True once the sink is not fed any more.
    pub closed spec fn spec_retired(&self) -> bool {
        self.retired
    }

    /// The log records that wait to be delivered.
    pub closed spec fn spec_book(&self) -> BookView {
        self.book@
    }

    /// Keep log records up to this level, and no others; `None` keeps none.
    pub fn set_log_level(&mut self, max: Option<Level>)
        ensures
            final(self).forwarded() == old(self).forwarded(),
            final(self).spec_avcc() == old(self).spec_avcc(),
            final(self).spec_asc() == old(self).spec_asc(),
            final(self).spec_retired() == old(self).spec_retired(),
            final(self).handled() == old(self).handled(),
            final(self).spec_book() == (BookView { max, ..old(self).spec_book() }),
    {
        self.book.set_level(max);
    }

    /// The log records to deliver, in the order in which they came.
    pub fn take_records(&mut self) -> (records: Vec<Entry>)
        ensures
            final(self).forwarded() == old(self).forwarded(),
            final(self).spec_avcc() == old(self).spec_avcc(),
            final(self).spec_asc() == old(self).spec_asc(),
            final(self).spec_retired() == old(self).spec_retired(),
            final(self).handled() == old(self).handled(),
            entry_views(records@) == old(self).spec_book().records,
            final(self).spec_book() == (BookView {
                records: Seq::empty(),
                ..old(self).spec_book()
            }),
    {
        self.book.take()
    }

    /// Wrap a packet sink for ingest.
    pub fn new(sink: S) -> (h: Self)
        ensures
            h.forwarded() == sink.calls(),
            h.spec_avcc() is None,
            h.spec_asc() is None,
            !h.spec_retired(),
            h.spec_book() == BookView::closed(),
            h.handled() == Seq::<HandlerCall>::empty(),
    {
        SinkHandler {
            sink,
            avcc: None,
            asc: None,
            retired: false,
            log: Ghost(Seq::empty()),
            book: LogBook::new(),
        }
    }

    /// Wrap and box in one step, for `MultiSinkHandler`.
    pub fn boxed(sink: S) -> (h: Box<Self>)
        ensures
            h.forwarded() == sink.calls(),
            h.spec_avcc() is None,
            h.spec_asc() is None,
            !h.spec_retired(),
            h.spec_book() == BookView::closed(),
            h.handled() == Seq::<HandlerCall>::empty(),
    {
        Box::new(Self::new(sink))
    }

    /// True once the underlying sink has errored and stopped being fed.
    pub fn is_retired(&self) -> (retired: bool)
        ensures
            retired == self.spec_retired(),
    {
        self.retired
    }

    /// The sink.
    pub fn sink(&self) -> (sink: &S)
        ensures
            sink.calls() == self.forwarded(),
    {
        &self.sink
    }
}

/// A kept configuration as a slice.
fn kept(c: &Option<Vec<u8>>) -> (s: Option<&[u8]>)
    ensures
        opt_slice(s) == opt_bytes(*c),
{
    match c {
        Some(v) => Some(v.as_slice()),
        None => None,
    }
}

impl<S: PacketSink> PublishHandler for SinkHandler<S> {
    closed spec fn handled(&self) -> Seq<HandlerCall> {
        self.log@
    }

    fn configure(&mut self, avcc: Option<&[u8]>, asc: Option<&[u8]>)
        ensures
            final(self).spec_book() == old(self).spec_book(),
            final(self).spec_retired() == old(self).spec_retired(),
            old(self).spec_retired() ==> final(self).forwarded() == old(self).forwarded(),
            !old(self).spec_retired() ==> {
                &&& final(self).spec_avcc() == merged(opt_slice(avcc), old(self).spec_avcc())
                &&& final(self).spec_asc() == merged(opt_slice(asc), old(self).spec_asc())
                &&& final(self).forwarded() == old(self).forwarded().push(
                    SinkCall::Codecs(final(self).spec_avcc(), final(self).spec_asc()),
                )
            },
    {
        self.log = Ghost(
            self.log@.push(HandlerCall::Configure(opt_slice(avcc), opt_slice(asc))),
        );
        if self.retired {
            return ;
        }
        if let Some(c) = avcc {
            self.avcc = Some(bytes::copy_of(c));
        }
        if let Some(c) = asc {
            self.asc = Some(bytes::copy_of(c));
        }
        self.sink.codecs(kept(&self.avcc), kept(&self.asc));
    }

    fn packet(&mut self, pkt: &MediaPacket)
        ensures
            final(self).spec_retired() && !old(self).spec_retired() ==> old(
                self,
            ).spec_book().failed_somehow(
                final(self).spec_book(),
                Level::Warn,
                "stream::rtmp::server"@,
                "ingest sink failed, retired"@,
            ),
            final(self).spec_retired() == old(self).spec_retired() ==> final(self).spec_book()
                == old(self).spec_book(),
            final(self).spec_avcc() == old(self).spec_avcc(),
            final(self).spec_asc() == old(self).spec_asc(),
            old(self).spec_retired() ==> final(self).spec_retired() && final(self).forwarded()
                == old(self).forwarded(),
            !old(self).spec_retired() ==> final(self).forwarded() == old(self).forwarded().push(
                SinkCall::Packet(pkt@, !final(self).spec_retired()),
            ),
    {
        self.log = Ghost(self.log@.push(HandlerCall::Packet(pkt@)));
        if self.retired {
            return ;
        }
        if let Err(e) = self.sink.packet(pkt) {
            self.retired = true;
            self.book.fail(
                Level::Warn,
                "stream::rtmp::server",
                "ingest sink failed, retired",
                e.message.as_str(),
            );
        }
    }

    fn finished(&mut self)
        ensures
            final(self).spec_avcc() == old(self).spec_avcc(),
            final(self).spec_asc() == old(self).spec_asc(),
            final(self).spec_retired(),
            old(self).spec_retired() ==> final(self).forwarded() == old(self).forwarded(),
            old(self).spec_retired() ==> final(self).spec_book() == old(self).spec_book(),
            !old(self).spec_retired() ==> exists|ok: bool|
                final(self).forwarded() == #[trigger] old(self).forwarded().push(
                    SinkCall::Finish(ok),
                ) && if ok {
                    final(self).spec_book() == old(self).spec_book()
                } else {
                    old(self).spec_book().failed_somehow(
                        final(self).spec_book(),
                        Level::Warn,
                        "stream::rtmp::server"@,
                        "ingest sink finish failed"@,
                    )
                },
    {
        self.log = Ghost(self.log@.push(HandlerCall::Finished));
        if self.retired {
            return ;
        }
        self.retired = true;
        let outcome: Result<(), IoError> = self.sink.finish();
        if let Err(e) = &outcome {
            self.book.fail(
                Level::Warn,
                "stream::rtmp::server",
                "ingest sink finish failed",
                e.message.as_str(),
            );
        }
        assert(self.forwarded() == old(self).forwarded().push(SinkCall::Finish(outcome is Ok)));
    }
}

/// A boxed handler does what the handler in the box does.
impl<H: PublishHandler> PublishHandler for Box<H> {
    open spec fn handled(&self) -> Seq<HandlerCall> {
        (**self).handled()
    }

    fn configure(&mut self, avcc: Option<&[u8]>, asc: Option<&[u8]>) {
        (**self).configure(avcc, asc);
    }

    fn packet(&mut self, pkt: &MediaPacket) {
        (**self).packet(pkt);
    }

    fn finished(&mut self) {
        (**self).finished();
    }
}

/// Fans one published stream out to several handlers (an HLS output *and* a
/// recording, say). Each child is independent; a failing child is skipped but
/// never ends the session.
pub struct MultiSinkHandler<H: PublishHandler> {
    handlers: Vec<H>,
    log: Ghost<Seq<HandlerCall>>,
}

impl<H: PublishHandler> View for MultiSinkHandler<H> {
    type V = Seq<H>;

    closed spec fn view(&self) -> Seq<H> {
        self.handlers@
    }
}

/// True if every handler has had one more call.
pub open spec fn all_called<H: PublishHandler>(
    before: Seq<H>,
    after: Seq<H>,
    call: HandlerCall,
) -> bool {
    &&& after.len() == before.len()
    &&& forall|i: int|
        0 <= i < before.len() ==> (#[trigger] after[i]).handled() == before[i].handled().push(call)
}

impl<H: PublishHandler> MultiSinkHandler<H> {
    /// Start with no handlers.
    pub fn new() -> (m: Self)
        ensures
            m@ == Seq::<H>::empty(),
            m.handled() == Seq::<HandlerCall>::empty(),
    {
        MultiSinkHandler { handlers: Vec::new(), log: Ghost(Seq::empty()) }
    }

    /// Start with a pre-built set of handlers.
    pub fn with(handlers: Vec<H>) -> (m: Self)
        ensures
            m@ == handlers@,
            m.handled() == Seq::<HandlerCall>::empty(),
    {
        MultiSinkHandler { handlers, log: Ghost(Seq::empty()) }
    }

    /// Append a handler.
    pub fn add(&mut self, handler: H)
        ensures
            final(self)@ == old(self)@.push(handler),
            final(self).handled() == old(self).handled(),
    {
        self.handlers.push(handler);
    }

    /// Number of handlers currently attached.
    pub fn len(&self) -> (n: usize)
        ensures
            n == self@.len(),
    {
        self.handlers.len()
    }

    /// True when no handlers are attached.
    pub fn is_empty(&self) -> (empty: bool)
        ensures
            empty == (self@.len() == 0),
    {
        self.handlers.len() == 0
    }

    /// The handlers.
    pub fn handlers(&self) -> (all: &[H])
        ensures
            all@ == self@,
    {
        self.handlers.as_slice()
    }
}

impl<H: PublishHandler> Default for MultiSinkHandler<H> {
    fn default() -> (m: Self)
        ensures
            m@ == Seq::<H>::empty(),
    {
        Self::new()
    }
}

impl<H: PublishHandler> PublishHandler for MultiSinkHandler<H> {
    closed spec fn handled(&self) -> Seq<HandlerCall> {
        self.log@
    }

    fn configure(&mut self, avcc: Option<&[u8]>, asc: Option<&[u8]>)
        ensures
            all_called(
                old(self)@,
                final(self)@,
                HandlerCall::Configure(opt_slice(avcc), opt_slice(asc)),
            ),
    {
        let ghost call = HandlerCall::Configure(opt_slice(avcc), opt_slice(asc));
        let n: usize = self.handlers.len();
        let mut i: usize = 0;
        while i < n
            invariant
                i <= n == self.handlers@.len() == old(self).handlers@.len(),
                call == HandlerCall::Configure(opt_slice(avcc), opt_slice(asc)),
                self.log == old(self).log,
                forall|k: int|
                    0 <= k < i ==> (#[trigger] self.handlers@[k]).handled() == old(self).handlers@[
                        k
                    ].handled().push(call),
                forall|k: int|
                    i <= k < n ==> #[trigger] self.handlers@[k] == old(self).handlers@[k],
            decreases n - i,
        {
            self.handlers[i].configure(avcc, asc);
            i = i + 1;
        }
        self.log = Ghost(self.log@.push(call));
    }

    fn packet(&mut self, pkt: &MediaPacket)
        ensures
            all_called(old(self)@, final(self)@, HandlerCall::Packet(pkt@)),
    {
        let n: usize = self.handlers.len();
        let mut i: usize = 0;
        while i < n
            invariant
                i <= n == self.handlers@.len() == old(self).handlers@.len(),
                self.log == old(self).log,
                forall|k: int|
                    0 <= k < i ==> (#[trigger] self.handlers@[k]).handled() == old(self).handlers@[
                        k
                    ].handled().push(HandlerCall::Packet(pkt@)),
                forall|k: int|
                    i <= k < n ==> #[trigger] self.handlers@[k] == old(self).handlers@[k],
            decreases n - i,
        {
            self.handlers[i].packet(pkt);
            i = i + 1;
        }
        self.log = Ghost(self.log@.push(HandlerCall::Packet(pkt@)));
    }

    fn finished(&mut self)
        ensures
            all_called(old(self)@, final(self)@, HandlerCall::Finished),
    {
        let n: usize = self.handlers.len();
        let mut i: usize = 0;
        while i < n
            invariant
                i <= n == self.handlers@.len() == old(self).handlers@.len(),
                self.log == old(self).log,
                forall|k: int|
                    0 <= k < i ==> (#[trigger] self.handlers@[k]).handled() == old(self).handlers@[
                        k
                    ].handled().push(HandlerCall::Finished),
                forall|k: int|
                    i <= k < n ==> #[trigger] self.handlers@[k] == old(self).handlers@[k],
            decreases n - i,
        {
            self.handlers[i].finished();
            i = i + 1;
        }
        self.log = Ghost(self.log@.push(HandlerCall::Finished));
    }
}

// ---------------------------------------------------------------------------
// The control plane
// ---------------------------------------------------------------------------

/// The app a `connect` asks for: the text of `app` in the first object that
/// has one; empty where none has.
pub open spec fn asked_app(vals: Seq<ValView>) -> Seq<char>
    decreases vals.len(),
{
    if vals.len() == 0 {
        Seq::empty()
    } else {
        match vals.first() {
            ValView::Object(fields) => match field_text(fields, "app"@) {
                Some(app) => app,
                None => asked_app(vals.drop_first()),
            },
            _ => asked_app(vals.drop_first()),
        }
    }
}

/// The transaction id to answer with: the command's own, or `otherwise`.
pub open spec fn answer_txn(vals: Seq<ValView>, otherwise: nat) -> u64 {
    match transaction(vals) {
        Some(n) => n,
        None => double_of(otherwise) as u64,
    }
}

/// The head of a reply: name, transaction id and a null.
pub open spec fn reply_head(name: Seq<char>, txn: u64) -> Seq<u8> {
    scalar_bytes(ValView::String(name)) + scalar_bytes(ValView::Number(txn)) + scalar_bytes(
        ValView::Null,
    )
}

/// The `_result` of `connect`, with the server's capabilities.
pub open spec fn connect_result(txn: u64) -> Seq<u8> {
    reply_head("_result"@, txn) + object_bytes(
        seq![
            ("fmsVer"@, ValView::String("FMS/3,0,1,123"@)),
            ("capabilities"@, ValView::Number(double_of(31) as u64)),
            ("mode"@, ValView::Number(double_of(1) as u64)),
        ],
    )
}

/// The `_result` of a command that yields nothing.
pub open spec fn empty_result(txn: u64) -> Seq<u8> {
    reply_head("_result"@, txn) + scalar_bytes(ValView::Null)
}

/// The `_result` of `createStream`: the stream id.
pub open spec fn create_stream_result(txn: u64) -> Seq<u8> {
    reply_head("_result"@, txn) + scalar_bytes(ValView::Number(double_of(1) as u64))
}

/// An object of level, code and description.
pub open spec fn status_object(
    level: Seq<char>,
    code: Seq<char>,
    description: Seq<char>,
) -> Seq<u8> {
    object_bytes(
        seq![
            ("level"@, ValView::String(level)),
            ("code"@, ValView::String(code)),
            ("description"@, ValView::String(description)),
        ],
    )
}

/// The `_error` for a `connect` to an app that is not served.
pub open spec fn connect_error(txn: u64, asked: Seq<char>) -> Seq<u8> {
    reply_head("_error"@, txn) + status_object(
        "error"@,
        "NetConnection.Connect.Rejected"@,
        "unknown app `"@ + asked + "`"@,
    )
}

/// The `onStatus` that confirms a publish.
pub open spec fn publish_started() -> Seq<u8> {
    reply_head("onStatus"@, double_of(0) as u64) + status_object(
        "status"@,
        "NetStream.Publish.Start"@,
        "Started publishing stream"@,
    )
}

/// The stream key of a `publish`: its fourth value, if that is a string.
pub open spec fn publish_key(vals: Seq<ValView>) -> Option<Seq<char>> {
    if vals.len() > 3 {
        match vals[3] {
            ValView::String(key) => Some(key),
            _ => None,
        }
    } else {
        None
    }
}

/// Why a negotiation failed without an answer.
pub enum Refusal {
    /// The publisher stopped talking.
    Ended,
    /// The publisher speaks another version.
    BadVersion(u8),
    /// The publisher asked for a chunk size of zero.
    BadChunkSize,
    /// There was no command among the messages.
    NoCommand,
    /// The `publish` names no stream.
    NoKey,
    /// The `publish` came before an accepted `connect`.
    NoConnect,
}

/// A refusal in words; `None` where the words are the source's own.
pub open spec fn refusal_text(f: Refusal) -> Option<Seq<char>> {
    match f {
        Refusal::Ended => None,
        Refusal::BadVersion(v) => Some("peer offered RTMP version "@ + decimal(v as nat)),
        Refusal::BadChunkSize => Some("peer set chunk size to 0"@),
        Refusal::NoCommand => Some("no command from publisher"@),
        Refusal::NoKey => Some("publish command carried no stream key"@),
        Refusal::NoConnect => Some("publish command before connect"@),
    }
}

/// What is said of a publisher that asked for another app.
pub open spec fn unknown_app_text(asked: Seq<char>, served: Seq<char>) -> Seq<char> {
    "publisher asked for app `"@ + asked + "`, server serves `"@ + served + "`"@
}

/// True if `e` reports refusal `f` of a connection that ends with `ending`.
pub open spec fn refuses(e: IoError, f: Refusal, ending: IoErrorKind) -> bool {
    match refusal_text(f) {
        None => e.kind == ending,
        Some(text) => e.kind == IoErrorKind::InvalidData && e.message@ == text,
    }
}

/// True if `e` says that the publisher took too long.
pub open spec fn took_too_long(e: IoError) -> bool {
    e.kind == IoErrorKind::TimedOut && e.message@ == "no publish within the handshake budget"@
}

/// The seed of S1's filler: it depends on the publisher's time and on the
/// server's.
pub open spec fn s1_seed(c1: Seq<u8>, now: u32) -> u64 {
    (from_be32(c1) as u32) as u64 ^ now as u64 ^ 0x9E37_79B9_7F4A_7C15u64
}

/// The connection behind the handshake: the publisher's version and C1 come
/// in, version, S1 and the echo of C1 go out, and C2 comes in.
pub open spec fn welcomed(l: LinkView, now: u32) -> Result<LinkView, Refusal> {
    if l.input.len() < 1 {
        Err(Refusal::Ended)
    } else if l.input[0] != 3 {
        Err(Refusal::BadVersion(l.input[0]))
    } else if l.input.len() < 3073 {
        Err(Refusal::Ended)
    } else {
        let c1 = l.input.subrange(1, 1537);
        Ok(
            LinkView {
                input: l.input.skip(3073),
                out: l.out + seq![3u8] + seeded_block(now, s1_seed(c1, now)) + c1,
                ..l
            },
        )
    }
}

/// The connection once chunk size, acknowledgement window and bandwidth limit
/// have been announced.
pub open spec fn limited(l: LinkView) -> LinkView {
    l.announced().sent(CID_COMMAND, MSG_WINDOW_ACK, 0, 0, be32(ACK_WINDOW as int)).sent(
        CID_COMMAND,
        MSG_SET_PEER_BW,
        0,
        0,
        be32(ACK_WINDOW as int) + seq![2u8],
    )
}

/// What answering one command gives.
pub enum Answer {
    /// The negotiation goes on; the flag says whether a `connect` has been
    /// accepted.
    More(LinkView, bool),
    /// The publish is accepted, under this key.
    Accepted(LinkView, Seq<char>),
    /// The publisher asked for an app that is not served, and was told.
    UnknownApp(LinkView, Seq<char>),
    /// The `publish` names no stream.
    NoKey,
    /// The `publish` came before an accepted `connect`.
    NoConnect,
}

/// The answer to one command. A `publish` counts only behind an accepted
/// `connect`: it is the `connect` that names the app.
pub open spec fn answered(
    l: LinkView,
    connected: bool,
    served: Seq<char>,
    vals: Seq<ValView>,
) -> Answer {
    let name = command_name(vals);
    if name == "connect"@ {
        let asked = asked_app(vals);
        let txn = answer_txn(vals, 1);
        if asked == served {
            Answer::More(
                l.sent(CID_COMMAND, MSG_AMF0_COMMAND, 0, 0, connect_result(txn)),
                true,
            )
        } else {
            Answer::UnknownApp(
                l.sent(CID_COMMAND, MSG_AMF0_COMMAND, 0, 0, connect_error(txn, asked)),
                asked,
            )
        }
    } else if name == "releaseStream"@ || name == "FCPublish"@ {
        Answer::More(
            l.sent(CID_COMMAND, MSG_AMF0_COMMAND, 0, 0, empty_result(answer_txn(vals, 1))),
            connected,
        )
    } else if name == "createStream"@ {
        Answer::More(
            l.sent(
                CID_COMMAND,
                MSG_AMF0_COMMAND,
                0,
                0,
                create_stream_result(answer_txn(vals, 2)),
            ),
            connected,
        )
    } else if name == "publish"@ && !connected {
        Answer::NoConnect
    } else if name == "publish"@ {
        match publish_key(vals) {
            Some(key) => Answer::Accepted(
                l.sent(CID_COMMAND, MSG_AMF0_COMMAND, PUBLISH_STREAM_ID, 0, publish_started()),
                key,
            ),
            None => Answer::NoKey,
        }
    } else {
        Answer::More(l, connected)
    }
}

/// The record of a publish that was accepted.
pub open spec fn accepted_note(
    book: BookView,
    app: Seq<char>,
    key: Seq<char>,
    peer: Seq<char>,
) -> BookView {
    book.noted(
        Level::Info,
        "stream::rtmp::server"@,
        "ingest publish accepted"@,
        seq![
            ("app"@, FieldView::Str(app)),
            ("key"@, FieldView::Str(key)),
            ("peer"@, FieldView::Str(peer)),
        ],
    )
}

/// The book once a media message has been dealt with: one that cannot be
/// decoded is noted.
pub open spec fn media_note(book: BookView, m: MessageView) -> BookView {
    if tag_body(m.mtype, m.ts as int, m.payload) is None {
        book.noted(
            Level::Debug,
            "stream::rtmp::server"@,
            "skipping undecodable media message"@,
            seq![("mtype"@, FieldView::Uint(m.mtype as u64))],
        )
    } else {
        book
    }
}

/// What a negotiation gives.
pub enum Negotiation {
    /// The publish is accepted: connection, app and key.
    Accepted(LinkView, Seq<char>, Seq<char>),
    /// The publisher asked for an app that is not served, and was told.
    UnknownApp(LinkView, Seq<char>),
    /// It failed.
    Failed(Refusal),
}

/// What one command of a negotiation gives.
pub enum Step {
    /// The negotiation goes on; the flag says whether a `connect` has been
    /// accepted.
    More(LinkView, bool),
    /// It is over.
    Over(Negotiation),
}

/// The next command, and its answer.
pub open spec fn command_step(l: LinkView, connected: bool, served: Seq<char>) -> Step {
    match next_command(l, Some(64)) {
        CommandView::Ended(_) => Step::Over(Negotiation::Failed(Refusal::Ended)),
        CommandView::BadChunkSize(_) => Step::Over(Negotiation::Failed(Refusal::BadChunkSize)),
        CommandView::Exhausted(_) => Step::Over(Negotiation::Failed(Refusal::NoCommand)),
        CommandView::Command(l2, vals) => match answered(l2, connected, served, vals) {
            Answer::Accepted(l3, key) => Step::Over(Negotiation::Accepted(l3, served, key)),
            Answer::UnknownApp(l3, asked) => Step::Over(Negotiation::UnknownApp(l3, asked)),
            Answer::NoKey => Step::Over(Negotiation::Failed(Refusal::NoKey)),
            Answer::NoConnect => Step::Over(Negotiation::Failed(Refusal::NoConnect)),
            Answer::More(l3, next) => Step::More(l3, next),
        },
    }
}

/// True of a command that is answered. A `publish` that is refused is not.
pub open spec fn is_answered(vals: Seq<ValView>, connected: bool) -> bool {
    let name = command_name(vals);
    ||| name == "connect"@
    ||| name == "releaseStream"@
    ||| name == "FCPublish"@
    ||| name == "createStream"@
    ||| name == "publish"@ && connected && publish_key(vals) is Some
}

/// True if something is to be sent up to the next command, and in answer to it.
pub open spec fn owes_step(l: LinkView, connected: bool) -> bool {
    ||| owes_reply(l, Some(64))
    ||| next_command(l, Some(64)) matches CommandView::Command(_, vals) && is_answered(
        vals,
        connected,
    )
}

/// The commands up to the `publish`.
pub open spec fn commanded(l: LinkView, connected: bool, served: Seq<char>) -> Negotiation
    decreases l.input.len(),
{
    match command_step(l, connected, served) {
        Step::Over(outcome) => outcome,
        Step::More(l2, next) => if l2.input.len() < l.input.len() {
            commanded(l2, next, served)
        } else {
            Negotiation::Failed(Refusal::Ended)
        },
    }
}

/// The whole negotiation: handshake, limits and commands.
pub open spec fn negotiation(
    start: LinkView,
    now: u32,
    connected: bool,
    served: Seq<char>,
) -> Negotiation {
    match welcomed(start, now) {
        Err(f) => Negotiation::Failed(f),
        Ok(l) => commanded(limited(l), connected, served),
    }
}

/// A command takes at least one byte of the input.
proof fn lemma_command_shrinks(l: LinkView, limit: Option<nat>)
    ensures
        next_command(l, limit) matches CommandView::Command(l2, vals) ==> l2.input.len()
            < l.input.len() && l2.ending == l.ending && vals.len() > 0 && vals[0] is String,
    decreases l.input.len(),
{
    if limit != Some(0nat) {
        let less = match limit {
            Some(n) => Some((n - 1) as nat),
            None => None,
        };
        lemma_received_shrinks(l);
        if let Some((l2, m)) = l.received() {
            lemma_command_shrinks(l2, less);
            if let Some(l3) = l2.controlled(m) {
                if l3.input.len() < l.input.len() {
                    lemma_command_shrinks(l3, less);
                }
            }
        }
    }
}

// ---------------------------------------------------------------------------
// Media
// ---------------------------------------------------------------------------

/// True of the ways a connection closes: a publisher dropping the connection
/// is the normal end of ingest, not an error worth propagating.
pub open spec fn closing(kind: IoErrorKind) -> bool {
    kind == IoErrorKind::UnexpectedEof || kind == IoErrorKind::ConnectionReset || kind
        == IoErrorKind::ConnectionAborted || kind == IoErrorKind::BrokenPipe
}

/// True of the commands that end a publish.
pub open spec fn ends_publish(vals: Seq<ValView>) -> bool {
    vals.len() > 0 && vals[0] is String && (command_name(vals) == "deleteStream"@ || command_name(
        vals,
    ) == "closeStream"@ || command_name(vals) == "FCUnpublish"@)
}

/// The state of an ingest: the connection, the last-seen codec configurations
/// and what the handler was told.
#[verifier::ext_equal]
pub struct IngestView {
    /// The connection.
    pub link: LinkView,
    /// The last-seen AVCC.
    pub avcc: Option<Seq<u8>>,
    /// The last-seen ASC.
    pub asc: Option<Seq<u8>>,
    /// What the handler was told.
    pub told: Seq<HandlerCall>,
}

impl IngestView {
    /// The ingest with one more call of the handler.
    pub open spec fn tell(self, call: HandlerCall) -> IngestView {
        IngestView { told: self.told.push(call), ..self }
    }

    /// The ingest behind a media message; one that cannot be decoded is
    /// skipped.
    pub open spec fn with_media(self, m: MessageView) -> IngestView {
        match tag_body(m.mtype, m.ts as int, m.payload) {
            None => self,
            Some(DecodedView::VideoConfig(c)) => IngestView { avcc: Some(c), ..self }.tell(
                HandlerCall::Configure(Some(c), self.asc),
            ),
            Some(DecodedView::AudioConfig(c)) => IngestView { asc: Some(c), ..self }.tell(
                HandlerCall::Configure(self.avcc, Some(c)),
            ),
            Some(DecodedView::Packet(p)) => self.tell(HandlerCall::Packet(p)),
        }
    }
}

/// How an ingest ends.
pub enum IngestEnd {
    /// The publisher unpublished, or closed the connection.
    Clean,
    /// The connection was lost in another way.
    Lost,
    /// The publisher asked for a chunk size of zero.
    BadChunkSize,
}

/// The ingest at its end.
pub open spec fn ingested(i: IngestView) -> (IngestView, IngestEnd)
    decreases i.link.input.len(),
{
    match i.link.received() {
        None => if closing(i.link.ending) {
            (i.tell(HandlerCall::Finished), IngestEnd::Clean)
        } else {
            (i, IngestEnd::Lost)
        },
        Some((l, m)) => if l.input.len() >= i.link.input.len() {
            (i, IngestEnd::Lost)
        } else if m.mtype == MSG_VIDEO || m.mtype == MSG_AUDIO {
            let next = IngestView { link: l, ..i }.with_media(m);
            if next.link.input.len() >= i.link.input.len() {
                (i, IngestEnd::Lost)
            } else {
                ingested(next)
            }
        } else if m.mtype == MSG_AMF0_COMMAND {
            if ends_publish(values_at(m.payload)) {
                (IngestView { link: l, ..i }.tell(HandlerCall::Finished), IngestEnd::Clean)
            } else {
                ingested(IngestView { link: l, ..i })
            }
        } else {
            match l.controlled(m) {
                None => (IngestView { link: l, ..i }, IngestEnd::BadChunkSize),
                Some(l2) => if l2.input.len() >= i.link.input.len() {
                    (i, IngestEnd::Lost)
                } else {
                    ingested(IngestView { link: l2, ..i })
                },
            }
        },
    }
}

/// The ingest behind the next message, if that is not its end.
pub open spec fn ingest_step(i: IngestView) -> Option<IngestView> {
    match i.link.received() {
        None => None,
        Some((l, m)) => {
            let read = IngestView { link: l, ..i };
            if m.mtype == MSG_VIDEO || m.mtype == MSG_AUDIO {
                Some(read.with_media(m))
            } else if m.mtype == MSG_AMF0_COMMAND {
                if ends_publish(values_at(m.payload)) {
                    None
                } else {
                    Some(read)
                }
            } else {
                match l.controlled(m) {
                    None => None,
                    Some(l2) => Some(IngestView { link: l2, ..i }),
                }
            }
        },
    }
}

/// True if an ingest can be cut off by a reply that cannot be sent when the
/// handler has been told `told`: the message read next owes an acknowledgement
/// or an answer.
#[verifier::opaque]
pub open spec fn broke_off(i: IngestView, told: Seq<HandlerCall>) -> bool
    decreases i.link.input.len(),
{
    ||| told == i.told && (i.link.read() matches Some((l, m)) && (l.owes_ack()
        || l.acknowledged().owes_answer(m)))
    ||| ingest_step(i) matches Some(next) && next.link.input.len() < i.link.input.len()
        && broke_off(next, told)
}

proof fn lemma_broke_here(i: IngestView)
    requires
        i.link.read() matches Some((l, m)) && (l.owes_ack() || l.acknowledged().owes_answer(m)),
    ensures
        broke_off(i, i.told),
{
    reveal(broke_off);
}

proof fn lemma_broke_later(i: IngestView, next: IngestView)
    requires
        ingest_step(i) == Some(next),
        next.link.input.len() < i.link.input.len(),
    ensures
        forall|told: Seq<HandlerCall>| #[trigger] broke_off(next, told) ==> broke_off(i, told),
{
    reveal(broke_off);
}

// ---------------------------------------------------------------------------
// Carrying it out
// ---------------------------------------------------------------------------

fn invalid(message: String) -> (e: IoError)
    ensures
        e.kind == IoErrorKind::InvalidData,
        e.message == message,
{
    IoError { kind: IoErrorKind::InvalidData, message }
}

/// The app a `connect` asks for.
fn find_app(vals: &[Val]) -> (app: String)
    ensures
        app@ == asked_app(items_view(vals@)),
{
    let ghost all = items_view(vals@);
    proof {
        lemma_items(vals@);
        assert(all.skip(0) =~= all);
    }
    let mut i: usize = 0;
    while i < vals.len()
        invariant
            i <= vals@.len(),
            all == items_view(vals@),
            all.len() == vals@.len(),
            forall|k: int| 0 <= k < vals@.len() ==> all[k] == (#[trigger] vals@[k])@,
            asked_app(all) == asked_app(all.skip(i as int)),
        decreases vals@.len() - i,
    {
        let ghost here = all.skip(i as int);
        assert(here.first() == vals@[i as int]@);
        assert(here.drop_first() =~= all.skip(i + 1));
        if let Val::Object(fields) = &vals[i] {
            if let Some(app) = str_field(fields, "app") {
                return app.to_owned();
            }
        }
        i = i + 1;
    }
    let none: String = "".to_owned();
    proof {
        reveal_strlit("");
        assert(none@ =~= Seq::<char>::empty());
    }
    none
}

/// The transaction id to answer with.
fn txn_or(vals: &[Val], otherwise: u32) -> (txn: u64)
    ensures
        txn == answer_txn(items_view(vals@), otherwise as nat),
{
    match txn_of(vals) {
        Some(n) => n,
        None => double_bits(otherwise),
    }
}

/// Start a reply.
fn reply(name: &str, txn: u64) -> (w: Writer)
    ensures
        w@ == reply_head(name@, txn),
{
    let mut w: Writer = Writer::new();
    w.string(name);
    w.number(txn);
    w.null();
    assert(w@ =~= reply_head(name@, txn));
    w
}

/// Append an object of level, code and description.
fn append_status(w: &mut Writer, level: &str, code: &str, description: &str)
    ensures
        final(w)@ == old(w)@ + status_object(level@, code@, description@),
{
    let fields: [(&str, ObjVal<'_>); 3] = [
        ("level", ObjVal::Str(level)),
        ("code", ObjVal::Str(code)),
        ("description", ObjVal::Str(description)),
    ];
    assert(object_fields(fields@) =~= seq![
        ("level"@, ValView::String(level@)),
        ("code"@, ValView::String(code@)),
        ("description"@, ValView::String(description@)),
    ]);
    w.object(fields.as_slice());
}

/// One inbound publish session on top of the two directions of a connection —
/// a real socket, or memory in tests.
///
/// Ownership flow: [`negotiate`](Self::negotiate) performs the handshake and
/// control plane and returns the accepted [`SessionInfo`]; then
/// [`pump`](Self::pump) decodes media into a [`PublishHandler`] until the
/// publisher stops. [`serve`](Self::serve) chains the two and hands both the
/// session info and the handler back.
pub struct PublishSession<R: Source, W: Sink> {
    link: Link<R, W>,
    cfg: ServerConfig,
    /// Its epoch is the start of the session: the deadline for finishing the
    /// handshake counts from there.
    clock: Clock,
    /// Last-seen codec configs, merged across sequence headers.
    avcc: Option<Vec<u8>>,
    asc: Option<Vec<u8>>,
    /// True once a `connect` to the served app has been accepted.
    connected: bool,
    /// The stream key; empty until the `publish`.
    key: String,
    /// The peer's address.
    peer: String,
    /// The log records that wait to be delivered.
    book: LogBook,
}

impl<R: Source, W: Sink> PublishSession<R, W> {
    /// The connection.
    pub closed spec fn spec_link(&self) -> LinkView {
        self.link@
    }

    /// True if everything that is sent is accepted.
    pub closed spec fn steady(&self) -> bool {
        self.link.steady()
    }

    /// The app that is served.
    pub closed spec fn served(&self) -> Seq<char> {
        self.cfg.app@
    }

    /// The last-seen AVCC.
    pub closed spec fn spec_avcc(&self) -> Option<Seq<u8>> {
        opt_bytes(self.avcc)
    }

    /// The last-seen ASC.
    pub closed spec fn spec_asc(&self) -> Option<Seq<u8>> {
        opt_bytes(self.asc)
    }

    /// How long the publisher may take to publish, in nanoseconds.
    pub closed spec fn patience(&self) -> u64 {
        self.cfg.timeout
    }

    /// The peer's address.
    pub closed spec fn spec_peer(&self) -> Seq<char> {
        self.peer@
    }

    /// The log records that wait to be delivered.
    pub closed spec fn spec_book(&self) -> BookView {
        self.book@
    }

    /// Keep log records up to this level, and no others; `None` keeps none.
    pub fn set_log_level(&mut self, max: Option<Level>)
        ensures
            final(self).spec_link() == old(self).spec_link(),
            final(self).steady() == old(self).steady(),
            final(self).served() == old(self).served(),
            final(self).patience() == old(self).patience(),
            final(self).spec_avcc() == old(self).spec_avcc(),
            final(self).spec_asc() == old(self).spec_asc(),
            final(self).spec_connected() == old(self).spec_connected(),
            final(self).spec_key() == old(self).spec_key(),
            final(self).spec_peer() == old(self).spec_peer(),
            final(self).spec_book() == (BookView { max, ..old(self).spec_book() }),
    {
        self.book.set_level(max);
    }

    /// The log records to deliver, in the order in which they came.
    pub fn take_records(&mut self) -> (records: Vec<Entry>)
        ensures
            final(self).spec_link() == old(self).spec_link(),
            final(self).steady() == old(self).steady(),
            final(self).served() == old(self).served(),
            final(self).patience() == old(self).patience(),
            final(self).spec_avcc() == old(self).spec_avcc(),
            final(self).spec_asc() == old(self).spec_asc(),
            final(self).spec_connected() == old(self).spec_connected(),
            final(self).spec_key() == old(self).spec_key(),
            final(self).spec_peer() == old(self).spec_peer(),
            entry_views(records@) == old(self).spec_book().records,
            final(self).spec_book() == (BookView {
                records: Seq::empty(),
                ..old(self).spec_book()
            }),
    {
        self.book.take()
    }

    /// True once a `connect` to the served app has been accepted.
    pub closed spec fn spec_connected(&self) -> bool {
        self.connected
    }

    /// The app the peer connected to; empty before that.
    pub open spec fn spec_app(&self) -> Seq<char> {
        if self.spec_connected() {
            self.served()
        } else {
            ""@
        }
    }

    /// The stream key.
    pub closed spec fn spec_key(&self) -> Seq<char> {
        self.key@
    }

    /// This session together with what a handler was told.
    pub open spec fn ingest<H: PublishHandler>(&self, handler: &H) -> IngestView {
        IngestView {
            link: self.spec_link(),
            avcc: self.spec_avcc(),
            asc: self.spec_asc(),
            told: handler.handled(),
        }
    }

    /// Wrap the two directions of a connection. `peer` is the publisher's
    /// address, best effort: empty for non-sockets.
    pub fn new(source: R, sink: W, cfg: ServerConfig, peer: &str) -> (s: Self)
        ensures
            s.spec_link() == (LinkView {
                reader: ReaderView::fresh(),
                input: source.input(),
                ending: source.ending(),
                out: sink.written(),
                negotiated: false,
                window: 0,
                acked: 0,
                framed: 0,
            }),
            s.steady() == sink.reliable(),
            s.served() == cfg.app@,
            s.patience() == cfg.timeout,
            s.spec_avcc() is None,
            s.spec_asc() is None,
            s.spec_peer() == peer@,
            !s.spec_connected(),
            s.spec_book() == BookView::closed(),
            s.spec_key() == ""@,
    {
        PublishSession {
            link: Link::new(source, sink),
            cfg,
            clock: Clock::new(),
            avcc: None,
            asc: None,
            connected: false,
            key: "".to_owned(),
            peer: peer.to_owned(),
            book: LogBook::new(),
        }
    }

    /// The peer this session is serving (best effort; empty for non-sockets).
    pub fn peer(&self) -> (peer: &str)
        ensures
            peer@ == self.spec_peer(),
    {
        self.peer.as_str()
    }

    /// The app the peer connected to, once `connect` is answered.
    pub fn app(&self) -> (app: &str)
        ensures
            app@ == self.spec_app(),
    {
        if self.connected {
            self.cfg.app.as_str()
        } else {
            ""
        }
    }

    /// The negotiated stream key, once `publish` is answered.
    pub fn key(&self) -> (key: &str)
        ensures
            key@ == self.spec_key(),
    {
        self.key.as_str()
    }

    /// Give the outbound direction of the connection back.
    pub fn into_sink(self) -> (sink: W)
        ensures
            sink.written() == self.spec_link().out,
    {
        self.link.into_sink()
    }

    /// The RTMP handshake: read C0/C1, answer S0/S1/S2, drain C2. We serve the
    /// simple handshake (the one ffmpeg, OBS, and our own transport use): S1 is
    /// `time + zeros + random`, S2 echoes the peer's C1 — a digest-capable
    /// client simply falls back to the simple path for its C2, which we ignore.
    fn handshake(&mut self, now: u32) -> (r: Result<(), IoError>)
        ensures
            final(self).book == old(self).book,
            r is Ok ==> welcomed(old(self).spec_link(), now) == Ok::<LinkView, Refusal>(
                final(self).spec_link(),
            ),
            r is Ok ==> final(self).spec_link().ending == old(self).spec_link().ending,
            old(self).steady() ==> final(self).steady() && match welcomed(
                old(self).spec_link(),
                now,
            ) {
                Ok(_) => r is Ok,
                Err(f) => r matches Err(e) && refuses(e, f, old(self).spec_link().ending),
            },
            final(self).cfg == old(self).cfg,
            final(self).connected == old(self).connected,
            final(self).key == old(self).key,
            final(self).peer == old(self).peer,
            final(self).avcc == old(self).avcc,
            final(self).asc == old(self).asc,
    {
        let ghost start = self.link@;
        let c0: Vec<u8> = self.link.read_raw(1)?;
        if c0[0] != 3 {
            let mut out: String = "peer offered RTMP version ".to_owned();
            append_decimal(&mut out, c0[0] as u64);
            return Err(invalid(out));
        }
        let c1: Vec<u8> = self.link.read_raw(1536)?;
        proof {
            bytes::lemma_skip_skip(start.input, 1, 1536);
            assert(c1@ =~= start.input.subrange(1, 1537));
            assert(c1@.skip(0) =~= c1@);
        }
        // A per-connection seed so two sessions in the same second differ.
        let seed: u64 = bytes::read_be32(c1.as_slice(), 0) as u64 ^ now as u64
            ^ 0x9E37_79B9_7F4A_7C15u64;
        let s1: Vec<u8> = handshake::build_s1_simple(now, seed);
        let s2: Vec<u8> = handshake::build_s2(c1.as_slice());
        let mut version: Vec<u8> = Vec::new();
        version.push(3);
        assert(version@ =~= seq![3u8]);
        self.link.write_raw(version.as_slice())?;
        self.link.write_raw(s1.as_slice())?;
        self.link.write_raw(s2.as_slice())?;
        self.link.flush()?;
        let _c2: Vec<u8> = self.link.read_raw(1536)?;
        proof {
            bytes::lemma_skip_skip(start.input, 1537, 1536);
        }
        Ok(())
    }

    /// Tell the publisher how this server sends bytes: a larger chunk size,
    /// our acknowledgement window, and our peer bandwidth limit. The chunk size
    /// message itself goes out at the old 128-byte chunking, then we switch.
    fn announce_limits(&mut self) -> (r: Result<(), IoError>)
        ensures
            final(self).book == old(self).book,
            r is Ok ==> final(self).spec_link() == limited(old(self).spec_link()),
            final(self).spec_link().ending == old(self).spec_link().ending,
            old(self).steady() ==> r is Ok && final(self).steady(),
            final(self).cfg == old(self).cfg,
            final(self).connected == old(self).connected,
            final(self).key == old(self).key,
            final(self).peer == old(self).peer,
            final(self).avcc == old(self).avcc,
            final(self).asc == old(self).asc,
    {
        self.link.announce_chunk_size()?;
        let mut window: Vec<u8> = Vec::new();
        bytes::append_be32(&mut window, ACK_WINDOW);
        assert(window@ =~= be32(ACK_WINDOW as int));
        self.link.send_message(CID_COMMAND, MSG_WINDOW_ACK, 0, 0, window.as_slice())?;
        window.push(2);  // limit type: dynamic
        assert(window@ =~= be32(ACK_WINDOW as int) + seq![2u8]);
        self.link.send_message(CID_COMMAND, MSG_SET_PEER_BW, 0, 0, window.as_slice())
    }

    /// Send one command message (commands ride chunk stream 3).
    fn send_command(&mut self, stream_id: u32, payload: &[u8]) -> (r: Result<(), IoError>)
        ensures
            final(self).book == old(self).book,
            r is Ok ==> final(self).spec_link() == old(self).spec_link().sent(
                CID_COMMAND,
                MSG_AMF0_COMMAND,
                stream_id,
                0,
                payload@,
            ),
            final(self).spec_link().ending == old(self).spec_link().ending,
            old(self).steady() ==> r is Ok && final(self).steady(),
            final(self).cfg == old(self).cfg,
            final(self).connected == old(self).connected,
            final(self).key == old(self).key,
            final(self).peer == old(self).peer,
            final(self).avcc == old(self).avcc,
            final(self).asc == old(self).asc,
    {
        self.link.send_message(CID_COMMAND, MSG_AMF0_COMMAND, stream_id, 0, payload)
    }

    /// Answer `connect`: validate the app, then reply `_result` (with the
    /// echoed transaction id) carrying the server capabilities.
    fn answer_connect(&mut self, vals: &[Val]) -> (r: Result<(), IoError>)
        ensures
            final(self).book == old(self).book,
            ({
                let v = items_view(vals@);
                let asked = asked_app(v);
                let txn = answer_txn(v, 1);
                let replied = old(self).spec_link().sent(
                    CID_COMMAND,
                    MSG_AMF0_COMMAND,
                    0,
                    0,
                    if asked == old(self).served() {
                        connect_result(txn)
                    } else {
                        connect_error(txn, asked)
                    },
                );
                &&& r is Ok ==> asked == old(self).served() && final(self).spec_link() == replied
                    && final(self).spec_connected()
                &&& old(self).steady() ==> final(self).spec_link() == replied
                &&& old(self).steady() && asked == old(self).served() ==> r is Ok
                &&& asked != old(self).served() ==> (r matches Err(e) && e.kind
                    == IoErrorKind::InvalidData && e.message@ == unknown_app_text(
                    asked,
                    old(self).served(),
                ))
            }),
            final(self).spec_link().ending == old(self).spec_link().ending,
            old(self).steady() ==> final(self).steady(),
            final(self).spec_key() == old(self).spec_key(),
            final(self).spec_peer() == old(self).spec_peer(),
            final(self).cfg == old(self).cfg,
            final(self).avcc == old(self).avcc,
            final(self).asc == old(self).asc,
    {
        let txn: u64 = txn_or(vals, 1);
        let app: String = find_app(vals);
        if !same_text(app.as_str(), self.cfg.app.as_str()) {
            let mut description: String = "unknown app `".to_owned();
            description.append(app.as_str());
            description.append("`");
            let mut w: Writer = reply("_error", txn);
            append_status(
                &mut w,
                "error",
                "NetConnection.Connect.Rejected",
                description.as_str(),
            );
            let refusal: Vec<u8> = w.into_bytes();
            // Best effort: failing to send the refusal does not mask it.
            let _ = self.send_command(0, refusal.as_slice());
            let mut out: String = "publisher asked for app `".to_owned();
            out.append(app.as_str());
            out.append("`, server serves `");
            out.append(self.cfg.app.as_str());
            out.append("`");
            return Err(invalid(out));
        }
        self.connected = true;
        let mut w: Writer = reply("_result", txn);
        let fields: [(&str, ObjVal<'_>); 3] = [
            ("fmsVer", ObjVal::Str("FMS/3,0,1,123")),
            ("capabilities", ObjVal::Num(double_bits(31))),
            ("mode", ObjVal::Num(double_bits(1))),
        ];
        assert(object_fields(fields@) =~= seq![
            ("fmsVer"@, ValView::String("FMS/3,0,1,123"@)),
            ("capabilities"@, ValView::Number(double_of(31) as u64)),
            ("mode"@, ValView::Number(double_of(1) as u64)),
        ]);
        w.object(fields.as_slice());
        let result: Vec<u8> = w.into_bytes();
        self.send_command(0, result.as_slice())
    }

    /// `releaseStream` / `FCPublish` (sent by ffmpeg before `createStream`):
    /// they expect a plain `_result`.
    fn answer_empty_transaction(&mut self, vals: &[Val]) -> (r: Result<(), IoError>)
        ensures
            final(self).book == old(self).book,
            r is Ok ==> final(self).spec_link() == old(self).spec_link().sent(
                CID_COMMAND,
                MSG_AMF0_COMMAND,
                0,
                0,
                empty_result(answer_txn(items_view(vals@), 1)),
            ),
            final(self).spec_link().ending == old(self).spec_link().ending,
            old(self).steady() ==> r is Ok && final(self).steady(),
            final(self).cfg == old(self).cfg,
            final(self).connected == old(self).connected,
            final(self).key == old(self).key,
            final(self).peer == old(self).peer,
            final(self).avcc == old(self).avcc,
            final(self).asc == old(self).asc,
    {
        let mut w: Writer = reply("_result", txn_or(vals, 1));
        w.null();
        let result: Vec<u8> = w.into_bytes();
        self.send_command(0, result.as_slice())
    }

    /// Answer `createStream`: grant stream id 1.
    fn answer_create_stream(&mut self, vals: &[Val]) -> (r: Result<(), IoError>)
        ensures
            final(self).book == old(self).book,
            r is Ok ==> final(self).spec_link() == old(self).spec_link().sent(
                CID_COMMAND,
                MSG_AMF0_COMMAND,
                0,
                0,
                create_stream_result(answer_txn(items_view(vals@), 2)),
            ),
            final(self).spec_link().ending == old(self).spec_link().ending,
            old(self).steady() ==> r is Ok && final(self).steady(),
            final(self).cfg == old(self).cfg,
            final(self).connected == old(self).connected,
            final(self).key == old(self).key,
            final(self).peer == old(self).peer,
            final(self).avcc == old(self).avcc,
            final(self).asc == old(self).asc,
    {
        let mut w: Writer = reply("_result", txn_or(vals, 2));
        w.number(double_bits(PUBLISH_STREAM_ID));
        let result: Vec<u8> = w.into_bytes();
        self.send_command(0, result.as_slice())
    }

    /// Answer `publish`: record the stream key and confirm with `onStatus`
    /// `NetStream.Publish.Start` on the publish stream.
    fn answer_publish(&mut self, vals: &[Val]) -> (r: Result<(), IoError>)
        ensures
            r is Err ==> final(self).book == old(self).book,
            r is Ok ==> final(self).spec_book() == accepted_note(
                old(self).spec_book(),
                old(self).served(),
                final(self).spec_key(),
                old(self).spec_peer(),
            ),
            r is Ok ==> old(self).spec_connected() && publish_key(items_view(vals@)) == Some(
                final(self).spec_key(),
            ) && final(self).spec_link() == old(self).spec_link().sent(
                CID_COMMAND,
                MSG_AMF0_COMMAND,
                PUBLISH_STREAM_ID,
                0,
                publish_started(),
            ),
            final(self).spec_link().ending == old(self).spec_link().ending,
            old(self).steady() ==> final(self).steady() && (r is Ok <==> old(self).spec_connected()
                && publish_key(items_view(vals@)) is Some),
            !old(self).spec_connected() ==> (r matches Err(e) && refuses(
                e,
                Refusal::NoConnect,
                old(self).spec_link().ending,
            )) && *final(self) == *old(self),
            old(self).spec_connected() && publish_key(items_view(vals@)) is None ==> (r matches Err(
                e,
            ) && refuses(e, Refusal::NoKey, old(self).spec_link().ending)) && *final(self) == *old(
                self,
            ),
            final(self).spec_connected() == old(self).spec_connected(),
            final(self).spec_peer() == old(self).spec_peer(),
            final(self).cfg == old(self).cfg,
            final(self).avcc == old(self).avcc,
            final(self).asc == old(self).asc,
    {
        if !self.connected {
            return Err(invalid("publish command before connect".to_owned()));
        }
        proof {
            lemma_items(vals@);
        }
        let mut key: Option<String> = None;
        if vals.len() > 3 {
            if let Val::String(s) = &vals[3] {
                key = Some(s.clone());
            }
        }
        match key {
            None => Err(invalid("publish command carried no stream key".to_owned())),
            Some(k) => {
                self.key = k;
                let mut w: Writer = reply("onStatus", double_bits(0));
                append_status(
                    &mut w,
                    "status",
                    "NetStream.Publish.Start",
                    "Started publishing stream",
                );
                let status: Vec<u8> = w.into_bytes();
                self.send_command(PUBLISH_STREAM_ID, status.as_slice())?;
                self.note_accepted();
                Ok(())
            },
        }
    }

    /// Note that the publish was accepted.
    fn note_accepted(&mut self)
        ensures
            *final(self) == (PublishSession { book: final(self).book, ..*old(self) }),
            final(self).spec_book() == accepted_note(
                old(self).spec_book(),
                old(self).served(),
                old(self).spec_key(),
                old(self).spec_peer(),
            ),
    {
        let fields: [Field<'_>; 3] = [
            Field { key: "app", value: FieldValue::Str(self.cfg.app.as_str()) },
            Field { key: "key", value: FieldValue::Str(self.key.as_str()) },
            Field { key: "peer", value: FieldValue::Str(self.peer.as_str()) },
        ];
        let list: &[Field<'_>] = fields.as_slice();
        let ghost level = Level::Info;
        assert((Record {
            level,
            module: "stream::rtmp::server",
            message: "ingest publish accepted",
            fields: list,
        })@.fields =~= seq![
            ("app"@, FieldView::Str(self.served())),
            ("key"@, FieldView::Str(self.spec_key())),
            ("peer"@, FieldView::Str(self.spec_peer())),
        ]);
        self.book.note(Level::Info, "stream::rtmp::server", "ingest publish accepted", list);
    }

    /// Answer one command. `Ok(true)` accepts the publish.
    fn answer(&mut self, vals: &[Val]) -> (r: Result<bool, IoError>)
        requires
            vals@.len() > 0,
            vals@[0] is String,
        ensures
            final(self).spec_book() == if r == Ok::<bool, IoError>(true) {
                accepted_note(
                    old(self).spec_book(),
                    old(self).served(),
                    final(self).spec_key(),
                    old(self).spec_peer(),
                )
            } else {
                old(self).spec_book()
            },
            ({
                let answer = answered(
                    old(self).spec_link(),
                    old(self).spec_connected(),
                    old(self).served(),
                    items_view(vals@),
                );
                &&& r matches Ok(done) ==> match answer {
                    Answer::More(l, connected) => !done && final(self).spec_link() == l
                        && final(self).spec_connected() == connected && final(self).spec_key()
                        == old(self).spec_key(),
                    Answer::Accepted(l, key) => done && final(self).spec_link() == l
                        && final(self).spec_connected() && final(self).spec_key() == key,
                    _ => false,
                }
                &&& answer matches Answer::UnknownApp(_, asked) ==> (r matches Err(e) && e.kind
                    == IoErrorKind::InvalidData && e.message@ == unknown_app_text(
                    asked,
                    old(self).served(),
                ))
                &&& answer is NoKey ==> (r matches Err(e) && refuses(
                    e,
                    Refusal::NoKey,
                    old(self).spec_link().ending,
                )) && *final(self) == *old(self)
                &&& answer is NoConnect ==> (r matches Err(e) && refuses(
                    e,
                    Refusal::NoConnect,
                    old(self).spec_link().ending,
                )) && *final(self) == *old(self)
                &&& old(self).steady() || !is_answered(
                    items_view(vals@),
                    old(self).spec_connected(),
                ) ==> match answer {
                    Answer::More(_, _) => r is Ok,
                    Answer::Accepted(_, _) => r is Ok,
                    Answer::UnknownApp(l, _) => final(self).spec_link() == l,
                    Answer::NoKey => true,
                    Answer::NoConnect => true,
                }
            }),
            final(self).spec_link().ending == old(self).spec_link().ending,
            old(self).steady() ==> final(self).steady(),
            final(self).spec_peer() == old(self).spec_peer(),
            final(self).cfg == old(self).cfg,
            final(self).avcc == old(self).avcc,
            final(self).asc == old(self).asc,
    {
        if is_named(vals, "connect") {
            self.answer_connect(vals)?;
            Ok(false)
        } else if is_named(vals, "releaseStream") || is_named(vals, "FCPublish") {
            self.answer_empty_transaction(vals)?;
            Ok(false)
        } else if is_named(vals, "createStream") {
            self.answer_create_stream(vals)?;
            Ok(false)
        } else if is_named(vals, "publish") {
            self.answer_publish(vals)?;
            Ok(true)
        } else {
            Ok(false)
        }
    }

    /// Take the next command of the control plane, `elapsed_ns` into the
    /// session, and answer it. `Ok(true)` accepts the publish; a publisher that
    /// has taken too long is not listened to any more.
    pub fn step(&mut self, elapsed_ns: u64) -> (r: Result<bool, IoError>)
        ensures
            final(self).spec_book() == if r == Ok::<bool, IoError>(true) {
                accepted_note(
                    old(self).spec_book(),
                    old(self).served(),
                    final(self).spec_key(),
                    old(self).spec_peer(),
                )
            } else {
                old(self).spec_book()
            },
            elapsed_ns >= old(self).patience() ==> *final(self) == *old(self) && (r matches Err(e)
                && took_too_long(e)),
            elapsed_ns < old(self).patience() ==> {
                let step = command_step(
                    old(self).spec_link(),
                    old(self).spec_connected(),
                    old(self).served(),
                );
                &&& r matches Ok(done) ==> if done {
                    step == Step::Over(
                        Negotiation::Accepted(
                            final(self).spec_link(),
                            old(self).served(),
                            final(self).spec_key(),
                        ),
                    ) && final(self).spec_connected()
                } else {
                    step == Step::More(final(self).spec_link(), final(self).spec_connected())
                        && final(self).spec_key() == old(self).spec_key()
                }
                &&& old(self).steady() || !owes_step(
                    old(self).spec_link(),
                    old(self).spec_connected(),
                ) ==> match step {
                    Step::More(_, _) => r is Ok,
                    Step::Over(Negotiation::Accepted(_, _, _)) => r is Ok,
                    Step::Over(Negotiation::UnknownApp(l, asked)) => final(self).spec_link() == l
                        && (r matches Err(e) && e.kind == IoErrorKind::InvalidData && e.message@
                        == unknown_app_text(asked, old(self).served())),
                    Step::Over(Negotiation::Failed(f)) => r matches Err(e) && refuses(
                        e,
                        f,
                        old(self).spec_link().ending,
                    ),
                }
            },
            r == Ok::<bool, IoError>(false) ==> final(self).spec_link().input.len()
                < old(self).spec_link().input.len(),
            r is Ok ==> final(self).spec_link().ending == old(self).spec_link().ending,
            old(self).steady() ==> final(self).steady(),
            final(self).spec_peer() == old(self).spec_peer(),
            final(self).served() == old(self).served(),
            final(self).patience() == old(self).patience(),
            final(self).spec_avcc() == old(self).spec_avcc(),
            final(self).spec_asc() == old(self).spec_asc(),
    {
        if elapsed_ns >= self.cfg.timeout {
            return Err(
                IoError::new(IoErrorKind::TimedOut, "no publish within the handshake budget"),
            );
        }
        proof {
            lemma_command_shrinks(self.link@, Some(64));
        }
        let vals: Vec<Val> = self.link.read_command(Some(MAX_PENDING_MESSAGES))?;
        proof {
            lemma_items(vals@);
        }
        self.answer(vals.as_slice())
    }

    /// Perform the handshake and control plane, returning what was published.
    /// Fails on a malformed peer, an unknown app, or if nothing is published
    /// within [`ServerConfig::timeout`]. `now` is the current Unix time in
    /// seconds.
    #[verifier::rlimit(40)]
    pub fn negotiate(&mut self, now: u32) -> (r: Result<SessionInfo, IoError>)
        ensures
            final(self).spec_book() == if r is Ok {
                accepted_note(
                    old(self).spec_book(),
                    old(self).served(),
                    final(self).spec_key(),
                    old(self).spec_peer(),
                )
            } else {
                old(self).spec_book()
            },
            ({
                let outcome = negotiation(
                    old(self).spec_link(),
                    now,
                    old(self).spec_connected(),
                    old(self).served(),
                );
                &&& r matches Ok(info) ==> {
                    &&& outcome == Negotiation::Accepted(
                        final(self).spec_link(),
                        info.app@,
                        info.key@,
                    )
                    &&& info.app@ == old(self).served()
                    &&& final(self).spec_connected()
                    &&& info.key@ == final(self).spec_key()
                    &&& info.peer@ == old(self).spec_peer()
                }
                &&& old(self).steady() ==> match r {
                    Ok(_) => true,
                    Err(e) => (took_too_long(e) && old(self).hurries(now)) || match outcome {
                        Negotiation::Accepted(_, _, _) => false,
                        Negotiation::UnknownApp(l, asked) => final(self).spec_link() == l
                            && e.kind == IoErrorKind::InvalidData && e.message@
                            == unknown_app_text(asked, old(self).served()),
                        Negotiation::Failed(f) => refuses(e, f, old(self).spec_link().ending),
                    },
                }
            }),
            r is Ok ==> final(self).spec_link().ending == old(self).spec_link().ending,
            old(self).steady() ==> final(self).steady(),
            final(self).spec_peer() == old(self).spec_peer(),
            final(self).served() == old(self).served(),
            final(self).spec_avcc() == old(self).spec_avcc(),
            final(self).spec_asc() == old(self).spec_asc(),
    {
        let ghost outcome = negotiation(
            old(self).spec_link(),
            now,
            old(self).spec_connected(),
            old(self).served(),
        );
        self.handshake(now)?;
        self.announce_limits()?;
        loop
            invariant
                outcome == negotiation(
                    old(self).spec_link(),
                    now,
                    old(self).spec_connected(),
                    old(self).served(),
                ),
                outcome == commanded(self.spec_link(), self.spec_connected(), self.served()),
                old(self).steady() ==> welcomed(old(self).spec_link(), now) is Ok,
                self.spec_link().ending == old(self).spec_link().ending,
                old(self).steady() ==> self.steady(),
                self.spec_peer() == old(self).spec_peer(),
                self.served() == old(self).served(),
                self.spec_book() == old(self).spec_book(),
                self.patience() == old(self).patience(),
                self.spec_avcc() == old(self).spec_avcc(),
                self.spec_asc() == old(self).spec_asc(),
            decreases self.spec_link().input.len(),
        {
            let elapsed_ns: u64 = self.clock.now_ns();
            if self.step(elapsed_ns)? {
                return Ok(
                    SessionInfo {
                        app: self.cfg.app.clone(),
                        key: self.key.clone(),
                        peer: self.peer.clone(),
                    },
                );
            }
        }
    }

    /// True if the time decides over a negotiation: the handshake comes through.
    pub open spec fn hurries(&self, now: u32) -> bool {
        welcomed(self.spec_link(), now) is Ok
    }

    /// A command arriving mid-stream. Returns `true` when the command ends the
    /// publish (`deleteStream`/`closeStream`/`FCUnpublish`); anything else is
    /// ignored.
    fn handle_stream_command<H: PublishHandler>(msg: &Message, handler: &mut H) -> (ended: bool)
        ensures
            ended == ends_publish(values_at(msg@.payload)),
            final(handler).handled() == if ended {
                old(handler).handled().push(HandlerCall::Finished)
            } else {
                old(handler).handled()
            },
    {
        let vals: Vec<Val> = Reader::new(msg.payload.as_slice()).read_all();
        proof {
            lemma_items(vals@);
        }
        if vals.len() == 0 {
            return false;
        }
        match &vals[0] {
            Val::String(_) => {},
            _ => {
                return false;
            },
        }
        let v: &[Val] = vals.as_slice();
        if is_named(v, "deleteStream") || is_named(v, "closeStream") || is_named(
            v,
            "FCUnpublish",
        ) {
            handler.finished();
            true
        } else {
            false
        }
    }

    /// Turn one video/audio message into a handler call.
    fn dispatch_media<H: PublishHandler>(&mut self, msg: &Message, handler: &mut H)
        ensures
            final(self).spec_book() == media_note(old(self).spec_book(), msg@),
            final(self).ingest(final(handler)) == old(self).ingest(old(handler)).with_media(msg@),
            final(self).link == old(self).link,
            final(self).cfg == old(self).cfg,
            final(self).connected == old(self).connected,
            final(self).key == old(self).key,
            final(self).peer == old(self).peer,
    {
        match flv::decode_tag(msg.mtype, msg.ts, msg.payload.as_slice()) {
            None => {
                let fields: [Field<'_>; 1] = [
                    Field { key: "mtype", value: FieldValue::Uint(msg.mtype as u64) },
                ];
                let list: &[Field<'_>] = fields.as_slice();
                let ghost level = Level::Debug;
                assert((Record {
                    level,
                    module: "stream::rtmp::server",
                    message: "skipping undecodable media message",
                    fields: list,
                })@.fields =~= seq![("mtype"@, FieldView::Uint(msg.mtype as u64))]);
                self.book.note(
                    Level::Debug,
                    "stream::rtmp::server",
                    "skipping undecodable media message",
                    list,
                );
            },
            Some(Decoded::VideoConfig(avcc)) => {
                self.avcc = Some(avcc);
                handler.configure(kept(&self.avcc), kept(&self.asc));
            },
            Some(Decoded::AudioConfig(asc)) => {
                self.asc = Some(asc);
                handler.configure(kept(&self.avcc), kept(&self.asc));
            },
            Some(Decoded::Packet(pkt)) => {
                handler.packet(&pkt);
            },
        }
    }

    /// True if `e` says why an ingest ended as `how` says, on a connection whose
    /// input ends with `ending`.
    pub open spec fn ended_with(e: IoError, how: IngestEnd, ending: IoErrorKind) -> bool {
        match how {
            IngestEnd::Clean => false,
            IngestEnd::Lost => e.kind == ending,
            IngestEnd::BadChunkSize => e.kind == IoErrorKind::InvalidData && e.message@
                == "peer set chunk size to 0"@,
        }
    }

    /// Process one message into `handler`. `Ok(true)` is the clean end. Only a
    /// read tells of the connection being closed: a reply that cannot be sent is
    /// a failure, whatever its kind.
    fn pump_one<H: PublishHandler>(&mut self, handler: &mut H) -> (r: Result<bool, IoError>)
        ensures
            final(self).spec_book() == old(self).spec_book() || (old(
                self,
            ).spec_link().read() matches Some((_, m)) && final(self).spec_book() == media_note(
                old(self).spec_book(),
                m,
            )),
            ({
                let was = old(self).ingest(old(handler));
                let told = final(handler).handled();
                match was.link.read() {
                    None => if closing(was.link.ending) {
                        r == Ok::<bool, IoError>(true) && told == was.told.push(
                            HandlerCall::Finished,
                        )
                    } else {
                        (r matches Err(e) && e.kind == was.link.ending) && told == was.told
                    },
                    Some((l, m)) => match r {
                        Ok(true) => ingested(was).1 is Clean && told == ingested(was).0.told,
                        Ok(false) => {
                            let now = final(self).ingest(final(handler));
                            &&& ingest_step(was) == Some(now)
                            &&& ingested(now) == ingested(was)
                            &&& told == was.told || told == IngestView {
                                link: l.acknowledged(),
                                ..was
                            }.with_media(m).told
                            &&& now.link.ending == was.link.ending
                        },
                        Err(e) => told == was.told && match l.acknowledged().controlled(m) {
                            None => ingested(was).1 is BadChunkSize && Self::ended_with(
                                e,
                                IngestEnd::BadChunkSize,
                                was.link.ending,
                            ) || l.owes_ack(),
                            Some(_) => l.owes_ack() || l.acknowledged().owes_answer(m),
                        },
                    },
                }
            }),
            old(self).steady() ==> ({
                let was = old(self).ingest(old(handler));
                let (end, how) = ingested(was);
                r matches Err(e) ==> final(handler).handled() == end.told && Self::ended_with(
                    e,
                    how,
                    was.link.ending,
                )
            }),
            r == Ok::<bool, IoError>(false) ==> final(self).spec_link().input.len()
                < old(self).spec_link().input.len(),
            old(self).steady() ==> final(self).steady(),
            final(self).cfg == old(self).cfg,
            final(self).connected == old(self).connected,
            final(self).key == old(self).key,
            final(self).peer == old(self).peer,
    {
        proof {
            lemma_received_shrinks(self.link@);
        }
        let msg: Message = match self.link.read_next() {
            Ok(m) => m,
            Err(e) => {
                // A dropped connection is the normal way ingest ends.
                if is_closed(&e) {
                    handler.finished();
                    return Ok(true);
                }
                return Err(e);
            },
        };
        self.link.maybe_send_ack()?;
        if msg.mtype == MSG_VIDEO || msg.mtype == MSG_AUDIO {
            self.dispatch_media(&msg, handler);
            Ok(false)
        } else if msg.mtype == MSG_AMF0_COMMAND {
            Ok(Self::handle_stream_command(&msg, handler))
        } else {
            self.link.handle_control(&msg)?;
            Ok(false)
        }
    }

    /// Process media into `handler` until the publisher unpublishes or the
    /// connection closes. Returns `Ok` for a clean end (`deleteStream`,
    /// `closeStream`, `FCUnpublish`, or an EOF / reset from the peer); a
    /// timeout or other I/O error is returned.
    ///
    /// The handler is told of the end once, behind everything else, and only
    /// where the end is clean. A reply to the publisher that cannot be sent cuts
    /// the ingest off: the handler has then been told the first part of what the
    /// whole of it would have told. Nothing else cuts it off.
    pub fn pump<H: PublishHandler>(&mut self, handler: &mut H) -> (r: Result<(), IoError>)
        ensures
            exists|n: nat| #[trigger]
                old(self).spec_book().repeated(
                    final(self).spec_book(),
                    Level::Debug,
                    "stream::rtmp::server"@,
                    "skipping undecodable media message"@,
                    n,
                ),
            ({
                let was = old(self).ingest(old(handler));
                let told = final(handler).handled();
                let (end, how) = ingested(was);
                match r {
                    Ok(()) => how is Clean && told == end.told,
                    Err(e) => {
                        &&& was.told.is_prefix_of(told)
                        &&& told.is_prefix_of(end.told)
                        &&& forall|k: int|
                            was.told.len() <= k < told.len() ==> #[trigger] told[k]
                                != HandlerCall::Finished
                        &&& old(self).steady() || !broke_off(was, told) ==> told == end.told
                            && Self::ended_with(e, how, was.link.ending)
                    },
                }
            }),
            old(self).steady() ==> (r is Ok <==> ingested(
                old(self).ingest(old(handler)),
            ).1 is Clean),
            final(self).spec_peer() == old(self).spec_peer(),
            final(self).spec_connected() == old(self).spec_connected(),
            final(self).spec_key() == old(self).spec_key(),
            final(self).served() == old(self).served(),
    {
        let ghost was = self.ingest(handler);
        let ghost mut skipped: nat = 0;
        proof {
            lemma_none_repeated(
                self.book@,
                Level::Debug,
                "stream::rtmp::server"@,
                "skipping undecodable media message"@,
            );
            clean_ends_are_told_once(was);
        }
        loop
            invariant
                was == old(self).ingest(old(handler)),
                old(self).steady() ==> self.steady(),
                ingested(self.ingest(handler)) == ingested(was),
                forall|told: Seq<HandlerCall>| #[trigger]
                    broke_off(self.ingest(handler), told) ==> broke_off(was, told),
                was.told.is_prefix_of(handler.handled()),
                forall|k: int|
                    was.told.len() <= k < handler.handled().len() ==> #[trigger] handler.handled()[k]
                        != HandlerCall::Finished,
                old(self).spec_book().repeated(
                    self.spec_book(),
                    Level::Debug,
                    "stream::rtmp::server"@,
                    "skipping undecodable media message"@,
                    skipped,
                ),
                self.spec_link().ending == was.link.ending,
                self.cfg == old(self).cfg,
                self.connected == old(self).connected,
                self.key == old(self).key,
                self.peer == old(self).peer,
            decreases self.spec_link().input.len(),
        {
            proof {
                clean_ends_are_told_once(self.ingest(handler));
            }
            let ghost book = self.book@;
            let ghost here = self.ingest(handler);
            let outcome: Result<bool, IoError> = self.pump_one(handler);
            proof {
                if self.book@ != book {
                    let mtype = choose|mtype: u8|
                        self.book@ == #[trigger] book.noted(
                            Level::Debug,
                            "stream::rtmp::server"@,
                            "skipping undecodable media message"@,
                            seq![("mtype"@, FieldView::Uint(mtype as u64))],
                        );
                    lemma_one_repeated(
                        book,
                        Level::Debug,
                        "stream::rtmp::server"@,
                        "skipping undecodable media message"@,
                        seq![("mtype"@, FieldView::Uint(mtype as u64))],
                    );
                    lemma_repeated(
                        old(self).book@,
                        book,
                        self.book@,
                        Level::Debug,
                        "stream::rtmp::server"@,
                        "skipping undecodable media message"@,
                        skipped,
                        1,
                    );
                    skipped = skipped + 1;
                }
            }
            match outcome {
                Ok(true) => {
                    return Ok(());
                },
                Ok(false) => {
                    proof {
                        lemma_broke_later(here, self.ingest(handler));
                    }
                },
                Err(e) => {
                    proof {
                        if let Some((l, m)) = here.link.read() {
                            if l.owes_ack() || l.acknowledged().owes_answer(m) {
                                lemma_broke_here(here);
                                assert(broke_off(was, handler.handled()));
                            }
                        }
                    }
                    return Err(e);
                },
            }
        }
    }

    /// `negotiate` then `pump`; returns the session info and the handler back
    /// (so the caller can inspect the HLS files the session produced, say). The
    /// log records go with the session: a caller that wants them negotiates and
    /// pumps.
    pub fn serve<H: PublishHandler>(self, handler: H, now: u32) -> (r: Result<
        (SessionInfo, H),
        IoError,
    >)
        ensures
            ({
                let outcome = negotiation(
                    self.spec_link(),
                    now,
                    self.spec_connected(),
                    self.served(),
                );
                &&& r matches Ok((info, h)) ==> (outcome matches Negotiation::Accepted(l, app, key)
                    && ({
                    let (end, how) = ingested(
                        IngestView {
                            link: l,
                            avcc: self.spec_avcc(),
                            asc: self.spec_asc(),
                            told: handler.handled(),
                        },
                    );
                    &&& how is Clean
                    &&& h.handled() == end.told
                    &&& app == self.served()
                    &&& info.app@ == app
                    &&& info.key@ == key
                    &&& info.peer@ == self.spec_peer()
                }))
                &&& self.steady() ==> match r {
                    Ok(_) => true,
                    Err(e) => (took_too_long(e) && self.hurries(now)) || match outcome {
                        Negotiation::Accepted(l, _, _) => {
                            let (end, how) = ingested(
                                IngestView {
                                    link: l,
                                    avcc: self.spec_avcc(),
                                    asc: self.spec_asc(),
                                    told: handler.handled(),
                                },
                            );
                            Self::ended_with(e, how, self.spec_link().ending)
                        },
                        Negotiation::UnknownApp(_, asked) => e.kind == IoErrorKind::InvalidData
                            && e.message@ == unknown_app_text(asked, self.served()),
                        Negotiation::Failed(f) => refuses(e, f, self.spec_link().ending),
                    },
                }
            }),
    {
        let mut session = self;
        let mut handler = handler;
        let info: SessionInfo = session.negotiate(now)?;
        session.pump(&mut handler)?;
        Ok((info, handler))
    }
}

/// A publisher dropping the connection is the normal end of ingest, not an
/// error worth propagating.
pub fn is_closed(e: &IoError) -> (closed: bool)
    ensures
        closed == closing(e.kind),
{
    match e.kind {
        IoErrorKind::UnexpectedEof => true,
        IoErrorKind::ConnectionReset => true,
        IoErrorKind::ConnectionAborted => true,
        IoErrorKind::BrokenPipe => true,
        _ => false,
    }
}

/// An ingest tells the handler things in addition to what it was told before,
/// and tells it of the end exactly when the end is clean: once, and last.
pub proof fn clean_ends_are_told_once(i: IngestView)
    ensures
        ({
            let (end, how) = ingested(i);
            &&& i.told.is_prefix_of(end.told)
            &&& how is Clean ==> end.told.len() > i.told.len() && end.told.last()
                == HandlerCall::Finished
            &&& forall|k: int|
                i.told.len() <= k < end.told.len() && #[trigger] end.told[k]
                    == HandlerCall::Finished ==> how is Clean && k == end.told.len() - 1
        }),
    decreases i.link.input.len(),
{
    if let Some((l, m)) = i.link.received() {
        let read = IngestView { link: l, ..i };
        if l.input.len() < i.link.input.len() {
            if m.mtype == MSG_VIDEO || m.mtype == MSG_AUDIO {
                let next = read.with_media(m);
                clean_ends_are_told_once(next);
                let told = ingested(next).0.told;
                assert(i.told.is_prefix_of(next.told));
                assert forall|k: int| 0 <= k < next.told.len() implies told[k]
                    == #[trigger] next.told[k] by {
                    assert(next.told == told.subrange(0, next.told.len() as int));
                }
                assert(i.told =~= told.subrange(0, i.told.len() as int));
                assert forall|k: int| i.told.len() <= k < next.told.len() implies told[k]
                    != HandlerCall::Finished by {
                    assert(told[k] == next.told[k]);
                }
            } else if m.mtype == MSG_AMF0_COMMAND {
                clean_ends_are_told_once(read);
            } else if let Some(l2) = l.controlled(m) {
                if l2.input.len() < i.link.input.len() {
                    clean_ends_are_told_once(IngestView { link: l2, ..i });
                }
            }
        }
    }
}

/// A publisher is only accepted for the app that is served, and one that asked
/// for that app is never turned away as if it had asked for another.
pub proof fn accepted_apps_are_served(l: LinkView, connected: bool, served: Seq<char>)
    ensures
        commanded(l, connected, served) matches Negotiation::Accepted(_, accepted, _) ==> accepted
            == served,
        commanded(l, connected, served) matches Negotiation::UnknownApp(_, asked) ==> asked
            != served,
    decreases l.input.len(),
{
    if let Step::More(l2, next) = command_step(l, connected, served) {
        if l2.input.len() < l.input.len() {
            accepted_apps_are_served(l2, next, served);
        }
    }
}

/// True if some command before the `publish` was a `connect` to the app that is
/// served.
pub open spec fn connects(l: LinkView, connected: bool, served: Seq<char>) -> bool
    decreases l.input.len(),
{
    match command_step(l, connected, served) {
        Step::Over(_) => false,
        Step::More(l2, next) => {
            ||| next_command(l, Some(64)) matches CommandView::Command(_, vals) && command_name(vals)
                == "connect"@ && asked_app(vals) == served
            ||| l2.input.len() < l.input.len() && connects(l2, next, served)
        },
    }
}

/// No publisher is accepted that did not connect to the app that is served.
pub proof fn publishes_need_a_connect(l: LinkView, served: Seq<char>)
    ensures
        commanded(l, false, served) is Accepted ==> connects(l, false, served),
    decreases l.input.len(),
{
    if let Step::More(l2, next) = command_step(l, false, served) {
        if l2.input.len() < l.input.len() && !next {
            publishes_need_a_connect(l2, served);
        }
    }
}

} // verus!
