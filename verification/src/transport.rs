//! Transport abstraction. The muxer writes FLV bytes; this trait decides where
//! those bytes go: a file, an RTMP connection, several of them at once.
//!
//! Because everything upstream only depends on `write_all` and `shutdown`,
//! adding a new transport never touches the muxer or engine.

use vstd::prelude::*;

use crate::flv::flv_header;
use crate::io::{Faults, IoError, IoErrorKind, Sink};
use crate::telemetry::{
    entry_views, lemma_none_repeated, lemma_one_repeated, lemma_repeated, BookView, Entry,
    FieldView, Level, LogBook,
};

verus! {

/// Anything that can receive stream bytes. Implementations may buffer and push
/// in their own pacing (a network socket, a file, an in-memory sink). Times
/// are in nanoseconds on the caller's monotonic clock.
pub trait Transport: Sink {
    /// What [`Transport::last_progress`] reports. Unknown of an implementation
    /// that does not say.
    open spec fn progress(&self) -> Option<u64> {
        arbitrary()
    }

    /// What [`Transport::bytes_written`] reports. Unknown of an implementation
    /// that does not say.
    open spec fn sent(&self) -> u64 {
        arbitrary()
    }

    /// What [`Transport::rtt`] reports. Unknown of an implementation that does
    /// not say.
    open spec fn round_trip(&self) -> Option<u64> {
        arbitrary()
    }

    /// Gracefully end the stream. For a file this is a flush; for RTMP this is
    /// the "stream ended" handshake that tells the server to close the ingest.
    fn shutdown(&mut self) -> (r: Result<(), IoError>)
        ensures
            final(self).written() == old(self).written(),
            final(self).faults() == old(self).faults().shut_down(r is Err),
            old(self).reliable() ==> r is Ok && final(self).reliable(),
            old(self).takes_flv() ==> r is Ok && final(self).takes_flv(),
    ;

    /// When the transport last made forward progress (bytes accepted on the
    /// wire, or a reply received from the peer). `None` means the transport
    /// does not report progress (files, test sinks) and can never "stall".
    /// The session uses this to detect zombie connections: writes that the
    /// kernel happily buffers but the peer never consumes.
    fn last_progress(&self) -> (at: Option<u64>)
        ensures
            at == self.progress(),
    ;

    /// Total bytes written to the medium, transport framing included; 0 for
    /// transports that don't count. The engine derives "effective throughput"
    /// from the delta between samples.
    fn bytes_written(&self) -> (n: u64)
        ensures
            n == self.sent(),
    ;

    /// Latest measured round-trip time to the peer in nanoseconds, when the
    /// transport can measure it.
    fn rtt(&self) -> (ns: Option<u64>)
        ensures
            ns == self.round_trip(),
    ;

    /// Service the connection's inbound direction and run its own health
    /// checks. Called by the engine once per tick, *before* muxing, so a
    /// dead peer is discovered here rather than after more bytes were fed
    /// into a socket nobody is reading. An error is a transport failure like
    /// any write error: the session tears down and reconnects.
    fn maintain(&mut self) -> (r: Result<(), IoError>)
        ensures
            final(self).written() == old(self).written(),
            final(self).faults() == old(self).faults().checked(r is Err),
            old(self).reliable() ==> r is Ok && final(self).reliable(),
            old(self).takes_flv() ==> r is Ok && final(self).takes_flv(),
    ;
}

/// Writes bytes to a local file — the simplest transport, used by tests and
/// the demo to prove the pipeline produces a valid playable stream.
pub struct FileTransport<W: Sink> {
    inner: W,
    bytes: u64,
    faults: Ghost<Faults>,
}

impl<W: Sink> FileTransport<W> {
    /// The wrapped writer.
    pub closed spec fn spec_inner(&self) -> W {
        self.inner
    }

    /// Wrap any writer (file, socket, in-memory buffer) as a transport.
    pub fn new(inner: W) -> (t: Self)
        ensures
            t.spec_inner() == inner,
            t.written() == inner.written(),
            t.reliable() == inner.reliable(),
            t.takes_flv() == inner.takes_flv(),
            t.sent() == 0,
            t.faults() == Faults::none(),
    {
        FileTransport { inner, bytes: 0, faults: Ghost(Faults::none()) }
    }

    /// Unwrap the underlying writer, useful after the stream ends (e.g. to
    /// read back the bytes an in-memory sink collected).
    pub fn into_inner(self) -> (inner: W)
        ensures
            inner == self.spec_inner(),
            inner.written() == self.written(),
    {
        self.inner
    }
}

impl<W: Sink> Sink for FileTransport<W> {
    closed spec fn written(&self) -> Seq<u8> {
        self.inner.written()
    }

    closed spec fn reliable(&self) -> bool {
        self.inner.reliable()
    }

    closed spec fn takes_flv(&self) -> bool {
        self.inner.takes_flv()
    }

    closed spec fn faults(&self) -> Faults {
        self.faults@
    }

    fn write_all(&mut self, data: &[u8]) -> (r: Result<(), IoError>)
        ensures
            r is Ok ==> final(self).sent() == (old(self).sent() + data@.len())
                % 0x1_0000_0000_0000_0000,
            r is Err ==> final(self).sent() == old(self).sent(),
    {
        let r: Result<(), IoError> = self.inner.write_all(data);
        if r.is_ok() {
            self.bytes = self.bytes.wrapping_add(data.len() as u64);
        }
        self.faults = Ghost(self.faults@.written(r is Err));
        r
    }

    fn flush(&mut self) -> (r: Result<(), IoError>)
        ensures
            final(self).sent() == old(self).sent(),
    {
        let r: Result<(), IoError> = self.inner.flush();
        self.faults = Ghost(self.faults@.flushed(r is Err));
        r
    }
}

impl<W: Sink> Transport for FileTransport<W> {
    open spec fn progress(&self) -> Option<u64> {
        None
    }

    closed spec fn sent(&self) -> u64 {
        self.bytes
    }

    open spec fn round_trip(&self) -> Option<u64> {
        None
    }

    fn shutdown(&mut self) -> (r: Result<(), IoError>)
        ensures
            final(self).sent() == old(self).sent(),
    {
        let r: Result<(), IoError> = self.inner.flush();
        self.faults = Ghost(self.faults@.shut_down(r is Err));
        r
    }

    fn last_progress(&self) -> (at: Option<u64>) {
        None
    }

    fn bytes_written(&self) -> (n: u64) {
        self.bytes
    }

    fn rtt(&self) -> (ns: Option<u64>) {
        None
    }

    fn maintain(&mut self) -> (r: Result<(), IoError>)
        ensures
            r is Ok,
            *final(self) == *old(self),
    {
        Ok(())
    }
}

/// One slot in a [`Fanout`]: a downstream transport plus its health flag.
pub struct FanoutSlot<T: Transport> {
    /// The transport.
    pub transport: T,
    /// False once a secondary has failed.
    pub alive: bool,
}

/// A transport that tees every byte to several downstream transports at once —
/// e.g. publishing to two endpoints simultaneously, or publishing while feeding
/// a raw FLV relay.
///
/// Semantics:
/// - Every write goes to **all** live sinks, in order, each consuming the full
///   buffer before the call returns, so all downstream byte streams are
///   identical.
/// - The **first** sink added is the primary: its failures propagate to the
///   caller (so the session layer reconnects the publish path), while
///   secondary failures only retire that sink — a dead relay must not take the
///   primary stream down with it.
/// - A retired secondary is skipped forever after (no retry storm on a dead
///   endpoint); [`Fanout::alive`] reports how many sinks are still in service.
///
/// Note: a byte-level tee re-emits container headers on every reconnect, so a
/// *recording* that must stay one contiguous file belongs behind a packet-level
/// recorder instead.
pub struct Fanout<T: Transport> {
    primary: Option<T>,
    secondaries: Vec<FanoutSlot<T>>,
    faults: Ghost<Faults>,
    /// The log records that wait to be delivered.
    book: LogBook,
}

/// How many of the slots are in service.
pub open spec fn alive_count<T: Transport>(slots: Seq<FanoutSlot<T>>) -> nat
    decreases slots.len(),
{
    if slots.len() == 0 {
        0
    } else {
        alive_count(slots.drop_last()) + (if slots.last().alive {
            1nat
        } else {
            0
        })
    }
}

/// The latest progress that a live slot reports.
pub open spec fn latest_progress<T: Transport>(slots: Seq<FanoutSlot<T>>) -> Option<u64>
    decreases slots.len(),
{
    if slots.len() == 0 {
        None
    } else {
        let before = latest_progress(slots.drop_last());
        let own = if slots.last().alive {
            slots.last().transport.progress()
        } else {
            None
        };
        match (before, own) {
            (Some(a), Some(b)) => if a > b {
                Some(a)
            } else {
                Some(b)
            },
            (None, Some(b)) => Some(b),
            (a, None) => a,
        }
    }
}

/// The first round-trip time that a slot in service reports.
pub open spec fn first_round_trip<T: Transport>(slots: Seq<FanoutSlot<T>>) -> Option<u64>
    decreases slots.len(),
{
    if slots.len() == 0 {
        None
    } else if slots.first().alive && slots.first().transport.round_trip() is Some {
        slots.first().transport.round_trip()
    } else {
        first_round_trip(slots.drop_first())
    }
}

/// The calls that a fanout passes on to its sinks.
pub enum Call {
    /// A write.
    Write,
    /// A flush.
    Flush,
    /// A health check.
    Maintain,
}

/// True if the call was made once between `before` and `after`, and failed.
pub open spec fn failed_in<T: Transport>(call: Call, before: T, after: T) -> bool {
    match call {
        Call::Write => after.faults().writes == before.faults().writes + 1,
        Call::Flush => after.faults().flushes == before.faults().flushes + 1,
        Call::Maintain => after.faults().checks == before.faults().checks + 1,
    }
}

/// True if the call was made once between `before` and `after`, and came
/// through.
pub open spec fn came_through<T: Transport>(call: Call, before: T, after: T) -> bool {
    match call {
        Call::Write => after.faults().writes == before.faults().writes,
        Call::Flush => after.faults().flushes == before.faults().flushes,
        Call::Maintain => after.faults().checks == before.faults().checks,
    }
}

/// True if a shutdown failed between `before` and `after`.
pub open spec fn shutdown_failed<T: Transport>(before: T, after: T) -> bool {
    after.faults().shutdowns == before.faults().shutdowns + 1
}

/// True if one shutdown was made between `before` and `after`.
pub open spec fn shut_once<T: Transport>(before: T, after: T) -> bool {
    &&& after.written() == before.written()
    &&& after.faults() == before.faults().shut_down(shutdown_failed(before, after))
}

/// What a call does to a slot: a retired one is left alone; a live secondary is
/// retired if the call failed there, and only then; the primary stays in
/// service. A slot where a write came through took `data`.
pub open spec fn slot_step<T: Transport>(
    call: Call,
    is_primary: bool,
    before: FanoutSlot<T>,
    after: FanoutSlot<T>,
    data: Seq<u8>,
) -> bool {
    if !before.alive {
        after == before
    } else {
        &&& failed_in(call, before.transport, after.transport) || came_through(
            call,
            before.transport,
            after.transport,
        )
        &&& after.alive <==> is_primary || !failed_in(call, before.transport, after.transport)
        &&& !failed_in(call, before.transport, after.transport) ==> after.transport.written()
            == before.transport.written() + data
        &&& !is_primary && after.alive ==> after.transport.written()
            == before.transport.written() + data
        &&& before.transport.written().is_prefix_of(after.transport.written())
        &&& before.transport.reliable() ==> after.alive && after.transport.reliable()
            && after.transport.written() == before.transport.written() + data
        &&& before.transport.takes_flv() && data == flv_header() ==> after.alive
            && after.transport.reliable() && after.transport.written()
            == before.transport.written() + data
        &&& before.transport.takes_flv() && data.len() == 0 ==> after.alive
            && after.transport.takes_flv()
    }
}

/// [`slot_step`] for every slot.
pub open spec fn slots_step<T: Transport>(
    call: Call,
    before: Seq<FanoutSlot<T>>,
    after: Seq<FanoutSlot<T>>,
    data: Seq<u8>,
) -> bool {
    &&& after.len() == before.len()
    &&& forall|i: int|
        0 <= i < before.len() ==> slot_step(call, i == 0, #[trigger] before[i], after[i], data)
}

impl<T: Transport> Default for Fanout<T> {
    fn default() -> (f: Self)
        ensures
            f@.len() == 0,
    {
        Fanout::new()
    }
}

impl<T: Transport> View for Fanout<T> {
    type V = Seq<FanoutSlot<T>>;

    /// The slots, the primary first.
    closed spec fn view(&self) -> Seq<FanoutSlot<T>> {
        match self.primary {
            Some(transport) => seq![FanoutSlot { transport, alive: true }] + self.secondaries@,
            None => Seq::empty(),
        }
    }
}

impl<T: Transport> Fanout<T> {
    /// An empty fanout; add sinks with [`add`](Self::add). Writing before any
    /// sink is attached fails with `BrokenPipe`.
    pub fn new() -> (f: Self)
        ensures
            f@.len() == 0,
            f.spec_book() == BookView::closed(),
    {
        Fanout {
            primary: None,
            secondaries: Vec::new(),
            faults: Ghost(Faults::none()),
            book: LogBook::new(),
        }
    }

    /// A fanout whose first (primary) sink is already attached.
    pub fn with_primary(transport: T) -> (f: Self)
        ensures
            f@ == seq![FanoutSlot { transport, alive: true }],
            f.spec_book() == BookView::closed(),
    {
        let f = Fanout {
            primary: Some(transport),
            secondaries: Vec::new(),
            faults: Ghost(Faults::none()),
            book: LogBook::new(),
        };
        assert(f@ =~= seq![FanoutSlot { transport, alive: true }]);
        f
    }

    /// Attach another downstream transport. The first one added is the
    /// primary; every later one is a best-effort secondary.
    pub fn add(&mut self, transport: T)
        ensures
            final(self)@ == old(self)@.push(FanoutSlot { transport, alive: true }),
            final(self).spec_book() == old(self).spec_book(),
    {
        if self.primary.is_none() {
            self.primary = Some(transport);
            self.secondaries = Vec::new();
        } else {
            self.secondaries.push(FanoutSlot { transport, alive: true });
        }
        assert(self@ =~= old(self)@.push(FanoutSlot { transport, alive: true }));
    }

    /// The log records that wait to be delivered.
    pub closed spec fn spec_book(&self) -> BookView {
        self.book@
    }

    /// True if `next` has one record more for each sink that was retired.
    pub open spec fn retirements_told(&self, next: &Self) -> bool {
        &&& alive_count(next@) <= alive_count(self@)
        &&& self.spec_book().repeated(
            next.spec_book(),
            Level::Warn,
            "stream::transport"@,
            "fanout secondary retired"@,
            (alive_count(self@) - alive_count(next@)) as nat,
        )
    }

    /// Keep log records up to this level, and no others; `None` keeps none.
    pub fn set_log_level(&mut self, max: Option<Level>)
        ensures
            final(self)@ == old(self)@,
            final(self).faults() == old(self).faults(),
            final(self).spec_book() == (BookView { max, ..old(self).spec_book() }),
    {
        self.book.set_level(max);
    }

    /// The log records to deliver, in the order in which they came.
    pub fn take_records(&mut self) -> (records: Vec<Entry>)
        ensures
            final(self)@ == old(self)@,
            final(self).faults() == old(self).faults(),
            entry_views(records@) == old(self).spec_book().records,
            final(self).spec_book() == (BookView {
                records: Seq::empty(),
                ..old(self).spec_book()
            }),
    {
        self.book.take()
    }

    /// Note that a secondary was retired.
    fn note_retired(&mut self, error: &IoError)
        ensures
            *final(self) == (Fanout { book: final(self).book, ..*old(self) }),
            old(self).book@.repeated(
                final(self).book@,
                Level::Warn,
                "stream::transport"@,
                "fanout secondary retired"@,
                1,
            ),
    {
        self.book.fail(
            Level::Warn,
            "stream::transport",
            "fanout secondary retired",
            error.message.as_str(),
        );
        proof {
            lemma_one_repeated(
                old(self).book@,
                Level::Warn,
                "stream::transport"@,
                "fanout secondary retired"@,
                seq![("error"@, FieldView::Str(error.message@))],
            );
        }
    }

    /// Number of sinks attached (live or retired).
    pub fn len(&self) -> (n: usize)
        requires
            self@.len() <= usize::MAX,
        ensures
            n == self@.len(),
    {
        if self.primary.is_some() {
            1 + self.secondaries.len()
        } else {
            0
        }
    }

    /// True when no sink has been attached yet.
    pub fn is_empty(&self) -> (empty: bool)
        ensures
            empty == (self@.len() == 0),
    {
        self.primary.is_none()
    }

    /// Number of sinks still in service (not retired by a failure).
    pub fn alive(&self) -> (n: usize)
        requires
            self@.len() <= usize::MAX,
        ensures
            n == alive_count(self@),
    {
        if self.primary.is_none() {
            return 0;
        }
        let mut n: usize = 1;
        let mut i: usize = 0;
        assert(self@.take(1).drop_last() =~= Seq::empty());
        assert(alive_count(self@.take(1).drop_last()) == 0);
        while i < self.secondaries.len()
            invariant
                self.primary is Some,
                self@.len() == 1 + self.secondaries@.len() <= usize::MAX,
                n <= i + 1 <= self@.len(),
                n == alive_count(self@.take(i + 1)),
            decreases self@.len() - i,
        {
            assert(self@.take(i + 2).drop_last() =~= self@.take(i + 1));
            assert(self@.take(i + 2).last() == self.secondaries@[i as int]);
            if self.secondaries[i].alive {
                n = n + 1;
            }
            i = i + 1;
        }
        assert(self@.take(i + 1) =~= self@);
        n
    }

    /// Borrow the primary sink, if one was attached — lets callers query
    /// transport-specific state (e.g. an RTMP session id).
    pub fn primary(&self) -> (t: Option<&T>)
        ensures
            t == (if self@.len() > 0 {
                Some(&self@[0].transport)
            } else {
                None
            }),
    {
        self.primary.as_ref()
    }
}

impl<T: Transport> Sink for Fanout<T> {
    /// What the primary has accepted.
    open spec fn written(&self) -> Seq<u8> {
        if self@.len() > 0 {
            self@[0].transport.written()
        } else {
            Seq::empty()
        }
    }

    open spec fn reliable(&self) -> bool {
        &&& self@.len() > 0
        &&& forall|i: int| 0 <= i < self@.len() ==> (#[trigger] self@[i]).transport.reliable()
    }

    open spec fn takes_flv(&self) -> bool {
        &&& self@.len() > 0
        &&& forall|i: int| 0 <= i < self@.len() ==> (#[trigger] self@[i]).alive
        &&& forall|i: int| 0 <= i < self@.len() ==> (#[trigger] self@[i]).transport.takes_flv()
    }

    closed spec fn faults(&self) -> Faults {
        self.faults@
    }

    fn write_all(&mut self, data: &[u8]) -> (r: Result<(), IoError>)
        ensures
            old(self).retirements_told(final(self)),
            slots_step(Call::Write, old(self)@, final(self)@, data@),
            old(self)@.len() == 0 ==> (r matches Err(e) && e.kind == IoErrorKind::BrokenPipe
                && e.message@ == "fanout has no live sinks"@),
            old(self)@.len() > 0 ==> (r is Err <==> failed_in(
                Call::Write,
                old(self)@[0].transport,
                final(self)@[0].transport,
            )),
    {
        let ghost before = *self;
        let outcome: Result<(), IoError> = match self.primary.take() {
            Some(mut transport) => {
                let r = transport.write_all(data);
                if r.is_ok() {
                    let _flushed = transport.flush();
                }
                self.primary = Some(transport);
                r
            },
            None => {
                proof {
                    lemma_none_repeated(
                        before.book@,
                        Level::Warn,
                        "stream::transport"@,
                        "fanout secondary retired"@,
                    );
                }
                self.faults = Ghost(self.faults@.written(true));
                return Err(IoError::new(IoErrorKind::BrokenPipe, "fanout has no live sinks"));
            },
        };
        let n: usize = self.secondaries.len();
        let mut i: usize = 0;
        let ghost mut lost: nat = 0;
        proof {
            lemma_none_repeated(
                before.book@,
                Level::Warn,
                "stream::transport"@,
                "fanout secondary retired"@,
            );
            assert(before.secondaries@.take(0) =~= self.secondaries@.take(0));
        }
        assert(forall|k: int| 0 <= k < n ==> self.secondaries@[k] == before@[k + 1]);
        while i < n
            invariant
                i <= n,
                self.primary is Some,
                before.primary is Some,
                n == self.secondaries@.len() == before.secondaries@.len(),
                slot_step(Call::Write, true, before@[0], self@[0], data@),
                outcome is Ok ==> self@[0].transport.written() == before@[0].transport.written()
                    + data@,
                before@[0].transport.reliable() ==> outcome is Ok,
                outcome is Err <==> failed_in(
                    Call::Write,
                    before@[0].transport,
                    self@[0].transport,
                ),
                self.faults == before.faults,
                lost <= i,
                alive_count(before.secondaries@.take(i as int)) == alive_count(
                    self.secondaries@.take(i as int),
                ) + lost,
                before.book@.repeated(
                    self.book@,
                    Level::Warn,
                    "stream::transport"@,
                    "fanout secondary retired"@,
                    lost,
                ),
                before@[0].transport.takes_flv() && (data@ == flv_header() || data@.len() == 0)
                    ==> outcome is Ok,
                forall|k: int|
                    0 <= k < i ==> slot_step(
                        Call::Write,
                        false,
                        #[trigger] before.secondaries@[k],
                        self.secondaries@[k],
                        data@,
                    ),
                forall|k: int|
                    i <= k < n ==> self.secondaries@[k] == #[trigger] before.secondaries@[k],
            decreases n - i,
        {
            let ghost earlier = self.secondaries@;
            let ghost book = self.book@;
            let mut failed: Option<IoError> = None;
            if self.secondaries[i].alive {
                match self.secondaries[i].transport.write_all(data) {
                    Ok(()) => {
                        let _flushed = self.secondaries[i].transport.flush();
                    },
                    Err(e) => {
                        failed = Some(e);
                        // Retire the secondary, keep the primary streaming.
                        self.secondaries[i].alive = false;
                    },
                }
            }
            if let Some(e) = &failed {
                self.note_retired(e);
                proof {
                    lemma_repeated(
                        before.book@,
                        book,
                        self.book@,
                        Level::Warn,
                        "stream::transport"@,
                        "fanout secondary retired"@,
                        lost,
                        1,
                    );
                    lost = lost + 1;
                }
            }
            proof {
                let was = before.secondaries@;
                let now = self.secondaries@;
                assert(now =~= earlier.update(i as int, now[i as int]));
                assert(was.take(i + 1).drop_last() =~= was.take(i as int));
                assert(now.take(i + 1).drop_last() =~= earlier.take(i as int));
                assert(was.take(i + 1).last() == was[i as int]);
                assert(now.take(i + 1).last() == now[i as int]);
            }
            i = i + 1;
        }
        proof {
            lemma_alive(&before, self);
            lemma_slots(Call::Write, &before, self, data@);
        }
        self.faults = Ghost(self.faults@.written(outcome is Err));
        outcome
    }

    fn flush(&mut self) -> (r: Result<(), IoError>)
        ensures
            old(self).retirements_told(final(self)),
            slots_step(Call::Flush, old(self)@, final(self)@, Seq::empty()),
            old(self)@.len() == 0 ==> r is Ok,
            old(self)@.len() > 0 ==> (r is Err <==> failed_in(
                Call::Flush,
                old(self)@[0].transport,
                final(self)@[0].transport,
            )),
    {
        let ghost before = *self;
        let ghost none = Seq::<u8>::empty();
        assert(forall|s: Seq<u8>| #[trigger] (s + none) =~= s);
        let outcome: Result<(), IoError> = match self.primary.take() {
            Some(mut transport) => {
                let r = transport.flush();
                self.primary = Some(transport);
                r
            },
            None => {
                proof {
                    lemma_none_repeated(
                        before.book@,
                        Level::Warn,
                        "stream::transport"@,
                        "fanout secondary retired"@,
                    );
                }
                return Ok(());
            },
        };
        assert(self@[0].transport.written() + none =~= self@[0].transport.written());
        let n: usize = self.secondaries.len();
        let mut i: usize = 0;
        let ghost mut lost: nat = 0;
        proof {
            lemma_none_repeated(
                before.book@,
                Level::Warn,
                "stream::transport"@,
                "fanout secondary retired"@,
            );
            assert(before.secondaries@.take(0) =~= self.secondaries@.take(0));
        }
        while i < n
            invariant
                i <= n,
                forall|s: Seq<u8>| #[trigger] (s + none) == s,
                none.len() == 0,
                self.primary is Some,
                before.primary is Some,
                n == self.secondaries@.len() == before.secondaries@.len(),
                slot_step(Call::Flush, true, before@[0], self@[0], none),
                self@[0].transport.written() == before@[0].transport.written(),
                before@[0].transport.reliable() ==> outcome is Ok,
                outcome is Err <==> failed_in(
                    Call::Flush,
                    before@[0].transport,
                    self@[0].transport,
                ),
                self.faults == before.faults,
                lost <= i,
                alive_count(before.secondaries@.take(i as int)) == alive_count(
                    self.secondaries@.take(i as int),
                ) + lost,
                before.book@.repeated(
                    self.book@,
                    Level::Warn,
                    "stream::transport"@,
                    "fanout secondary retired"@,
                    lost,
                ),
                before@[0].transport.takes_flv() ==> outcome is Ok,
                forall|k: int|
                    0 <= k < i ==> slot_step(
                        Call::Flush,
                        false,
                        #[trigger] before.secondaries@[k],
                        self.secondaries@[k],
                        none,
                    ),
                forall|k: int|
                    i <= k < n ==> self.secondaries@[k] == #[trigger] before.secondaries@[k],
            decreases n - i,
        {
            let ghost earlier = self.secondaries@;
            let ghost book = self.book@;
            let mut failed: Option<IoError> = None;
            if self.secondaries[i].alive {
                if let Err(e) = self.secondaries[i].transport.flush() {
                    failed = Some(e);
                    self.secondaries[i].alive = false;
                }
            }
            if let Some(e) = &failed {
                self.note_retired(e);
                proof {
                    lemma_repeated(
                        before.book@,
                        book,
                        self.book@,
                        Level::Warn,
                        "stream::transport"@,
                        "fanout secondary retired"@,
                        lost,
                        1,
                    );
                    lost = lost + 1;
                }
            }
            proof {
                let was = before.secondaries@;
                let now = self.secondaries@;
                assert(now =~= earlier.update(i as int, now[i as int]));
                assert(was.take(i + 1).drop_last() =~= was.take(i as int));
                assert(now.take(i + 1).drop_last() =~= earlier.take(i as int));
                assert(was.take(i + 1).last() == was[i as int]);
                assert(now.take(i + 1).last() == now[i as int]);
            }
            i = i + 1;
        }
        proof {
            lemma_alive(&before, self);
            lemma_slots(Call::Flush, &before, self, none);
        }
        self.faults = Ghost(self.faults@.flushed(outcome is Err));
        outcome
    }
}

/// What goes through a fanout is the same everywhere: a secondary that is
/// still in service behind a write that came through has had every byte that
/// the primary had, if it had before.
pub proof fn live_sinks_stay_identical<T: Transport>(
    call: Call,
    before: Seq<FanoutSlot<T>>,
    after: Seq<FanoutSlot<T>>,
    data: Seq<u8>,
    i: int,
)
    requires
        slots_step(call, before, after, data),
        0 < i < before.len(),
        after[0].transport.written() == before[0].transport.written() + data,
        before[i].transport.written() == before[0].transport.written(),
        before[i].alive && after[i].alive,
    ensures
        after[i].transport.written() == after[0].transport.written(),
{
    assert(slot_step(call, i == 0, before[i], after[i], data));
}

/// A sink that has been retired is never touched again, the primary never is
/// retired, and a secondary is retired exactly when a call of it failed.
pub proof fn retired_sinks_stay_retired<T: Transport>(
    call: Call,
    before: Seq<FanoutSlot<T>>,
    after: Seq<FanoutSlot<T>>,
    data: Seq<u8>,
    i: int,
)
    requires
        slots_step(call, before, after, data),
        0 <= i < before.len(),
    ensures
        !before[i].alive ==> after[i] == before[i],
        i == 0 && before[i].alive ==> after[i].alive,
        i > 0 && before[i].alive ==> (!after[i].alive <==> failed_in(
            call,
            before[i].transport,
            after[i].transport,
        )),
{
    assert(slot_step(call, i == 0, before[i], after[i], data));
}

/// The primary is always in service.
proof fn lemma_alive<T: Transport>(before: &Fanout<T>, after: &Fanout<T>)
    requires
        before.primary is Some,
        after.primary is Some,
        before.secondaries@.len() == after.secondaries@.len(),
    ensures
        alive_count(before@) == 1 + alive_count(before.secondaries@),
        alive_count(after@) == 1 + alive_count(after.secondaries@),
        before.secondaries@.take(before.secondaries@.len() as int) == before.secondaries@,
        after.secondaries@.take(after.secondaries@.len() as int) == after.secondaries@,
{
    lemma_one_ahead(before@[0], before.secondaries@);
    lemma_one_ahead(after@[0], after.secondaries@);
    assert(before@ =~= seq![before@[0]] + before.secondaries@);
    assert(after@ =~= seq![after@[0]] + after.secondaries@);
    assert(before.secondaries@.take(before.secondaries@.len() as int) =~= before.secondaries@);
    assert(after.secondaries@.take(after.secondaries@.len() as int) =~= after.secondaries@);
}

proof fn lemma_one_ahead<T: Transport>(first: FanoutSlot<T>, rest: Seq<FanoutSlot<T>>)
    requires
        first.alive,
    ensures
        alive_count(seq![first] + rest) == 1 + alive_count(rest),
    decreases rest.len(),
{
    let all = seq![first] + rest;
    if rest.len() == 0 {
        assert(all.drop_last() =~= Seq::<FanoutSlot<T>>::empty());
        assert(alive_count(all.drop_last()) == 0);
    } else {
        lemma_one_ahead(first, rest.drop_last());
        assert(all.drop_last() =~= seq![first] + rest.drop_last());
    }
}

proof fn lemma_slots<T: Transport>(
    call: Call,
    before: &Fanout<T>,
    after: &Fanout<T>,
    data: Seq<u8>,
)
    requires
        before.primary is Some,
        after.primary is Some,
        before.secondaries@.len() == after.secondaries@.len(),
        slot_step(call, true, before@[0], after@[0], data),
        forall|k: int|
            0 <= k < before.secondaries@.len() ==> slot_step(
                call,
                false,
                #[trigger] before.secondaries@[k],
                after.secondaries@[k],
                data,
            ),
    ensures
        slots_step(call, before@, after@, data),
        before.reliable() ==> after.reliable(),
        before.takes_flv() && data == flv_header() ==> after.reliable(),
        before.takes_flv() && data.len() == 0 ==> after.takes_flv(),
{
    assert forall|i: int| 0 <= i < before@.len() implies slot_step(
        call,
        i == 0,
        #[trigger] before@[i],
        after@[i],
        data,
    ) by {
        if i > 0 {
            assert(before@[i] == before.secondaries@[i - 1]);
            assert(after@[i] == after.secondaries@[i - 1]);
        }
    }
    if before.reliable() || (before.takes_flv() && data == flv_header()) {
        assert forall|i: int| 0 <= i < after@.len() implies (#[trigger] after@[
            i
        ]).transport.reliable() by {
            assert(slot_step(call, i == 0, before@[i], after@[i], data));
        }
    }
    if before.takes_flv() && data.len() == 0 {
        assert forall|i: int| 0 <= i < after@.len() implies (#[trigger] after@[i]).alive
            && after@[i].transport.takes_flv() by {
            assert(slot_step(call, i == 0, before@[i], after@[i], data));
        }
    }
}

proof fn lemma_still_reliable<T: Transport>(before: &Fanout<T>, after: &Fanout<T>)
    requires
        before.primary is Some,
        after.primary is Some,
        before.secondaries@.len() == after.secondaries@.len(),
        before@[0].transport.reliable() ==> after@[0].transport.reliable(),
        before@[0].transport.takes_flv() ==> after@[0].transport.takes_flv(),
        forall|k: int|
            0 <= k < before.secondaries@.len() ==> after.secondaries@[k].alive == (
            #[trigger] before.secondaries@[k]).alive && (
            before.secondaries@[k].transport.reliable()
                ==> after.secondaries@[k].transport.reliable()) && (
            before.secondaries@[k].transport.takes_flv()
                ==> after.secondaries@[k].transport.takes_flv()),
    ensures
        before.reliable() ==> after.reliable(),
        before.takes_flv() ==> after.takes_flv(),
{
    if before.takes_flv() {
        assert(before@[0].transport.takes_flv());
        assert forall|i: int| 0 <= i < after@.len() implies (#[trigger] after@[i]).alive
            && after@[i].transport.takes_flv() by {
            assert(before@[i].alive && before@[i].transport.takes_flv());
            if i > 0 {
                assert(before@[i] == before.secondaries@[i - 1]);
                assert(after@[i] == after.secondaries@[i - 1]);
            }
        }
    }
    if before.reliable() {
        assert(before@[0].transport.reliable());
        assert forall|i: int| 0 <= i < after@.len() implies (#[trigger] after@[
            i
        ]).transport.reliable() by {
            if i > 0 {
                assert(before@[i] == before.secondaries@[i - 1]);
                assert(after@[i] == after.secondaries@[i - 1]);
            }
        }
    }
}

impl<T: Transport> Transport for Fanout<T> {
    /// Freshest progress across live sinks: the tee is only as stalled as its
    /// most-recently-active endpoint.
    open spec fn progress(&self) -> Option<u64> {
        latest_progress(self@)
    }

    /// The primary's counter drives throughput telemetry; counting secondaries
    /// too would inflate the reported wire rate of the publish path.
    open spec fn sent(&self) -> u64 {
        if self@.len() > 0 {
            self@[0].transport.sent()
        } else {
            0
        }
    }

    open spec fn round_trip(&self) -> Option<u64> {
        first_round_trip(self@)
    }

    fn maintain(&mut self) -> (r: Result<(), IoError>)
        ensures
            old(self).retirements_told(final(self)),
            slots_step(Call::Maintain, old(self)@, final(self)@, Seq::empty()),
            old(self)@.len() == 0 ==> r is Ok,
            old(self)@.len() > 0 ==> (r is Err <==> failed_in(
                Call::Maintain,
                old(self)@[0].transport,
                final(self)@[0].transport,
            )),
    {
        // Mirror the write semantics: the primary's health decides the
        // fanout's, secondaries retire quietly on their own failures.
        let ghost before = *self;
        let ghost none = Seq::<u8>::empty();
        assert(forall|s: Seq<u8>| #[trigger] (s + none) =~= s);
        let outcome: Result<(), IoError> = match self.primary.take() {
            Some(mut transport) => {
                let r = transport.maintain();
                self.primary = Some(transport);
                r
            },
            None => {
                proof {
                    lemma_none_repeated(
                        before.book@,
                        Level::Warn,
                        "stream::transport"@,
                        "fanout secondary retired"@,
                    );
                }
                return Ok(());
            },
        };
        assert(self@[0].transport.written() + none =~= self@[0].transport.written());
        let n: usize = self.secondaries.len();
        let mut i: usize = 0;
        let ghost mut lost: nat = 0;
        proof {
            lemma_none_repeated(
                before.book@,
                Level::Warn,
                "stream::transport"@,
                "fanout secondary retired"@,
            );
            assert(before.secondaries@.take(0) =~= self.secondaries@.take(0));
        }
        while i < n
            invariant
                i <= n,
                forall|s: Seq<u8>| #[trigger] (s + none) == s,
                none.len() == 0,
                self.primary is Some,
                before.primary is Some,
                n == self.secondaries@.len() == before.secondaries@.len(),
                slot_step(Call::Maintain, true, before@[0], self@[0], none),
                self@[0].transport.written() == before@[0].transport.written(),
                before@[0].transport.reliable() ==> outcome is Ok,
                outcome is Err <==> failed_in(
                    Call::Maintain,
                    before@[0].transport,
                    self@[0].transport,
                ),
                self.faults == before.faults,
                lost <= i,
                alive_count(before.secondaries@.take(i as int)) == alive_count(
                    self.secondaries@.take(i as int),
                ) + lost,
                before.book@.repeated(
                    self.book@,
                    Level::Warn,
                    "stream::transport"@,
                    "fanout secondary retired"@,
                    lost,
                ),
                before@[0].transport.takes_flv() ==> outcome is Ok,
                forall|k: int|
                    0 <= k < i ==> slot_step(
                        Call::Maintain,
                        false,
                        #[trigger] before.secondaries@[k],
                        self.secondaries@[k],
                        none,
                    ),
                forall|k: int|
                    i <= k < n ==> self.secondaries@[k] == #[trigger] before.secondaries@[k],
            decreases n - i,
        {
            let ghost earlier = self.secondaries@;
            let ghost book = self.book@;
            let mut failed: Option<IoError> = None;
            if self.secondaries[i].alive {
                if let Err(e) = self.secondaries[i].transport.maintain() {
                    failed = Some(e);
                    self.secondaries[i].alive = false;
                }
            }
            if let Some(e) = &failed {
                self.note_retired(e);
                proof {
                    lemma_repeated(
                        before.book@,
                        book,
                        self.book@,
                        Level::Warn,
                        "stream::transport"@,
                        "fanout secondary retired"@,
                        lost,
                        1,
                    );
                    lost = lost + 1;
                }
            }
            proof {
                let was = before.secondaries@;
                let now = self.secondaries@;
                assert(now =~= earlier.update(i as int, now[i as int]));
                assert(was.take(i + 1).drop_last() =~= was.take(i as int));
                assert(now.take(i + 1).drop_last() =~= earlier.take(i as int));
                assert(was.take(i + 1).last() == was[i as int]);
                assert(now.take(i + 1).last() == now[i as int]);
            }
            i = i + 1;
        }
        proof {
            lemma_alive(&before, self);
            lemma_slots(Call::Maintain, &before, self, none);
        }
        self.faults = Ghost(self.faults@.checked(outcome is Err));
        outcome
    }

    fn shutdown(&mut self) -> (r: Result<(), IoError>)
        ensures
            final(self).spec_book() == old(self).spec_book(),
            final(self)@.len() == old(self)@.len(),
            forall|i: int|
                0 <= i < old(self)@.len() ==> (#[trigger] final(self)@[i]).alive == old(self)@[i].alive
                    && shut_once(old(self)@[i].transport, final(self)@[i].transport),
            r is Err <==> exists|i: int|
                0 <= i < old(self)@.len() && shutdown_failed(
                    old(self)@[i].transport,
                    (#[trigger] final(self)@[i]).transport,
                ),
    {
        // Shut down every sink; the first failure is reported, the rest are
        // still closed so no endpoint is left hanging.
        let ghost before = *self;
        let mut first_error: Option<IoError> = None;
        match self.primary.take() {
            Some(mut transport) => {
                if let Err(e) = transport.shutdown() {
                    assert(!before@[0].transport.reliable() && !before@[0].transport.takes_flv());
                    first_error = Some(e);
                }
                self.primary = Some(transport);
            },
            None => {
                return Ok(());
            },
        }
        let n: usize = self.secondaries.len();
        let mut i: usize = 0;
        while i < n
            invariant
                i <= n,
                self.primary is Some,
                before.primary is Some,
                before == *old(self),
                self@[0].transport.written() == before@[0].transport.written(),
                before@[0].transport.reliable() ==> self@[0].transport.reliable(),
                before@[0].transport.takes_flv() ==> self@[0].transport.takes_flv(),
                n == self.secondaries@.len() == before.secondaries@.len(),
                self.book == before.book,
                self.faults == before.faults,
                shut_once(before@[0].transport, self@[0].transport),
                first_error is Some <==> shutdown_failed(before@[0].transport, self@[0].transport)
                    || exists|k: int|
                    0 <= k < i && shutdown_failed(
                        before.secondaries@[k].transport,
                        (#[trigger] self.secondaries@[k]).transport,
                    ),
                forall|k: int|
                    0 <= k < i ==> shut_once(
                        before.secondaries@[k].transport,
                        (#[trigger] self.secondaries@[k]).transport,
                    ),
                forall|k: int|
                    i <= k < n ==> (#[trigger] self.secondaries@[k]) == before.secondaries@[k],
                first_error is Some ==> (!before@[0].transport.reliable()
                    && !before@[0].transport.takes_flv()) || (exists|k: int|
                    0 <= k < i && !(#[trigger] before.secondaries@[k]).transport.reliable()
                        && !before.secondaries@[k].transport.takes_flv()),
                forall|k: int|
                    0 <= k < n ==> self.secondaries@[k].alive == (
                    #[trigger] before.secondaries@[k]).alive && (
                    before.secondaries@[k].transport.reliable()
                        ==> self.secondaries@[k].transport.reliable()) && (
                    before.secondaries@[k].transport.takes_flv()
                        ==> self.secondaries@[k].transport.takes_flv()),
            decreases n - i,
        {
            let ghost earlier = self.secondaries@;
            let result: Result<(), IoError> = self.secondaries[i].transport.shutdown();
            proof {
                let now = self.secondaries@;
                assert(now =~= earlier.update(i as int, now[i as int]));
                assert(shut_once(earlier[i as int].transport, now[i as int].transport));
                if exists|k: int|
                    0 <= k < i && shutdown_failed(
                        before.secondaries@[k].transport,
                        (#[trigger] earlier[k]).transport,
                    ) {
                    let k = choose|k: int|
                        0 <= k < i && shutdown_failed(
                            before.secondaries@[k].transport,
                            (#[trigger] earlier[k]).transport,
                        );
                    assert(now[k] == earlier[k]);
                }
                if exists|k: int|
                    0 <= k < i && shutdown_failed(
                        before.secondaries@[k].transport,
                        (#[trigger] now[k]).transport,
                    ) {
                    let k = choose|k: int|
                        0 <= k < i && shutdown_failed(
                            before.secondaries@[k].transport,
                            (#[trigger] now[k]).transport,
                        );
                    assert(now[k] == earlier[k]);
                }
            }
            if let Err(e) = result {
                assert(!before.secondaries@[i as int].transport.reliable()
                    && !before.secondaries@[i as int].transport.takes_flv());
                if first_error.is_none() {
                    first_error = Some(e);
                }
            }
            i = i + 1;
        }
        proof {
            lemma_still_reliable(&before, self);
            if before.reliable() {
                assert(before@[0].transport.reliable());
                assert forall|k: int| 0 <= k < n implies (
                #[trigger] before.secondaries@[k]).transport.reliable() by {
                    assert(before@[k + 1] == before.secondaries@[k]);
                }
            }
            if before.takes_flv() {
                assert(before@[0].transport.takes_flv());
                assert forall|k: int| 0 <= k < n implies (
                #[trigger] before.secondaries@[k]).transport.takes_flv() by {
                    assert(before@[k + 1] == before.secondaries@[k]);
                }
            }
        }
        let r: Result<(), IoError> = match first_error {
            Some(e) => Err(e),
            None => Ok(()),
        };
        self.faults = Ghost(self.faults@.shut_down(r is Err));
        proof {
            assert forall|i: int| 0 <= i < before@.len() implies (#[trigger] self@[i]).alive
                == before@[i].alive && shut_once(before@[i].transport, self@[i].transport) by {
                if i > 0 {
                    assert(self@[i] == self.secondaries@[i - 1]);
                    assert(before@[i] == before.secondaries@[i - 1]);
                }
            }
            if exists|k: int|
                0 <= k < n && shutdown_failed(
                    before.secondaries@[k].transport,
                    (#[trigger] self.secondaries@[k]).transport,
                ) {
                let k = choose|k: int|
                    0 <= k < n && shutdown_failed(
                        before.secondaries@[k].transport,
                        (#[trigger] self.secondaries@[k]).transport,
                    );
                assert(shutdown_failed(before@[k + 1].transport, self@[k + 1].transport));
            }
            if exists|i: int|
                0 <= i < before@.len() && shutdown_failed(
                    before@[i].transport,
                    (#[trigger] self@[i]).transport,
                ) {
                let i = choose|i: int|
                    0 <= i < before@.len() && shutdown_failed(
                        before@[i].transport,
                        (#[trigger] self@[i]).transport,
                    );
                if i > 0 {
                    assert(self@[i] == self.secondaries@[i - 1]);
                    assert(before@[i] == before.secondaries@[i - 1]);
                }
            }
            if shutdown_failed(before@[0].transport, self@[0].transport) {
                assert(r is Err);
            }
        }
        r
    }

    fn last_progress(&self) -> (at: Option<u64>) {
        let mut latest: Option<u64> = match &self.primary {
            Some(t) => t.last_progress(),
            None => {
                return None;
            },
        };
        assert(self@.take(1).drop_last() =~= Seq::empty());
        assert(latest_progress(self@.take(1).drop_last()) is None);
        let mut i: usize = 0;
        while i < self.secondaries.len()
            invariant
                self.primary is Some,
                i <= self.secondaries@.len(),
                latest == latest_progress(self@.take(i + 1)),
            decreases self.secondaries@.len() - i,
        {
            assert(self@.take(i + 2).drop_last() =~= self@.take(i + 1));
            assert(self@.take(i + 2).last() == self.secondaries@[i as int]);
            if self.secondaries[i].alive {
                if let Some(b) = self.secondaries[i].transport.last_progress() {
                    latest = match latest {
                        Some(a) => if a > b {
                            Some(a)
                        } else {
                            Some(b)
                        },
                        None => Some(b),
                    };
                }
            }
            i = i + 1;
        }
        assert(self@.take(i + 1) =~= self@);
        latest
    }

    fn bytes_written(&self) -> (n: u64) {
        match &self.primary {
            Some(t) => t.bytes_written(),
            None => 0,
        }
    }

    fn rtt(&self) -> (ns: Option<u64>) {
        match &self.primary {
            Some(t) => {
                if let Some(us) = t.rtt() {
                    return Some(us);
                }
            },
            None => {
                return None;
            },
        }
        assert(self@.drop_first() =~= self.secondaries@);
        let mut i: usize = 0;
        assert(self.secondaries@.skip(0) =~= self.secondaries@);
        while i < self.secondaries.len()
            invariant
                i <= self.secondaries@.len(),
                first_round_trip(self.secondaries@) == first_round_trip(
                    self.secondaries@.skip(i as int),
                ),
                first_round_trip(self@) == first_round_trip(self.secondaries@),
            decreases self.secondaries@.len() - i,
        {
            assert(self.secondaries@.skip(i as int).drop_first() =~= self.secondaries@.skip(i + 1));
            if self.secondaries[i].alive {
                if let Some(us) = self.secondaries[i].transport.rtt() {
                    return Some(us);
                }
            }
            i = i + 1;
        }
        None
    }
}

/// True if a slot in service reports this progress.
pub open spec fn reports_progress<T: Transport>(slots: Seq<FanoutSlot<T>>, at: u64) -> bool {
    exists|i: int|
        0 <= i < slots.len() && (#[trigger] slots[i]).alive && slots[i].transport.progress()
            == Some(at)
}

/// The progress of a fanout is the latest of those that its sinks in service
/// report: one of them reports it, and none a later one.
pub proof fn progress_is_the_latest<T: Transport>(slots: Seq<FanoutSlot<T>>)
    ensures
        latest_progress(slots) matches Some(at) ==> reports_progress(slots, at),
        forall|i: int|
            #![trigger slots[i]]
            0 <= i < slots.len() && slots[i].alive && slots[i].transport.progress() is Some ==> (
            latest_progress(slots) matches Some(at) && slots[i].transport.progress()->0 <= at),
    decreases slots.len(),
{
    if slots.len() > 0 {
        let rest = slots.drop_last();
        let n = slots.len() - 1;
        progress_is_the_latest(rest);
        assert(slots[n] == slots.last());
        if let Some(at) = latest_progress(rest) {
            let i = choose|i: int|
                0 <= i < rest.len() && (#[trigger] rest[i]).alive && rest[i].transport.progress()
                    == Some(at);
            assert(slots[i] == rest[i]);
        }
        assert forall|i: int|
            #![trigger slots[i]]
            0 <= i < slots.len() && slots[i].alive
                && slots[i].transport.progress() is Some implies (latest_progress(
            slots,
        ) matches Some(at) && slots[i].transport.progress()->0 <= at) by {
            if i < n {
                assert(slots[i] == rest[i]);
            }
        }
    }
}

/// How many sinks are in service, counted another way.
pub proof fn sinks_in_service_are_counted<T: Transport>(slots: Seq<FanoutSlot<T>>)
    ensures
        alive_count(slots) == slots.filter(|s: FanoutSlot<T>| s.alive).len(),
        alive_count(slots) <= slots.len(),
    decreases slots.len(),
{
    reveal(Seq::filter);
    if slots.len() > 0 {
        sinks_in_service_are_counted(slots.drop_last());
    }
}

/// The round-trip time of a fanout is that of its first sink in service that
/// reports one.
pub proof fn round_trips_come_from_the_first<T: Transport>(slots: Seq<FanoutSlot<T>>, i: int)
    requires
        0 <= i < slots.len(),
        slots[i].alive && slots[i].transport.round_trip() is Some,
        forall|j: int|
            0 <= j < i ==> !((#[trigger] slots[j]).alive && slots[j].transport.round_trip() is Some),
    ensures
        first_round_trip(slots) == slots[i].transport.round_trip(),
    decreases slots.len(),
{
    assert(slots.first() == slots[0]);
    if i > 0 {
        let rest = slots.drop_first();
        assert(rest[i - 1] == slots[i]);
        assert forall|j: int| 0 <= j < i - 1 implies !((#[trigger] rest[j]).alive
            && rest[j].transport.round_trip() is Some) by {
            assert(rest[j] == slots[j + 1]);
        }
        round_trips_come_from_the_first(rest, i - 1);
    }
}

} // verus!
