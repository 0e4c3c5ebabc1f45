//! Byte sinks and byte sources, and how they fail.

use vstd::prelude::*;

use crate::bytes;
use crate::flv::flv_header;

verus! {

/// Why a sink or a source failed.
#[derive(Debug, Clone, Copy, PartialEq, Eq, Structural)]
pub enum IoErrorKind {
    /// The other side is gone.
    BrokenPipe,
    /// The connection was refused.
    ConnectionRefused,
    /// The connection was reset by the peer.
    ConnectionReset,
    /// The connection was aborted.
    ConnectionAborted,
    /// There is no connection.
    NotConnected,
    /// The input ended before enough bytes were there.
    UnexpectedEof,
    /// The bytes that came break the protocol.
    InvalidData,
    /// Nothing came in time.
    TimedOut,
    /// Nothing is there yet.
    WouldBlock,
    /// Anything else.
    Other,
}

/// A failure of a sink or a source.
#[derive(Debug)]
pub struct IoError {
    /// What went wrong.
    pub kind: IoErrorKind,
    /// The same in words.
    pub message: String,
}

impl IoError {
    /// An error of the given kind.
    pub fn new(kind: IoErrorKind, message: &str) -> (e: Self)
        ensures
            e.kind == kind,
            e.message@ == message@,
    {
        IoError { kind, message: message.to_owned() }
    }

    /// What went wrong.
    pub fn kind(&self) -> (k: IoErrorKind)
        ensures
            k == self.kind,
    {
        self.kind
    }
}

/// How often each kind of call has failed.
pub struct Faults {
    /// Failed writes.
    pub writes: nat,
    /// Failed flushes.
    pub flushes: nat,
    /// Failed health checks.
    pub checks: nat,
    /// Failed shutdowns.
    pub shutdowns: nat,
}

/// One more, if something failed.
pub open spec fn counted(n: nat, failed: bool) -> nat {
    if failed {
        n + 1
    } else {
        n
    }
}

impl Faults {
    /// Nothing has failed.
    pub open spec fn none() -> Faults {
        Faults { writes: 0, flushes: 0, checks: 0, shutdowns: 0 }
    }

    /// With one more write.
    pub open spec fn written(self, failed: bool) -> Faults {
        Faults { writes: counted(self.writes, failed), ..self }
    }

    /// With one more flush.
    pub open spec fn flushed(self, failed: bool) -> Faults {
        Faults { flushes: counted(self.flushes, failed), ..self }
    }

    /// With one more health check.
    pub open spec fn checked(self, failed: bool) -> Faults {
        Faults { checks: counted(self.checks, failed), ..self }
    }

    /// With one more shutdown.
    pub open spec fn shut_down(self, failed: bool) -> Faults {
        Faults { shutdowns: counted(self.shutdowns, failed), ..self }
    }
}

/// Something that takes bytes: a file, a socket, a buffer in memory.
pub trait Sink {
    /// Every byte accepted so far. Unknown of an implementation that does not
    /// say.
    open spec fn written(&self) -> Seq<u8> {
        arbitrary()
    }

    /// True of a sink that accepts whatever it is given, now and later. Unknown
    /// of an implementation that does not say.
    open spec fn reliable(&self) -> bool {
        arbitrary()
    }

    /// How often each kind of call has failed so far. Unknown of an
    /// implementation that does not say.
    open spec fn faults(&self) -> Faults {
        arbitrary()
    }

    /// True of a sink that is waiting for an FLV header, and accepts that and
    /// whatever comes behind it. One that accepts everything does.
    open spec fn takes_flv(&self) -> bool {
        self.reliable()
    }

    /// Accept all of `data`, or fail. A failed write may have accepted any part
    /// of it.
    fn write_all(&mut self, data: &[u8]) -> (r: Result<(), IoError>)
        ensures
            r is Ok ==> final(self).written() == old(self).written() + data@,
            old(self).written().is_prefix_of(final(self).written()),
            final(self).faults() == old(self).faults().written(r is Err),
            old(self).reliable() ==> r is Ok && final(self).reliable(),
            old(self).takes_flv() && data@ == flv_header() ==> r is Ok && final(self).reliable(),
            old(self).takes_flv() && data@.len() == 0 ==> r is Ok && final(self).takes_flv(),
    ;

    /// Pass on what is still held back.
    fn flush(&mut self) -> (r: Result<(), IoError>)
        ensures
            final(self).written() == old(self).written(),
            final(self).faults() == old(self).faults().flushed(r is Err),
            old(self).reliable() ==> r is Ok && final(self).reliable(),
            old(self).takes_flv() ==> r is Ok && final(self).takes_flv(),
    ;
}

impl Sink for Vec<u8> {
    open spec fn written(&self) -> Seq<u8> {
        self@
    }

    open spec fn reliable(&self) -> bool {
        true
    }

    open spec fn faults(&self) -> Faults {
        Faults::none()
    }

    fn write_all(&mut self, data: &[u8]) -> (r: Result<(), IoError>) {
        bytes::append(self, data);
        Ok(())
    }

    fn flush(&mut self) -> (r: Result<(), IoError>) {
        Ok(())
    }
}

/// Something that gives bytes: a socket, a file, a buffer in memory.
///
/// A source is described by the bytes it will still deliver before it fails
/// for good or ends; when and why it stops is its own affair.
pub trait Source {
    /// The bytes still to come. Unknown of an implementation that does not say.
    open spec fn input(&self) -> Seq<u8> {
        arbitrary()
    }

    /// What kind of failure comes behind them. Unknown of an implementation that
    /// does not say.
    open spec fn ending(&self) -> IoErrorKind {
        arbitrary()
    }

    /// Take exactly `n` bytes, or fail when fewer than that will come.
    fn read_exact(&mut self, n: usize) -> (r: Result<Vec<u8>, IoError>)
        ensures
            r is Ok <==> n <= old(self).input().len(),
            r matches Ok(data) ==> data@ == old(self).input().take(n as int) && final(self).input()
                == old(self).input().skip(n as int),
            r is Ok ==> final(self).ending() == old(self).ending(),
            r matches Err(e) ==> e.kind == old(self).ending(),
    ;
}

/// A source over bytes in memory.
#[derive(Debug)]
pub struct Cursor {
    data: Vec<u8>,
    pos: usize,
}

impl Cursor {

    /// A source that delivers `data`.
    pub fn new(data: Vec<u8>) -> (c: Self)
        ensures
            c.input() == data@,
    {
        let c = Cursor { data, pos: 0 };
        assert(c.input() =~= data@);
        c
    }

    /// How many bytes have been taken.
    pub fn position(&self) -> (n: usize)
        ensures
            n == self.spec_position(),
    {
        self.pos
    }

    /// How many bytes have been taken.
    pub closed spec fn spec_position(&self) -> nat {
        self.pos as nat
    }
}

impl Source for Cursor {
    closed spec fn input(&self) -> Seq<u8> {
        if self.pos <= self.data@.len() {
            self.data@.skip(self.pos as int)
        } else {
            Seq::empty()
        }
    }

    open spec fn ending(&self) -> IoErrorKind {
        IoErrorKind::UnexpectedEof
    }

    fn read_exact(&mut self, n: usize) -> (r: Result<Vec<u8>, IoError>) {
        if self.pos > self.data.len() || self.data.len() - self.pos < n {
            if n == 0 {
                let none: Vec<u8> = Vec::new();
                assert(none@ =~= old(self).input().take(0));
                assert(self.input() =~= old(self).input().skip(0));
                return Ok(none);
            }
            return Err(IoError::new(IoErrorKind::UnexpectedEof, "end of input"));
        }
        let taken: Vec<u8> = bytes::copy_of(
            bytes::take(bytes::skip(self.data.as_slice(), self.pos), n),
        );
        self.pos = self.pos + n;
        assert(self.input() =~= old(self).input().skip(n as int));
        Ok(taken)
    }
}

} // verus!
