//! The RTMP chunk stream: messages cut into chunks, and put together again.

use vstd::prelude::*;

use crate::bytes;
use crate::bytes::{be24, be32, from_be24, from_be32, from_le32, le32, zeros};
use crate::io::{IoError, IoErrorKind, Source};

verus! {

/// Chunk size both sides start with.
pub const CHUNK_SIZE: usize = 128;

/// Largest inbound chunk size that is accepted. The protocol allows up to
/// 2^31-1; anything above 16 MiB is meaningless and only wastes memory.
pub const MAX_CHUNK_SIZE: usize = 0x00FF_FFFF;

/// One decoded RTMP message.
///
/// Produced by the reader, consumed by the caller; `non_exhaustive` so new
/// attributes can be added in a minor release.
#[derive(Debug, Clone, PartialEq, Eq)]
#[non_exhaustive]
pub struct Message {
    /// RTMP message type id (1-6 protocol control, 8 audio, 9 video, 18/20 AMF0).
    pub mtype: u8,
    /// The message's 32-bit timestamp, carried by the chunk header (chunk
    /// format 0's absolute time or the accumulated deltas of formats 1/2). The
    /// publish client ignores it, but the ingest server needs it to time media.
    pub ts: u32,
    /// The fully reassembled payload.
    pub payload: Vec<u8>,
}

/// A [`Message`] as a mathematical value.
#[verifier::ext_equal]
pub struct MessageView {
    /// Message type id.
    pub mtype: u8,
    /// Timestamp.
    pub ts: u32,
    /// Payload.
    pub payload: Seq<u8>,
}

impl View for Message {
    type V = MessageView;

    open spec fn view(&self) -> MessageView {
        MessageView { mtype: self.mtype, ts: self.ts, payload: self.payload@ }
    }
}

/// What is known of one chunk stream: the header in force, and what has come
/// of the message so far.
#[verifier::ext_equal]
pub struct StreamView {
    /// Timestamp.
    pub ts: u32,
    /// Message length.
    pub length: u32,
    /// Message type id.
    pub mtype: u8,
    /// Message stream id.
    pub stream_id: u32,
    /// Payload so far.
    pub payload: Seq<u8>,
}

/// A chunk stream before its first chunk.
pub open spec fn idle_stream() -> StreamView {
    StreamView { ts: 0, length: 0, mtype: 0, stream_id: 0, payload: Seq::empty() }
}

/// The state of chunk stream `cid`.
pub open spec fn stream_of(streams: Map<int, StreamView>, cid: int) -> StreamView {
    if streams.dom().contains(cid) {
        streams[cid]
    } else {
        idle_stream()
    }
}

/// Format, chunk stream id and length of the basic header in front of `input`.
pub open spec fn basic_header(input: Seq<u8>) -> Option<(int, int, int)> {
    if input.len() < 1 {
        None
    } else {
        let format = input[0] as int / 64;
        let low = input[0] as int % 64;
        if low == 0 {
            if input.len() < 2 {
                None
            } else {
                Some((format, 64 + input[1], 2))
            }
        } else if low == 1 {
            if input.len() < 3 {
                None
            } else {
                Some((format, 64 + input[1] + input[2] * 256, 3))
            }
        } else {
            Some((format, low, 1))
        }
    }
}

/// Bytes of the message header in each chunk format.
pub open spec fn header_len(format: int) -> int {
    if format == 0 {
        11
    } else if format == 1 {
        7
    } else if format == 2 {
        3
    } else {
        0
    }
}

/// What the headers of a chunk say.
#[verifier::ext_equal]
pub struct HeaderView {
    /// Chunk format, 0 to 3.
    pub format: int,
    /// Chunk stream id.
    pub cid: int,
    /// Bytes of all headers together.
    pub len: int,
    /// The time field, or the extended timestamp in its place (formats 0 to 2).
    pub time: int,
    /// Message length (formats 0 and 1).
    pub length: int,
    /// Message type id (formats 0 and 1).
    pub mtype: u8,
    /// Message stream id (format 0).
    pub stream_id: int,
}

/// The headers in front of `input`; `None` when it ends inside them.
pub open spec fn header_at(input: Seq<u8>) -> Option<HeaderView> {
    match basic_header(input) {
        None => None,
        Some((format, cid, b)) => {
            let h = b + header_len(format);
            let head = input.skip(b);
            let extended = format < 3 && from_be24(head) == 0xFF_FFFF;
            let len = if extended {
                h + 4
            } else {
                h
            };
            if input.len() < h || input.len() < len {
                None
            } else {
                Some(
                    HeaderView {
                        format,
                        cid,
                        len,
                        time: if extended {
                            from_be32(input.skip(h))
                        } else if format < 3 {
                            from_be24(head)
                        } else {
                            0
                        },
                        length: if format < 2 {
                            from_be24(head.skip(3))
                        } else {
                            0
                        },
                        mtype: if format < 2 {
                            head[6]
                        } else {
                            0
                        },
                        stream_id: if format < 1 {
                            from_le32(head.skip(7))
                        } else {
                            0
                        },
                    },
                )
            }
        },
    }
}

/// The chunk stream once a header has been read: format 0 sets everything,
/// format 1 keeps the stream id, format 2 the length and type too, and both
/// count time on; format 3 goes on with what there is.
pub open spec fn with_header(st: StreamView, h: HeaderView) -> StreamView {
    if h.format == 0 {
        StreamView {
            ts: h.time as u32,
            length: h.length as u32,
            mtype: h.mtype,
            stream_id: h.stream_id as u32,
            payload: Seq::empty(),
        }
    } else if h.format == 1 {
        StreamView {
            ts: ((st.ts + h.time) % 0x1_0000_0000) as u32,
            length: h.length as u32,
            mtype: h.mtype,
            stream_id: st.stream_id,
            payload: Seq::empty(),
        }
    } else if h.format == 2 {
        StreamView {
            ts: ((st.ts + h.time) % 0x1_0000_0000) as u32,
            payload: Seq::empty(),
            ..st
        }
    } else {
        st
    }
}

/// What one chunk does.
pub enum ChunkView {
    /// The input ends inside it.
    Short,
    /// The message goes on: the streams behind it, and its length.
    Partial(Map<int, StreamView>, int),
    /// The message is complete.
    Complete(Map<int, StreamView>, int, MessageView),
}

/// How many bytes of its message the next chunk of a stream holds.
pub open spec fn part_len(st: StreamView, size: nat) -> int {
    let missing = st.length - st.payload.len();
    if missing < size {
        missing
    } else {
        size as int
    }
}

/// What the part of a chunk behind its headers does. It starts at `at`; `st`
/// is the state of its stream.
pub open spec fn chunk_body(
    streams: Map<int, StreamView>,
    cid: int,
    st: StreamView,
    size: nat,
    input: Seq<u8>,
    at: int,
) -> ChunkView {
    if st.payload.len() >= st.length {
        // An empty message or a stray continuation.
        ChunkView::Partial(streams.insert(cid, st), at)
    } else {
        let take = part_len(st, size);
        if input.len() < at + take {
            ChunkView::Short
        } else {
            let payload = st.payload + input.subrange(at, at + take);
            if payload.len() == st.length {
                ChunkView::Complete(
                    streams.insert(cid, StreamView { payload: Seq::empty(), ..st }),
                    at + take,
                    MessageView { mtype: st.mtype, ts: st.ts, payload },
                )
            } else {
                ChunkView::Partial(streams.insert(cid, StreamView { payload, ..st }), at + take)
            }
        }
    }
}

/// What the chunk in front of `input` does, in chunks of at most `size` bytes.
pub open spec fn chunk_at(streams: Map<int, StreamView>, size: nat, input: Seq<u8>) -> ChunkView {
    match header_at(input) {
        None => ChunkView::Short,
        Some(h) => chunk_body(
            streams,
            h.cid,
            with_header(stream_of(streams, h.cid), h),
            size,
            input,
            h.len,
        ),
    }
}

/// How many bytes of the headers in front of `input` come before it ends: they
/// are taken field by field, and a field that does not come whole is not taken.
pub open spec fn header_taken(input: Seq<u8>) -> int {
    match basic_header(input) {
        None => if input.len() < 1 {
            0
        } else {
            1
        },
        Some((format, _, b)) => if input.len() < b + header_len(format) {
            b
        } else {
            b + header_len(format)
        },
    }
}

/// What is kept of the headers in front of an input that ends inside them: the
/// stream, once the basic header has come, and the message header, once that
/// has. An extended timestamp that does not come leaves format 0 with its mark
/// in the time field, and adds nothing in the other formats.
pub open spec fn header_kept(input: Seq<u8>) -> Option<HeaderView> {
    match basic_header(input) {
        None => None,
        Some((format, cid, b)) => {
            let head = input.skip(b);
            let whole = input.len() >= b + header_len(format);
            Some(
                HeaderView {
                    format: if whole {
                        format
                    } else {
                        3
                    },
                    cid,
                    len: header_taken(input),
                    time: if whole && format < 1 {
                        0xFF_FFFF
                    } else {
                        0
                    },
                    length: if whole && format < 2 {
                        from_be24(head.skip(3))
                    } else {
                        0
                    },
                    mtype: if whole && format < 2 {
                        head[6]
                    } else {
                        0
                    },
                    stream_id: if whole && format < 1 {
                        from_le32(head.skip(7))
                    } else {
                        0
                    },
                },
            )
        },
    }
}

/// A chunk lies inside the input and has at least one byte.
pub proof fn lemma_chunk_len(streams: Map<int, StreamView>, size: nat, input: Seq<u8>)
    ensures
        match chunk_at(streams, size, input) {
            ChunkView::Short => true,
            ChunkView::Partial(_, n) => n <= input.len(),
            ChunkView::Complete(_, n, _) => 0 < n <= input.len(),
        },
{
}

/// What reading on to the next complete message gives.
pub enum ReadView {
    /// The input ends before it.
    Ended,
    /// The streams behind it, the input behind it, and the message.
    Got(Map<int, StreamView>, Seq<u8>, MessageView),
}

/// The next complete message in `input`.
pub open spec fn next_message(
    streams: Map<int, StreamView>,
    size: nat,
    input: Seq<u8>,
) -> ReadView
    decreases input.len(),
{
    match chunk_at(streams, size, input) {
        ChunkView::Short => ReadView::Ended,
        ChunkView::Partial(next, n) => if 0 < n <= input.len() {
            next_message(next, size, input.skip(n))
        } else {
            ReadView::Ended
        },
        ChunkView::Complete(next, n, message) => ReadView::Got(next, input.skip(n), message),
    }
}

/// Per-chunk-stream reassembly state.
#[derive(Debug)]
struct ChunkState {
    ts: u32,
    length: u32,
    mtype: u8,
    stream_id: u32,
    payload: Vec<u8>,
}

impl View for ChunkState {
    type V = StreamView;

    closed spec fn view(&self) -> StreamView {
        StreamView {
            ts: self.ts,
            length: self.length,
            mtype: self.mtype,
            stream_id: self.stream_id,
            payload: self.payload@,
        }
    }
}

/// The state of a [`ChunkReader`].
#[verifier::ext_equal]
pub struct ReaderView {
    /// The chunk streams that are in use.
    pub streams: Map<int, StreamView>,
    /// The inbound chunk size.
    pub size: nat,
    /// Bytes consumed, modulo 2^64.
    pub count: u64,
}

impl ReaderView {
    /// A reader that has read nothing.
    pub open spec fn fresh() -> ReaderView {
        ReaderView { streams: Map::empty(), size: 128, count: 0 }
    }

    /// The reader behind the message that ends where `rest` begins.
    pub open spec fn behind(
        self,
        streams: Map<int, StreamView>,
        input: Seq<u8>,
        rest: Seq<u8>,
    ) -> ReaderView {
        ReaderView {
            streams,
            count: ((self.count + input.len() - rest.len()) % 0x1_0000_0000_0000_0000) as u64,
            ..self
        }
    }
}

/// The reader when `input` ends before the next complete message. What was
/// taken of it is counted; the chunks that came whole have taken effect, and so
/// have the headers of the chunk that did not, as far as they came. Where its
/// part of the message did not come, there are zeros in its place.
pub open spec fn cut_off(r: ReaderView, input: Seq<u8>) -> ReaderView
    decreases input.len(),
{
    match chunk_at(r.streams, r.size, input) {
        ChunkView::Short => match header_at(input) {
            None => r.behind(
                match header_kept(input) {
                    None => r.streams,
                    Some(h) => r.streams.insert(
                        h.cid,
                        with_header(stream_of(r.streams, h.cid), h),
                    ),
                },
                input,
                input.skip(header_taken(input)),
            ),
            Some(h) => {
                let st = with_header(stream_of(r.streams, h.cid), h);
                r.behind(
                    r.streams.insert(
                        h.cid,
                        StreamView {
                            payload: st.payload + zeros(part_len(st, r.size) as nat),
                            ..st
                        },
                    ),
                    input,
                    input.skip(h.len),
                )
            },
        },
        ChunkView::Partial(next, n) => if 0 < n <= input.len() {
            cut_off(r.behind(next, input, input.skip(n)), input.skip(n))
        } else {
            r
        },
        ChunkView::Complete(_, _, _) => r,
    }
}

/// Incremental RTMP chunk-stream reassembler: feed bytes via
/// [`read_message`](Self::read_message), get complete messages back. All parsing
/// is bounds-checked; malformed input yields `Err`, never a panic.
pub struct ChunkReader {
    states: Vec<Option<ChunkState>>,
    read_chunk_size: usize,
    bytes_read: u64,
}

/// The streams that a vector of states holds.
closed spec fn streams_in(states: Seq<Option<ChunkState>>) -> Map<int, StreamView> {
    Map::new(
        |k: int| 0 <= k < states.len() && states[k] is Some,
        |k: int| (states[k]->0)@,
    )
}

impl View for ChunkReader {
    type V = ReaderView;

    closed spec fn view(&self) -> ReaderView {
        ReaderView {
            streams: streams_in(self.states@),
            size: self.read_chunk_size as nat,
            count: self.bytes_read,
        }
    }
}

impl Default for ChunkReader {
    fn default() -> (r: Self)
        ensures
            r@ == ReaderView::fresh(),
    {
        ChunkReader::new()
    }
}

/// What the basic header says: format, chunk stream id, and bytes it took.
struct Basic {
    format: u8,
    cid: usize,
    len: usize,
}

fn read_basic<R: Source>(sock: &mut R, taken: &mut usize) -> (r: Result<Basic, IoError>)
    requires
        *old(taken) == 0,
    ensures
        match r {
            Ok(h) => basic_header(old(sock).input()) == Some(
                (h.format as int, h.cid as int, h.len as int),
            ) && final(sock).input() == old(sock).input().skip(h.len as int) && h.len <= old(
                sock,
            ).input().len() && h.cid < 65600 && h.format < 4 && *final(taken) == h.len
                && final(sock).ending() == old(sock).ending(),
            Err(e) => basic_header(old(sock).input()) is None && e.kind == old(sock).ending()
                && *final(taken) == header_taken(old(sock).input()),
        },
{
    let ghost input = sock.input();
    let first: Vec<u8> = sock.read_exact(1)?;
    *taken = 1;
    let format: u8 = first[0] / 64;
    let low: u8 = first[0] % 64;
    if low == 0 {
        let more: Vec<u8> = sock.read_exact(1)?;
        proof {
            bytes::lemma_skip_skip(input, 1, 1);
        }
        *taken = 2;
        Ok(Basic { format, cid: 64 + more[0] as usize, len: 2 })
    } else if low == 1 {
        let more: Vec<u8> = sock.read_exact(2)?;
        proof {
            bytes::lemma_skip_skip(input, 1, 2);
        }
        *taken = 3;
        Ok(Basic { format, cid: 64 + more[0] as usize + more[1] as usize * 256, len: 3 })
    } else {
        Ok(Basic { format, cid: low as usize, len: 1 })
    }
}

/// The headers of one chunk.
struct Header {
    format: u8,
    cid: usize,
    len: usize,
    time: u32,
    length: u32,
    mtype: u8,
    stream_id: u32,
}

impl View for Header {
    type V = HeaderView;

    closed spec fn view(&self) -> HeaderView {
        HeaderView {
            format: self.format as int,
            cid: self.cid as int,
            len: self.len as int,
            time: self.time as int,
            length: self.length as int,
            mtype: self.mtype,
            stream_id: self.stream_id as int,
        }
    }
}

fn apply_header(st: &mut ChunkState, header: &Header)
    ensures
        final(st)@ == with_header(old(st)@, header@),
{
    if header.format == 0 {
        st.ts = header.time;
        st.stream_id = header.stream_id;
    } else if header.format < 3 {
        st.ts = ((st.ts as u64 + header.time as u64) % 0x1_0000_0000) as u32;
    }
    if header.format < 2 {
        st.length = header.length;
        st.mtype = header.mtype;
    }
    if header.format < 3 {
        st.payload = Vec::new();
    }
    assert(st@ =~= with_header(old(st)@, header@));
}

/// Read the headers of a chunk; `taken` counts the bytes that came. On failure
/// `kept` holds what is to be kept of them.
fn read_header<R: Source>(sock: &mut R, taken: &mut usize, kept: &mut Option<Header>) -> (r: Result<
    Header,
    IoError,
>)
    requires
        *old(taken) == 0,
        *old(kept) is None,
    ensures
        match r {
            Ok(h) => header_at(old(sock).input()) == Some(h@) && final(sock).input() == old(
                sock,
            ).input().skip(h.len as int) && 0 < h.len <= old(sock).input().len() && h.len <= 18
                && h.cid < 65600 && *final(taken) == h.len && final(sock).ending() == old(
                sock,
            ).ending(),
            Err(e) => header_at(old(sock).input()) is None && e.kind == old(sock).ending()
                && *final(taken) == header_taken(old(sock).input()) && match *final(kept) {
                Some(h) => header_kept(old(sock).input()) == Some(h@) && h.cid < 65600,
                None => header_kept(old(sock).input()) is None,
            },
        },
{
    let ghost input = sock.input();
    let basic: Basic = read_basic(sock, taken)?;
    let ghost b = basic.len as int;
    *kept = Some(
        Header {
            format: 3,
            cid: basic.cid,
            len: basic.len,
            time: 0,
            length: 0,
            mtype: 0,
            stream_id: 0,
        },
    );
    let want: usize = match basic.format {
        0 => 11,
        1 => 7,
        2 => 3,
        _ => 0,
    };
    let head: Vec<u8> = sock.read_exact(want)?;
    *taken = basic.len + want;
    let ghost h = b + want;
    proof {
        bytes::lemma_skip_skip(input, b, want as int);
    }
    let mut r = Header {
        format: basic.format,
        cid: basic.cid,
        len: basic.len + want,
        time: 0,
        length: 0,
        mtype: 0,
        stream_id: 0,
    };
    if basic.format < 1 {
        r.stream_id = bytes::read_le32(head.as_slice(), 7);
        assert(from_le32(head@.skip(7)) == from_le32(input.skip(b).skip(7)));
    }
    if basic.format < 2 {
        r.length = bytes::read_be24(head.as_slice(), 3);
        r.mtype = head[6];
        assert(from_be24(head@.skip(3)) == from_be24(input.skip(b).skip(3)));
        assert(head@[6] == input.skip(b)[6]);
    }
    if basic.format < 3 {
        r.time = bytes::read_be24(head.as_slice(), 0);
        assert(from_be24(head@.skip(0)) == from_be24(input.skip(b)));
        if r.time == 0xFF_FFFF {
            *kept = Some(
                Header {
                    time: if basic.format < 1 {
                        0xFF_FFFF
                    } else {
                        0
                    },
                    ..r
                },
            );
            let ext: Vec<u8> = sock.read_exact(4)?;
            proof {
                bytes::lemma_skip_skip(input, h, 4);
                assert(from_be32(ext@.skip(0)) == from_be32(input.skip(h)));
            }
            r.time = bytes::read_be32(ext.as_slice(), 0);
            r.len = r.len + 4;
            *taken = r.len;
        }
    }
    Ok(r)
}

impl ChunkReader {
    /// Create a reader with the protocol-default 128-byte chunk size.
    pub fn new() -> (r: Self)
        ensures
            r@ == ReaderView::fresh(),
    {
        let r = ChunkReader { states: Vec::new(), read_chunk_size: CHUNK_SIZE, bytes_read: 0 };
        assert(r@.streams =~= Map::empty());
        r
    }

    /// Set the chunk size used to delimit inbound message fragments. Zero is a
    /// protocol violation and is rejected (it would livelock the reader);
    /// values above [`MAX_CHUNK_SIZE`] are clamped.
    pub fn set_chunk_size(&mut self, size: usize) -> (r: Result<(), IoError>)
        ensures
            match r {
                Ok(()) => size > 0 && final(self)@ == (ReaderView {
                    size: if size < MAX_CHUNK_SIZE {
                        size as nat
                    } else {
                        MAX_CHUNK_SIZE as nat
                    },
                    ..old(self)@
                }),
                Err(e) => size == 0 && *final(self) == *old(self) && e.kind
                    == IoErrorKind::InvalidData && e.message@ == "peer set chunk size to 0"@,
            },
    {
        if size == 0 {
            return Err(IoError::new(IoErrorKind::InvalidData, "peer set chunk size to 0"));
        }
        self.read_chunk_size = if size < MAX_CHUNK_SIZE {
            size
        } else {
            MAX_CHUNK_SIZE
        };
        Ok(())
    }

    /// Total bytes consumed from the reader, chunk headers included — the
    /// sequence number the RTMP acknowledgement protocol reports.
    pub fn bytes_read(&self) -> (n: u64)
        ensures
            n == self@.count,
    {
        self.bytes_read
    }

    /// Discard the partially reassembled message on chunk stream `cid`
    /// (protocol control message "Abort").
    pub fn abort(&mut self, cid: usize)
        ensures
            final(self)@ == (ReaderView {
                streams: old(self)@.streams.remove(cid as int),
                ..old(self)@
            }),
    {
        if cid < self.states.len() {
            self.states[cid] = None;
        }
        assert(self@.streams =~= old(self)@.streams.remove(cid as int));
    }

    /// Take the state of a chunk stream out of the reader.
    fn take_state(&mut self, cid: usize) -> (st: ChunkState)
        requires
            cid < 65600,
        ensures
            st@ == stream_of(old(self)@.streams, cid as int),
            final(self)@ == (ReaderView {
                streams: old(self)@.streams.remove(cid as int),
                ..old(self)@
            }),
            final(self).states@.len() > cid,
    {
        while self.states.len() <= cid
            invariant
                cid < 65600,
                self@ == old(self)@,
            decreases cid + 1 - self.states@.len(),
        {
            let ghost before = self.states@;
            self.states.push(None);
            assert(streams_in(self.states@) =~= streams_in(before));
        }
        let ghost before = self.states@;
        let taken: Option<ChunkState> = self.states[cid].take();
        assert(self.states@ =~= before.update(cid as int, None));
        assert(streams_in(self.states@) =~= streams_in(before).remove(cid as int));
        match taken {
            Some(st) => st,
            None => ChunkState { ts: 0, length: 0, mtype: 0, stream_id: 0, payload: Vec::new() },
        }
    }

    /// Put the state of a chunk stream back.
    fn put_state(&mut self, cid: usize, st: ChunkState)
        requires
            cid < old(self).states@.len(),
        ensures
            final(self)@ == (ReaderView {
                streams: old(self)@.streams.insert(cid as int, st@),
                ..old(self)@
            }),
    {
        self.states[cid] = Some(st);
        assert(streams_in(self.states@) =~= streams_in(old(self).states@).insert(cid as int, st@));
    }

    /// Read one chunk; gives the message that it completes.
    fn read_chunk<R: Source>(&mut self, sock: &mut R) -> (r: Result<Option<Message>, IoError>)
        ensures
            final(self)@.size == old(self)@.size,
            r is Ok ==> final(sock).ending() == old(sock).ending(),
            match r {
                Err(e) => chunk_at(old(self)@.streams, old(self)@.size, old(sock).input())
                    is Short && e.kind == old(sock).ending() && final(self)@ == cut_off(
                    old(self)@,
                    old(sock).input(),
                ),
                Ok(None) => chunk_at(old(self)@.streams, old(self)@.size, old(sock).input()) matches
                    ChunkView::Partial(streams, n) && 0 < n <= old(sock).input().len() &&
                    final(sock).input() == old(sock).input().skip(n) && final(self)@ == old(self)@.behind(
                    streams,
                    old(sock).input(),
                    final(sock).input(),
                ),
                Ok(Some(m)) => chunk_at(old(self)@.streams, old(self)@.size, old(sock).input())
                    matches ChunkView::Complete(streams, n, message) && 0 < n <= old(
                    sock,
                ).input().len() && final(sock).input() == old(sock).input().skip(n) && m@ == message
                    && final(self)@ == old(self)@.behind(
                    streams,
                    old(sock).input(),
                    final(sock).input(),
                ),
            },
    {
        let ghost input = sock.input();
        let ghost start = self@;
        let mut taken: usize = 0;
        let mut kept: Option<Header> = None;
        let header: Header = match read_header(sock, &mut taken, &mut kept) {
            Ok(h) => h,
            Err(e) => {
                if let Some(h) = kept {
                    let mut st: ChunkState = self.take_state(h.cid);
                    let ghost next = with_header(st@, h@);
                    apply_header(&mut st, &h);
                    self.put_state(h.cid, st);
                    assert(self@.streams =~= start.streams.insert(h.cid as int, next));
                }
                self.count_bytes(taken);
                return Err(e);
            },
        };
        let cid: usize = header.cid;
        let ghost at = taken as int;
        let mut st: ChunkState = self.take_state(cid);
        let ghost next = with_header(st@, header@);
        apply_header(&mut st, &header);
        let have: usize = st.payload.len();
        if have as u64 >= st.length as u64 {
            // Empty message or a stray continuation.
            self.put_state(cid, st);
            self.count_bytes(taken);
            assert(self@.streams =~= start.streams.insert(cid as int, next));
            return Ok(None);
        }
        let missing: u64 = st.length as u64 - have as u64;
        let take: usize = if missing < self.read_chunk_size as u64 {
            missing as usize
        } else {
            self.read_chunk_size
        };
        let part: Vec<u8> = match sock.read_exact(take) {
            Ok(p) => p,
            Err(e) => {
                bytes::append_zeros(&mut st.payload, take);
                let ghost grown = StreamView {
                    payload: next.payload + zeros(take as nat),
                    ..next
                };
                assert(st@ =~= grown);
                self.put_state(cid, st);
                self.count_bytes(taken);
                assert(self@.streams =~= start.streams.insert(cid as int, grown));
                return Err(e);
            },
        };
        proof {
            bytes::lemma_skip_skip(input, at, take as int);
            assert(part@ =~= input.subrange(at, at + take));
        }
        bytes::append(&mut st.payload, part.as_slice());
        self.count_bytes(taken);
        self.count_bytes(take);
        proof {
            lemma_counts(start.count as int, taken as int, take as int);
        }
        if st.payload.len() as u64 == st.length as u64 {
            let message = Message { mtype: st.mtype, ts: st.ts, payload: st.payload };
            let ghost done = StreamView { payload: Seq::empty(), ..next };
            let cleared = ChunkState {
                ts: st.ts,
                length: st.length,
                mtype: st.mtype,
                stream_id: st.stream_id,
                payload: Vec::new(),
            };
            assert(cleared@ =~= done);
            self.put_state(cid, cleared);
            assert(self@.streams =~= start.streams.insert(cid as int, done));
            Ok(Some(message))
        } else {
            self.put_state(cid, st);
            assert(self@.streams =~= start.streams.insert(cid as int, st@));
            assert(st@ =~= (StreamView { payload: next.payload + part@, ..next }));
            Ok(None)
        }
    }

    fn count_bytes(&mut self, n: usize)
        ensures
            final(self)@ == (ReaderView {
                count: ((old(self)@.count + n) % 0x1_0000_0000_0000_0000) as u64,
                ..old(self)@
            }),
            final(self).states@ == old(self).states@,
    {
        self.bytes_read = self.bytes_read.wrapping_add(n as u64);
    }

    /// Read one full message from `sock`, reassembling chunk fragments. When the
    /// input ends first, what came of it is counted and kept.
    pub fn read_message<R: Source>(&mut self, sock: &mut R) -> (r: Result<Message, IoError>)
        ensures
            final(self)@.size == old(self)@.size,
            match r {
                Ok(m) => next_message(old(self)@.streams, old(self)@.size, old(sock).input())
                    matches ReadView::Got(streams, rest, message) && m@ == message &&
                    final(sock).input() == rest && final(self)@ == old(self)@.behind(
                    streams,
                    old(sock).input(),
                    rest,
                ),
                Err(e) => next_message(old(self)@.streams, old(self)@.size, old(sock).input())
                    is Ended && e.kind == old(sock).ending() && final(self)@ == cut_off(
                    old(self)@,
                    old(sock).input(),
                ),
            },
            r is Ok ==> final(sock).ending() == old(sock).ending(),
    {
        let ghost input = sock.input();
        let ghost start = self@;
        loop
            invariant
                input == old(sock).input(),
                start == old(self)@,
                self@.size == start.size,
                sock.ending() == old(sock).ending(),
                sock.input().len() <= input.len(),
                self@ == start.behind(self@.streams, input, sock.input()),
                next_message(start.streams, start.size, input) == next_message(
                    self@.streams,
                    start.size,
                    sock.input(),
                ),
                cut_off(start, input) == cut_off(self@, sock.input()),
            decreases sock.input().len(),
        {
            let ghost at = sock.input();
            match self.read_chunk(sock) {
                Ok(Some(m)) => {
                    proof {
                        lemma_counts(
                            start.count as int,
                            input.len() - at.len(),
                            at.len() - sock.input().len(),
                        );
                    }
                    return Ok(m);
                },
                Ok(None) => {
                    proof {
                        lemma_counts(
                            start.count as int,
                            input.len() - at.len(),
                            at.len() - sock.input().len(),
                        );
                    }
                },
                Err(e) => {
                    return Err(e);
                },
            }
        }
    }
}

proof fn lemma_counts(c: int, a: int, b: int)
    ensures
        ((c + a) % 0x1_0000_0000_0000_0000 + b) % 0x1_0000_0000_0000_0000 == (c + (a + b))
            % 0x1_0000_0000_0000_0000,
{
    let m = 0x1_0000_0000_0000_0000int;
    vstd::arithmetic::div_mod::lemma_add_mod_noop(c + a, b, m);
    vstd::arithmetic::div_mod::lemma_add_mod_noop((c + a) % m, b, m);
    vstd::arithmetic::div_mod::lemma_mod_twice(c + a, m);
}

// ---------------------------------------------------------------------------
// Framing
// ---------------------------------------------------------------------------

/// A payload in pieces of at most `size` bytes, with a continuation header
/// between them.
pub open spec fn chunks(cid: u8, payload: Seq<u8>, size: int) -> Seq<u8>
    decreases payload.len(),
{
    if size <= 0 || payload.len() <= size {
        payload
    } else {
        payload.take(size) + (seq![0xC0u8 | cid] + chunks(cid, payload.skip(size), size))
    }
}

/// The headers in front of a message: format 0 with the time, the payload
/// length, the type, the stream id in little-endian form, and an extended
/// timestamp where the time does not fit 24 bits.
pub open spec fn frame_head(cid: u8, mtype: u8, stream_id: u32, ts: u32, len: int) -> Seq<u8> {
    seq![cid] + (be24(
        if ts >= 0xFF_FFFF {
            0xFF_FFFF
        } else {
            ts as int
        },
    ) + (be24(len) + (seq![mtype] + (le32(stream_id as int) + (if ts >= 0xFF_FFFF {
        be32(ts as int)
    } else {
        Seq::empty()
    })))))
}

/// One message on the wire.
pub open spec fn frame(
    cid: u8,
    mtype: u8,
    stream_id: u32,
    ts: u32,
    payload: Seq<u8>,
    size: int,
) -> Seq<u8> {
    frame_head(cid, mtype, stream_id, ts, payload.len() as int) + chunks(cid, payload, size)
}

/// Frame one RTMP message into chunk bytes (fmt-0 header + `chunk_size`-byte
/// chunks).
pub fn frame_message(
    cid: u8,
    mtype: u8,
    stream_id: u32,
    ts: u32,
    payload: &[u8],
    chunk_size: usize,
) -> (out: Vec<u8>)
    requires
        chunk_size > 0 || payload@.len() == 0,
    ensures
        out@ == frame(cid, mtype, stream_id, ts, payload@, chunk_size as int),
{
    let len: u32 = (payload.len() as u64 % 0x100_0000) as u32;
    proof {
        bytes::lemma_be24_low(payload@.len() as int);
    }
    let mut out: Vec<u8> = Vec::new();
    out.push(cid);  // fmt 0 basic header
    bytes::append_be24(
        &mut out,
        if ts >= 0xFF_FFFF {
            0xFF_FFFF
        } else {
            ts
        },
    );
    bytes::append_be24(&mut out, len);
    let ghost o2 = out@;
    out.push(mtype);
    assert(out@ =~= o2 + seq![mtype]);
    bytes::append_le32(&mut out, stream_id);  // 4-byte message stream id (LE)
    let ghost o3 = out@;
    if ts >= 0xFF_FFFF {
        bytes::append_be32(&mut out, ts);
    } else {
        assert(out@ =~= o3 + Seq::<u8>::empty());
    }
    let ghost head = out@;
    assert(head =~= frame_head(cid, mtype, stream_id, ts, payload@.len() as int));
    let mut rest: &[u8] = payload;
    while rest.len() > chunk_size
        invariant
            chunk_size > 0 || rest@.len() == 0,
            out@ + chunks(cid, rest@, chunk_size as int) == head + chunks(
                cid,
                payload@,
                chunk_size as int,
            ),
        decreases rest@.len(),
    {
        let ghost before = out@;
        let piece: &[u8] = bytes::take(rest, chunk_size);
        let next: &[u8] = bytes::skip(rest, chunk_size);
        bytes::append(&mut out, piece);
        out.push(0xC0 | cid);  // fmt 3 continuation
        assert(out@ + chunks(cid, next@, chunk_size as int) =~= before + chunks(
            cid,
            rest@,
            chunk_size as int,
        ));
        rest = next;
    }
    bytes::append(&mut out, rest);
    out
}

/// What is left of a message, behind a continuation header, completes it.
pub proof fn lemma_continue(
    streams: Map<int, StreamView>,
    cid: u8,
    left: Seq<u8>,
    size: nat,
    rest: Seq<u8>,
)
    requires
        2 <= cid < 64,
        size > 0,
        streams.dom().contains(cid as int),
        left.len() > 0,
        streams[cid as int].payload.len() + left.len() == streams[cid as int].length,
    ensures
        ({
            let st = streams[cid as int];
            next_message(
                streams,
                size,
                (seq![0xC0u8 | cid] + chunks(cid, left, size as int)) + rest,
            ) == ReadView::Got(
                streams.insert(cid as int, StreamView { payload: Seq::empty(), ..st }),
                rest,
                MessageView { mtype: st.mtype, ts: st.ts, payload: st.payload + left },
            )
        }),
    decreases left.len(),
{
    let st = streams[cid as int];
    let input = (seq![0xC0u8 | cid] + chunks(cid, left, size as int)) + rest;
    assert(0xC0u8 | cid == 192 + cid) by (bit_vector)
        requires
            cid < 64,
    ;
    assert(input[0] == 192 + cid);
    assert(basic_header(input) == Some((3int, cid as int, 1int)));
    assert(header_at(input) matches Some(h) && h.format == 3 && h.len == 1 && h.cid == cid);
    if left.len() <= size {
        assert(input.subrange(1, 1 + left.len() as int) =~= left);
        assert(input.skip(1 + left.len() as int) =~= rest);
    } else {
        let piece = left.take(size as int);
        let more = left.skip(size as int);
        assert(input.subrange(1, 1 + size as int) =~= piece);
        let next = streams.insert(
            cid as int,
            StreamView { payload: st.payload + piece, ..st },
        );
        let tail = (seq![0xC0u8 | cid] + chunks(cid, more, size as int)) + rest;
        assert(input.skip(1 + size as int) =~= tail);
        assert(chunk_at(streams, size, input) == ChunkView::Partial(next, 1 + size as int));
        lemma_continue(next, cid, more, size, rest);
        assert((st.payload + piece) + more =~= st.payload + left);
        assert(next.insert(cid as int, StreamView { payload: Seq::empty(), ..st })
            =~= streams.insert(cid as int, StreamView { payload: Seq::empty(), ..st }));
    }
}

#[verifier::rlimit(40)]
proof fn lemma_frame_header(
    cid: u8,
    mtype: u8,
    stream_id: u32,
    ts: u32,
    len: int,
    rest: Seq<u8>,
)
    requires
        2 <= cid < 64,
        0 <= len < 0x100_0000,
    ensures
        ({
            let head = frame_head(cid, mtype, stream_id, ts, len);
            header_at(head + rest) == Some(
                HeaderView {
                    format: 0,
                    cid: cid as int,
                    len: head.len() as int,
                    time: ts as int,
                    length: len,
                    mtype,
                    stream_id: stream_id as int,
                },
            )
        }),
        frame_head(cid, mtype, stream_id, ts, len).len() > 0,
{
    let head = frame_head(cid, mtype, stream_id, ts, len);
    let input = head + rest;
    let short = if ts >= 0xFF_FFFF {
        0xFF_FFFF
    } else {
        ts as int
    };
    let ext = if ts >= 0xFF_FFFF {
        be32(ts as int)
    } else {
        Seq::<u8>::empty()
    };
    let d4 = ext + rest;
    let d3 = le32(stream_id as int) + d4;
    let d2 = seq![mtype] + d3;
    let d1 = be24(len) + d2;
    let d0 = be24(short) + d1;
    assert(input =~= seq![cid] + d0);
    assert(input[0] == cid);
    assert(basic_header(input) == Some((0int, cid as int, 1int)));
    assert(input.skip(1) =~= d0);
    bytes::lemma_front_be24(short, d1);
    assert(d0.skip(3) =~= d1);
    bytes::lemma_front_be24(len, d2);
    assert(d0[6] == mtype);
    assert(d0.skip(7) =~= d3);
    bytes::big_endian_round_trips(stream_id as int);
    assert(from_le32(d3) == from_le32(le32(stream_id as int)));
    assert(input.skip(12) =~= d4);
    if ts >= 0xFF_FFFF {
        bytes::lemma_front_be32(ts as int, rest);
    }
}

/// A message that was framed for a reader's chunk size is read back whole: its
/// type, its timestamp (extended or not) and its payload, whatever other chunk
/// streams are doing and whatever follows. (An empty message is skipped by
/// readers, and a payload must fit the 24-bit length field.)
#[verifier::rlimit(40)]
pub proof fn framed_messages_read_back(
    streams: Map<int, StreamView>,
    cid: u8,
    mtype: u8,
    stream_id: u32,
    ts: u32,
    payload: Seq<u8>,
    size: nat,
    rest: Seq<u8>,
)
    requires
        2 <= cid < 64,
        0 < payload.len() < 0x100_0000,
        size > 0,
    ensures
        next_message(streams, size, frame(cid, mtype, stream_id, ts, payload, size as int) + rest)
            == ReadView::Got(
            streams.insert(
                cid as int,
                StreamView {
                    ts,
                    length: payload.len() as u32,
                    mtype,
                    stream_id,
                    payload: Seq::empty(),
                },
            ),
            rest,
            MessageView { mtype, ts, payload },
        ),
{
    let head = frame_head(cid, mtype, stream_id, ts, payload.len() as int);
    let body = chunks(cid, payload, size as int);
    let input = frame(cid, mtype, stream_id, ts, payload, size as int) + rest;
    bytes::lemma_concat(head, body, rest);
    lemma_frame_header(cid, mtype, stream_id, ts, payload.len() as int, body + rest);
    let at = head.len() as int;
    let st = StreamView {
        ts,
        length: payload.len() as u32,
        mtype,
        stream_id,
        payload: Seq::empty(),
    };
    let h = header_at(input)->0;
    assert(with_header(stream_of(streams, cid as int), h) == st);
    if payload.len() <= size {
        assert(input.subrange(at, at + payload.len()) =~= payload);
        assert(Seq::<u8>::empty() + payload =~= payload);
        assert(input.skip(at + payload.len()) =~= rest);
    } else {
        let piece = payload.take(size as int);
        let more = payload.skip(size as int);
        assert(input.subrange(at, at + size) =~= piece);
        assert(Seq::<u8>::empty() + piece =~= piece);
        let next = streams.insert(cid as int, StreamView { payload: piece, ..st });
        assert(chunk_at(streams, size, input) == ChunkView::Partial(next, at + size));
        assert(input.skip(at + size) =~= (seq![0xC0u8 | cid] + chunks(cid, more, size as int))
            + rest);
        lemma_continue(next, cid, more, size, rest);
        assert(piece + more =~= payload);
        assert(next.insert(cid as int, st) =~= streams.insert(cid as int, st));
    }
}

} // verus!
