//! What both ends of an RTMP connection do alike: sending framed messages,
//! reading messages, acknowledging what came in, and answering the protocol's
//! control messages.

use vstd::prelude::*;
use vstd::string::*;

use crate::bytes;
use crate::bytes::{be16, be32, from_be16, from_be32};
use crate::io::{IoError, IoErrorKind, Sink, Source};
use crate::rtmp::amf0::{items_view, values_at, Reader, Val, ValView};
use crate::rtmp::chunk::{
    cut_off, frame, frame_message, next_message, ChunkReader, Message, MessageView, ReadView,
    ReaderView, CHUNK_SIZE, MAX_CHUNK_SIZE,
};

verus! {

/// Set Chunk Size.
pub const MSG_SET_CHUNK_SIZE: u8 = 1;

/// Abort Message.
pub const MSG_ABORT: u8 = 2;

/// Acknowledgement.
pub const MSG_ACK: u8 = 3;

/// User Control Message.
pub const MSG_USER_CONTROL: u8 = 4;

/// Window Acknowledgement Size.
pub const MSG_WINDOW_ACK: u8 = 5;

/// Set Peer Bandwidth.
pub const MSG_SET_PEER_BW: u8 = 6;

/// Audio.
pub const MSG_AUDIO: u8 = 8;

/// Video.
pub const MSG_VIDEO: u8 = 9;

/// AMF0 data.
pub const MSG_AMF0_DATA: u8 = 18;

/// AMF0 command.
pub const MSG_AMF0_COMMAND: u8 = 20;

/// User control event: ping request.
pub const UCM_PING_REQUEST: u16 = 0;

/// User control event: ping response.
pub const UCM_PING_RESPONSE: u16 = 1;

/// Chunk size that is negotiated after the handshake. Matches the value common
/// RTMP servers (node-media-server, nginx-rtmp, SRS) expect/serve.
pub const NEGOTIATED_CHUNK_SIZE: usize = 4096;

/// How many messages are waded through while waiting for one command before
/// concluding that it is never coming.
pub const MAX_PENDING_MESSAGES: usize = 64;

/// Chunk stream of commands and data.
pub const CID_COMMAND: u8 = 3;

/// Chunk stream of audio.
pub const CID_AUDIO: u8 = 6;

/// Chunk stream of video.
pub const CID_VIDEO: u8 = 7;

/// A connection as a mathematical value.
#[verifier::ext_equal]
pub struct LinkView {
    /// The inbound chunk streams.
    pub reader: ReaderView,
    /// The bytes the peer will still send.
    pub input: Seq<u8>,
    /// What kind of failure ends them.
    pub ending: IoErrorKind,
    /// The bytes that have been sent.
    pub out: Seq<u8>,
    /// Whether the larger outbound chunk size is in force.
    pub negotiated: bool,
    /// The peer's acknowledgement window in bytes; 0 when it wants none.
    pub window: u32,
    /// The byte count at the last acknowledgement.
    pub acked: u64,
    /// Bytes of framed messages sent, modulo 2^64.
    pub framed: u64,
}

impl LinkView {
    /// The outbound chunk size.
    pub open spec fn chunk(self) -> int {
        if self.negotiated {
            4096
        } else {
            128
        }
    }

    /// The connection with one more message sent.
    pub open spec fn sent(
        self,
        cid: u8,
        mtype: u8,
        stream_id: u32,
        ts: u32,
        payload: Seq<u8>,
    ) -> LinkView {
        let f = frame(cid, mtype, stream_id, ts, payload, self.chunk());
        LinkView {
            out: self.out + f,
            framed: ((self.framed + f.len()) % 0x1_0000_0000_0000_0000) as u64,
            ..self
        }
    }

    /// True if an acknowledgement is due: a full window has come in since the
    /// last.
    pub open spec fn owes_ack(self) -> bool {
        self.window != 0 && self.reader.count >= self.acked + self.window
    }

    /// The connection once an acknowledgement has gone out, if one is due. It
    /// carries the byte count modulo 2^32.
    pub open spec fn acknowledged(self) -> LinkView {
        if self.owes_ack() {
            LinkView {
                acked: self.reader.count,
                ..self.sent(CID_COMMAND, MSG_ACK, 0, 0, be32(self.reader.count as int))
            }
        } else {
            self
        }
    }

    /// The connection once the next message has been read, and the message;
    /// `None` when the input ends before it.
    pub open spec fn read(self) -> Option<(LinkView, MessageView)> {
        match next_message(self.reader.streams, self.reader.size, self.input) {
            ReadView::Ended => None,
            ReadView::Got(streams, rest, m) => Some(
                (
                    LinkView {
                        reader: self.reader.behind(streams, self.input, rest),
                        input: rest,
                        ..self
                    },
                    m,
                ),
            ),
        }
    }

    /// True if `now` is the connection after a read that failed. What came of
    /// the message has been counted, and nothing was sent.
    pub open spec fn cut_short(self, now: LinkView) -> bool {
        now == LinkView {
            reader: cut_off(self.reader, self.input),
            input: now.input,
            ending: now.ending,
            ..self
        }
    }

    /// True if `now` is the connection after a message that could not be sent:
    /// some part of it may have gone out.
    pub open spec fn send_failed(self, now: LinkView) -> bool {
        &&& self.out.is_prefix_of(now.out)
        &&& now == LinkView { out: now.out, framed: now.framed, ..self }
    }

    /// The connection once the next message has been read and acknowledged, and
    /// the message; `None` when the input ends before it.
    pub open spec fn received(self) -> Option<(LinkView, MessageView)> {
        match self.read() {
            None => None,
            Some((l, m)) => Some((l.acknowledged(), m)),
        }
    }

    /// True of a message that is answered: a ping.
    pub open spec fn owes_answer(self, m: MessageView) -> bool {
        m.mtype == MSG_USER_CONTROL && m.payload.len() >= 6 && from_be16(m.payload)
            == UCM_PING_REQUEST
    }

    /// The connection once a control message has been dealt with; `None` when
    /// the peer asks for a chunk size of zero. Other messages change nothing.
    pub open spec fn controlled(self, m: MessageView) -> Option<LinkView> {
        let p = m.payload;
        if m.mtype == MSG_SET_CHUNK_SIZE && p.len() >= 4 {
            let n = from_be32(p);
            if n == 0 {
                None
            } else {
                Some(
                    LinkView {
                        reader: ReaderView {
                            size: if n < MAX_CHUNK_SIZE {
                                n as nat
                            } else {
                                MAX_CHUNK_SIZE as nat
                            },
                            ..self.reader
                        },
                        ..self
                    },
                )
            }
        } else if m.mtype == MSG_ABORT && p.len() >= 4 {
            Some(
                LinkView {
                    reader: ReaderView {
                        streams: self.reader.streams.remove(from_be32(p)),
                        ..self.reader
                    },
                    ..self
                },
            )
        } else if (m.mtype == MSG_WINDOW_ACK || m.mtype == MSG_SET_PEER_BW) && p.len() >= 4 {
            Some(LinkView { window: from_be32(p) as u32, ..self })
        } else if m.mtype == MSG_USER_CONTROL && p.len() >= 6 && from_be16(p) == UCM_PING_REQUEST {
            Some(
                self.sent(
                    CID_COMMAND,
                    MSG_USER_CONTROL,
                    0,
                    0,
                    be16(UCM_PING_RESPONSE as int) + p.subrange(2, 6),
                ),
            )
        } else {
            Some(self)
        }
    }

    /// The connection once the larger chunk size has been announced and is in
    /// force.
    pub open spec fn announced(self) -> LinkView {
        LinkView {
            negotiated: true,
            ..self.sent(CID_COMMAND, MSG_SET_CHUNK_SIZE, 0, 0, be32(4096))
        }
    }
}

/// What waiting for a command gives.
pub enum CommandView {
    /// The command's values, its name first.
    Command(LinkView, Seq<ValView>),
    /// The input ended, after these bytes had been sent.
    Ended(Seq<u8>),
    /// The peer asked for a chunk size of zero, after these bytes had been
    /// sent.
    BadChunkSize(Seq<u8>),
    /// There was no command among the messages that may be waited for; these
    /// bytes had been sent.
    Exhausted(Seq<u8>),
}

/// The next command or data message that has a name; control messages on the
/// way are dealt with. At most `limit` messages are read, where there is one.
pub open spec fn next_command(l: LinkView, limit: Option<nat>) -> CommandView
    decreases l.input.len(),
{
    if limit == Some(0nat) {
        CommandView::Exhausted(l.out)
    } else {
        let less = match limit {
            Some(n) => Some((n - 1) as nat),
            None => None,
        };
        match l.received() {
            None => CommandView::Ended(l.out),
            Some((l2, m)) => if l2.input.len() >= l.input.len() {
                CommandView::Ended(l.out)
            } else if m.mtype == MSG_AMF0_COMMAND || m.mtype == MSG_AMF0_DATA {
                let vals = values_at(m.payload);
                if vals.len() > 0 && vals[0] is String {
                    CommandView::Command(l2, vals)
                } else {
                    next_command(l2, less)
                }
            } else {
                match l2.controlled(m) {
                    None => CommandView::BadChunkSize(l2.out),
                    Some(l3) => if l3.input.len() >= l.input.len() {
                        CommandView::Ended(l.out)
                    } else {
                        next_command(l3, less)
                    },
                }
            },
        }
    }
}

/// True if some message up to the next command owes an acknowledgement or an
/// answer.
#[verifier::opaque]
pub open spec fn owes_reply(l: LinkView, limit: Option<nat>) -> bool
    decreases l.input.len(),
{
    limit != Some(0nat) && (l.read() matches Some((l1, m)) && {
        let l2 = l1.acknowledged();
        let less = match limit {
            Some(n) => Some((n - 1) as nat),
            None => None,
        };
        let named = values_at(m.payload).len() > 0 && values_at(m.payload)[0] is String;
        ||| l1.owes_ack()
        ||| l2.owes_answer(m)
        ||| if m.mtype == MSG_AMF0_COMMAND || m.mtype == MSG_AMF0_DATA {
            !named && l2.input.len() < l.input.len() && owes_reply(l2, less)
        } else {
            l2.controlled(m) matches Some(l3) && l3.input.len() < l.input.len() && owes_reply(
                l3,
                less,
            )
        }
    })
}

/// A message takes at least one byte of the input.
pub proof fn lemma_received_shrinks(l: LinkView)
    ensures
        l.received() matches Some((l2, m)) ==> l2.input.len() < l.input.len() && l2.ending
            == l.ending,
{
    lemma_next_shrinks(l.reader.streams, l.reader.size, l.input);
}

proof fn lemma_next_shrinks(
    streams: Map<int, crate::rtmp::chunk::StreamView>,
    size: nat,
    input: Seq<u8>,
)
    ensures
        next_message(streams, size, input) matches ReadView::Got(s, rest, m) ==> rest.len()
            < input.len(),
    decreases input.len(),
{
    crate::rtmp::chunk::lemma_chunk_len(streams, size, input);
    match crate::rtmp::chunk::chunk_at(streams, size, input) {
        crate::rtmp::chunk::ChunkView::Partial(next, n) => {
            if 0 < n <= input.len() {
                lemma_next_shrinks(next, size, input.skip(n));
            }
        },
        _ => {},
    }
}

/// One end of an RTMP connection: the two directions of a socket, and the
/// state of the protocol between them.
pub struct Link<R: Source, W: Sink> {
    source: R,
    sink: W,
    reader: ChunkReader,
    negotiated: bool,
    window_ack: u32,
    last_ack_at: u64,
    framed: u64,
}

impl<R: Source, W: Sink> View for Link<R, W> {
    type V = LinkView;

    closed spec fn view(&self) -> LinkView {
        LinkView {
            reader: self.reader@,
            input: self.source.input(),
            ending: self.source.ending(),
            out: self.sink.written(),
            negotiated: self.negotiated,
            window: self.window_ack,
            acked: self.last_ack_at,
            framed: self.framed,
        }
    }
}

impl<R: Source, W: Sink> Link<R, W> {
    /// True if everything that is sent is accepted.
    pub closed spec fn steady(&self) -> bool {
        self.sink.reliable()
    }

    /// The outbound direction.
    pub closed spec fn spec_sink(&self) -> W {
        self.sink
    }

    /// A connection on which nothing has been exchanged yet.
    pub fn new(source: R, sink: W) -> (l: Self)
        ensures
            l@ == (LinkView {
                reader: ReaderView::fresh(),
                input: source.input(),
                ending: source.ending(),
                out: sink.written(),
                negotiated: false,
                window: 0,
                acked: 0,
                framed: 0,
            }),
            l.steady() == sink.reliable(),
            l.spec_sink() == sink,
    {
        Link {
            source,
            sink,
            reader: ChunkReader::new(),
            negotiated: false,
            window_ack: 0,
            last_ack_at: 0,
            framed: 0,
        }
    }

    /// Give the outbound direction back.
    pub fn into_sink(self) -> (sink: W)
        ensures
            sink == self.spec_sink(),
            sink.written() == self@.out,
    {
        self.sink
    }

    /// Bytes of framed messages sent.
    pub fn framed(&self) -> (n: u64)
        ensures
            n == self@.framed,
    {
        self.framed
    }

    /// Read raw bytes (the handshake is not chunked).
    pub fn read_raw(&mut self, n: usize) -> (r: Result<Vec<u8>, IoError>)
        ensures
            r is Ok <==> n <= old(self)@.input.len(),
            r matches Ok(data) ==> data@ == old(self)@.input.take(n as int) && final(self)@ == (
            LinkView { input: old(self)@.input.skip(n as int), ..old(self)@ }),
            r matches Err(e) ==> e.kind == old(self)@.ending && final(self)@ == (LinkView {
                input: final(self)@.input,
                ending: final(self)@.ending,
                ..old(self)@
            }),
            final(self).spec_sink() == old(self).spec_sink(),
            final(self).steady() == old(self).steady(),
    {
        self.source.read_exact(n)
    }

    /// Send raw bytes.
    pub fn write_raw(&mut self, data: &[u8]) -> (r: Result<(), IoError>)
        ensures
            r is Ok ==> final(self)@ == (LinkView { out: old(self)@.out + data@, ..old(self)@ }),
            r is Err ==> old(self)@.send_failed(final(self)@),
            old(self).steady() ==> r is Ok && final(self).steady(),
    {
        self.sink.write_all(data)
    }

    /// Pass on what is still held back.
    pub fn flush(&mut self) -> (r: Result<(), IoError>)
        ensures
            final(self)@ == old(self)@,
            old(self).steady() ==> r is Ok && final(self).steady(),
    {
        self.sink.flush()
    }

    /// Frame and send one message.
    pub fn send_message(
        &mut self,
        cid: u8,
        mtype: u8,
        stream_id: u32,
        ts: u32,
        payload: &[u8],
    ) -> (r: Result<(), IoError>)
        ensures
            r is Ok ==> final(self)@ == old(self)@.sent(cid, mtype, stream_id, ts, payload@),
            r is Err ==> old(self)@.send_failed(final(self)@),
            old(self).steady() ==> r is Ok && final(self).steady(),
    {
        let chunk: usize = if self.negotiated {
            NEGOTIATED_CHUNK_SIZE
        } else {
            CHUNK_SIZE
        };
        let out: Vec<u8> = frame_message(cid, mtype, stream_id, ts, payload, chunk);
        self.framed = self.framed.wrapping_add(out.len() as u64);
        self.sink.write_all(out.as_slice())?;
        self.sink.flush()?;
        Ok(())
    }

    /// Announce the larger chunk size, then switch to it. The announcement
    /// itself goes out at the old size.
    pub fn announce_chunk_size(&mut self) -> (r: Result<(), IoError>)
        ensures
            r is Ok ==> final(self)@ == old(self)@.announced(),
            r is Err ==> old(self)@.send_failed(final(self)@),
            old(self).steady() ==> r is Ok && final(self).steady(),
    {
        let mut payload: Vec<u8> = Vec::new();
        bytes::append_be32(&mut payload, NEGOTIATED_CHUNK_SIZE as u32);
        assert(payload@ =~= be32(4096));
        self.send_message(CID_COMMAND, MSG_SET_CHUNK_SIZE, 0, 0, payload.as_slice())?;
        self.negotiated = true;
        Ok(())
    }

    /// Is an acknowledgement due?
    pub fn ack_due(&self) -> (due: bool)
        ensures
            due == self@.owes_ack(),
    {
        self.window_ack != 0 && self.reader.bytes_read() as u128 >= self.last_ack_at as u128
            + self.window_ack as u128
    }

    /// Send an acknowledgement once a full window has been received since the
    /// previous one (spec 5.4.3). Does nothing if the peer never set a window.
    pub fn maybe_send_ack(&mut self) -> (r: Result<(), IoError>)
        ensures
            r is Ok ==> final(self)@ == old(self)@.acknowledged(),
            r is Err ==> old(self)@.owes_ack() && old(self)@.send_failed(final(self)@),
            old(self).steady() ==> r is Ok && final(self).steady(),
    {
        let received: u64 = self.reader.bytes_read();
        if self.ack_due() {
            // Sequence number wraps mod 2^32 per spec.
            let mut payload: Vec<u8> = Vec::new();
            proof {
                bytes::lemma_be32_low(received as int);
            }
            bytes::append_be32(&mut payload, (received % 0x1_0000_0000) as u32);
            assert(payload@ =~= be32(received as int));
            self.send_message(CID_COMMAND, MSG_ACK, 0, 0, payload.as_slice())?;
            self.last_ack_at = received;
        }
        Ok(())
    }

    /// Read the next message. Nothing is sent.
    pub fn read_next(&mut self) -> (r: Result<Message, IoError>)
        ensures
            match r {
                Ok(m) => old(self)@.read() == Some((final(self)@, m@)),
                Err(e) => old(self)@.read() is None && e.kind == old(self)@.ending && old(
                    self,
                )@.cut_short(final(self)@),
            },
            final(self).spec_sink() == old(self).spec_sink(),
            final(self).steady() == old(self).steady(),
    {
        self.reader.read_message(&mut self.source)
    }

    /// Read the next message, and acknowledge it where that is due.
    pub fn receive(&mut self) -> (r: Result<Message, IoError>)
        ensures
            match r {
                Ok(m) => old(self)@.received() == Some((final(self)@, m@)),
                Err(e) => match old(self)@.read() {
                    None => e.kind == old(self)@.ending && old(self)@.cut_short(final(self)@),
                    Some((l, _)) => l.owes_ack() && l.send_failed(final(self)@),
                },
            },
            old(self).steady() ==> final(self).steady() && (r is Ok <==> old(
                self,
            )@.received() is Some),
    {
        let m: Message = self.read_next()?;
        self.maybe_send_ack()?;
        Ok(m)
    }

    /// Is this a message that is answered?
    pub fn answer_due(&self, msg: &Message) -> (due: bool)
        ensures
            due == self@.owes_answer(msg@),
    {
        let p: &[u8] = msg.payload.as_slice();
        assert(p@.skip(0) =~= p@);
        msg.mtype == MSG_USER_CONTROL && p.len() >= 6 && bytes::read_be16(p, 0) == UCM_PING_REQUEST
    }

    /// React to one protocol-control message from the peer.
    pub fn handle_control(&mut self, msg: &Message) -> (r: Result<(), IoError>)
        ensures
            match r {
                Ok(()) => old(self)@.controlled(msg@) == Some(final(self)@),
                Err(e) => match old(self)@.controlled(msg@) {
                    None => final(self)@ == old(self)@ && e.kind == IoErrorKind::InvalidData
                        && e.message@ == "peer set chunk size to 0"@,
                    Some(_) => old(self)@.owes_answer(msg@) && old(self)@.send_failed(
                        final(self)@,
                    ),
                },
            },
            old(self).steady() ==> final(self).steady() && (r is Ok <==> old(self)@.controlled(
                msg@,
            ) is Some),
    {
        let p: &[u8] = msg.payload.as_slice();
        assert(p@.skip(0) =~= p@);
        if msg.mtype == MSG_SET_CHUNK_SIZE && p.len() >= 4 {
            // The peer tells the size of *its* chunks (spec 5.4.1).
            let n: u32 = bytes::read_be32(p, 0);
            self.reader.set_chunk_size(n as usize)?;
        } else if msg.mtype == MSG_ABORT && p.len() >= 4 {
            let cid: u32 = bytes::read_be32(p, 0);
            self.reader.abort(cid as usize);
        } else if (msg.mtype == MSG_WINDOW_ACK || msg.mtype == MSG_SET_PEER_BW) && p.len() >= 4 {
            // Peer bandwidth carries the ack window in its first 4 bytes.
            self.window_ack = bytes::read_be32(p, 0);
        } else if msg.mtype == MSG_USER_CONTROL && p.len() >= 6 {
            if bytes::read_be16(p, 0) == UCM_PING_REQUEST {
                let mut payload: Vec<u8> = Vec::new();
                bytes::append_be16(&mut payload, UCM_PING_RESPONSE);
                let stamp: &[u8] = bytes::take(bytes::skip(p, 2), 4);
                assert(stamp@ =~= p@.subrange(2, 6));
                bytes::append(&mut payload, stamp);
                assert(payload@ =~= be16(UCM_PING_RESPONSE as int) + p@.subrange(2, 6));
                self.send_message(CID_COMMAND, MSG_USER_CONTROL, 0, 0, payload.as_slice())?;
            }
        }
        Ok(())
    }

    /// Drain messages until a command/data message arrives; return its decoded
    /// AMF0 values, the command name first. Protocol-control messages are
    /// handled (not returned) along the way. Gives up after `limit` messages.
    #[verifier::rlimit(40)]
    pub fn read_command(&mut self, limit: Option<usize>) -> (r: Result<Vec<Val>, IoError>)
        ensures
            ({
                let most = match limit {
                    Some(n) => Some(n as nat),
                    None => None,
                };
                let found = next_command(old(self)@, most);
                &&& r is Ok ==> final(self)@.ending == old(self)@.ending
                &&& r matches Ok(vals) ==> found == CommandView::Command(
                    final(self)@,
                    items_view(vals@),
                )
                &&& old(self).steady() ==> final(self).steady()
                &&& old(self).steady() || !owes_reply(old(self)@, most) ==> match found {
                    CommandView::Command(_, _) => r is Ok,
                    CommandView::Ended(out) => (r matches Err(e) && e.kind == old(self)@.ending)
                        && final(self)@.out == out,
                    CommandView::BadChunkSize(out) => (r matches Err(e) && e.kind
                        == IoErrorKind::InvalidData && e.message@ == "peer set chunk size to 0"@)
                        && final(self)@.out == out,
                    CommandView::Exhausted(out) => (r matches Err(e) && e.kind
                        == IoErrorKind::InvalidData && e.message@ == "no command from publisher"@)
                        && final(self)@.out == out,
                }
            }),
    {
        let mut left: Option<usize> = limit;
        let ghost start = self@;
        let ghost most = match limit {
            Some(n) => Some(n as nat),
            None => None,
        };
        loop
            invariant
                start == old(self)@,
                self@.ending == start.ending,
                most == (match limit {
                    Some(n) => Some(n as nat),
                    None => None,
                }),
                old(self).steady() ==> self.steady(),
                !owes_reply(start, most) ==> !owes_reply(
                    self@,
                    match left {
                        Some(n) => Some(n as nat),
                        None => None,
                    },
                ),
                next_command(start, most) == next_command(
                    self@,
                    match left {
                        Some(n) => Some(n as nat),
                        None => None,
                    },
                ),
            decreases self@.input.len(),
        {
            if left == Some(0usize) {
                return Err(IoError::new(IoErrorKind::InvalidData, "no command from publisher"));
            }
            left = match left {
                Some(n) => Some((n - 1) as usize),
                None => None,
            };
            let ghost before = self@;
            proof {
                lemma_received_shrinks(before);
                reveal(owes_reply);
            }
            let msg: Message = self.receive()?;
            if msg.mtype == MSG_AMF0_COMMAND || msg.mtype == MSG_AMF0_DATA {
                let vals: Vec<Val> = Reader::new(msg.payload.as_slice()).read_all();
                proof {
                    lemma_items(vals@);
                }
                if vals.len() > 0 {
                    if let Val::String(_) = &vals[0] {
                        return Ok(vals);
                    }
                }
            } else {
                self.handle_control(&msg)?;
            }
        }
    }
}

/// The items of a list, one by one.
pub proof fn lemma_items(items: Seq<Val>)
    ensures
        items_view(items).len() == items.len(),
        forall|i: int| 0 <= i < items.len() ==> items_view(items)[i] == (#[trigger] items[i])@,
    decreases items.len(),
{
    if items.len() > 0 {
        lemma_items(items.drop_last());
        assert forall|i: int| 0 <= i < items.len() implies items_view(items)[i] == (
        #[trigger] items[i])@ by {
            if i < items.len() - 1 {
                assert(items.drop_last()[i] == items[i]);
            }
        }
    }
}

} // verus!
