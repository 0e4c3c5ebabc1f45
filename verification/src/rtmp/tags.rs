//! Cutting an FLV byte stream into its tags, as the bytes come in.

use vstd::prelude::*;

use crate::bytes;
use crate::bytes::{be24, be32, from_be24, from_be32};
use crate::flv::{flv_header, tag_bytes, tags_bytes, TagView};

verus! {

/// Largest FLV `dataoffset` that is accepted (real files use 9).
pub const MAX_FLV_DATA_OFFSET: usize = 4096;

/// One parsed FLV tag.
///
/// Produced by the parser, consumed by the caller; `non_exhaustive` so new
/// attributes can be added in a minor release.
#[derive(Debug, Clone, PartialEq, Eq)]
#[non_exhaustive]
pub struct FlvTag {
    /// FLV tag type: 8 audio, 9 video, 18 script data.
    pub mtype: u8,
    /// 32-bit timestamp (24-bit field and extension byte already merged).
    pub ts: u32,
    /// Tag body, without the 11-byte header or trailing `PreviousTagSize`.
    pub body: Vec<u8>,
}

impl View for FlvTag {
    type V = TagView;

    open spec fn view(&self) -> TagView {
        TagView { kind: self.mtype, ts: self.ts, body: self.body@ }
    }
}

/// Why an FLV byte stream was rejected.
///
/// `non_exhaustive`: new rejection reasons may be added in a minor release;
/// matches must keep a wildcard arm.
#[derive(Debug, Clone, Copy, PartialEq, Eq, Structural)]
#[non_exhaustive]
pub enum FlvError {
    /// The FLV header is missing, mis-signed, or carries an unsupported version
    /// or data offset.
    BadHeader,
}

impl FlvError {
    /// The error in words.
    pub fn message(&self) -> (text: String)
        ensures
            text@ == "malformed FLV header"@,
    {
        "malformed FLV header".to_owned()
    }
}

/// Where in the stream a parser stands.
#[derive(Debug, Clone, Copy, PartialEq, Eq, Structural)]
pub enum FlvPhase {
    /// Before the FLV header.
    Header,
    /// Before a tag header.
    TagHeader,
    /// Before the body of the tag with this type, body size and timestamp.
    TagBody {
        /// Tag type.
        kind: u8,
        /// Body size.
        size: u32,
        /// Timestamp.
        ts: u32,
    },
    /// Before the size of the tag that just ended.
    PrevSize,
}

/// What a parser makes of the bytes it has.
#[verifier::ext_equal]
pub struct Parsed {
    /// The tags that are complete; `None` when the FLV header is malformed.
    pub tags: Option<Seq<TagView>>,
    /// Where the parser stands then.
    pub phase: FlvPhase,
    /// The bytes that are not used up.
    pub rest: Seq<u8>,
}

/// The timestamp in a tag header: 24 bits and, above them, the extension byte.
pub open spec fn tag_time(b: Seq<u8>) -> int {
    b[7] * 0x100_0000 + from_be24(b.skip(4))
}

/// Parse as much of `b` as there is, from `phase` on.
pub open spec fn parse_tags(phase: FlvPhase, b: Seq<u8>) -> Parsed
    decreases b.len(), (if phase is TagBody { 1int } else { 0 }),
{
    match phase {
        FlvPhase::Header => {
            if b.len() < 13 {
                Parsed { tags: Some(Seq::empty()), phase, rest: b }
            } else {
                let offset = from_be32(b.skip(5));
                if b[0] != 0x46 || b[1] != 0x4C || b[2] != 0x56 || b[3] != 1 || offset < 9 || offset
                    > 4096 {
                    Parsed { tags: None, phase, rest: b }
                } else if b.len() < offset + 4 {
                    Parsed { tags: Some(Seq::empty()), phase, rest: b }
                } else {
                    parse_tags(FlvPhase::TagHeader, b.skip(offset + 4))
                }
            }
        },
        FlvPhase::TagHeader => {
            if b.len() < 11 {
                Parsed { tags: Some(Seq::empty()), phase, rest: b }
            } else {
                parse_tags(
                    FlvPhase::TagBody {
                        kind: b[0],
                        size: from_be24(b.skip(1)) as u32,
                        ts: tag_time(b) as u32,
                    },
                    b.skip(11),
                )
            }
        },
        FlvPhase::TagBody { kind, size, ts } => {
            if b.len() < size {
                Parsed { tags: Some(Seq::empty()), phase, rest: b }
            } else {
                let next = parse_tags(FlvPhase::PrevSize, b.skip(size as int));
                Parsed {
                    tags: match next.tags {
                        Some(tags) => Some(
                            seq![TagView { kind, ts, body: b.take(size as int) }] + tags,
                        ),
                        None => None,
                    },
                    ..next
                }
            }
        },
        FlvPhase::PrevSize => {
            if b.len() < 4 {
                Parsed { tags: Some(Seq::empty()), phase, rest: b }
            } else {
                parse_tags(FlvPhase::TagHeader, b.skip(4))
            }
        },
    }
}

/// Behind the FLV header nothing is malformed.
pub proof fn tags_are_never_malformed(phase: FlvPhase, b: Seq<u8>)
    requires
        phase != FlvPhase::Header,
    ensures
        parse_tags(phase, b).tags is Some,
        parse_tags(phase, b).phase != FlvPhase::Header,
    decreases b.len(), (if phase is TagBody { 1int } else { 0 }),
{
    match phase {
        FlvPhase::Header => {},
        FlvPhase::TagHeader => {
            if b.len() >= 11 {
                tags_are_never_malformed(
                    FlvPhase::TagBody {
                        kind: b[0],
                        size: from_be24(b.skip(1)) as u32,
                        ts: tag_time(b) as u32,
                    },
                    b.skip(11),
                );
            }
        },
        FlvPhase::TagBody { kind, size, ts } => {
            if b.len() >= size {
                tags_are_never_malformed(FlvPhase::PrevSize, b.skip(size as int));
            }
        },
        FlvPhase::PrevSize => {
            if b.len() >= 4 {
                tags_are_never_malformed(FlvPhase::TagHeader, b.skip(4));
            }
        },
    }
}

/// The FLV header is taken, and with it nothing else.
pub(crate) proof fn lemma_header_parses()
    ensures
        parse_tags(FlvPhase::Header, flv_header()) == (Parsed {
            tags: Some(Seq::empty()),
            phase: FlvPhase::TagHeader,
            rest: Seq::empty(),
        }),
{
    let h = flv_header();
    assert(from_be32(h.skip(5)) == 9);
    assert(h.skip(13) =~= Seq::<u8>::empty());
    reveal_with_fuel(parse_tags, 2);
}

/// What a list of tags says.
pub open spec fn tag_views(tags: Seq<FlvTag>) -> Seq<TagView> {
    tags.map_values(|t: FlvTag| t@)
}

/// Incremental FLV tag parser. Feed any chunking of an FLV byte stream through
/// [`feed`](Self::feed); tags come back as soon as they are complete. All
/// parsing is bounds-checked (tag bodies are inherently capped at 16 MiB by the
/// 24-bit size field); malformed input yields [`FlvError`], never a panic.
pub struct FlvTagParser {
    phase: FlvPhase,
    buf: Vec<u8>,
}

impl Default for FlvTagParser {
    fn default() -> (p: Self)
        ensures
            p.spec_phase() == FlvPhase::Header,
            p.buffered() == Seq::<u8>::empty(),
    {
        FlvTagParser::new()
    }
}

impl FlvTagParser {
    /// Where the parser stands.
    pub closed spec fn spec_phase(&self) -> FlvPhase {
        self.phase
    }

    /// Bytes that came but are not used up yet.
    pub closed spec fn buffered(&self) -> Seq<u8> {
        self.buf@
    }

    /// Create a parser positioned before the FLV file header.
    pub fn new() -> (p: Self)
        ensures
            p.spec_phase() == FlvPhase::Header,
            p.buffered() == Seq::<u8>::empty(),
    {
        FlvTagParser { phase: FlvPhase::Header, buf: Vec::new() }
    }

    /// Feed more bytes; returns every tag completed by this feed.
    pub fn feed(&mut self, data: &[u8]) -> (r: Result<Vec<FlvTag>, FlvError>)
        ensures
            ({
                let parsed = parse_tags(old(self).spec_phase(), old(self).buffered() + data@);
                &&& match r {
                    Ok(tags) => parsed.tags == Some(tag_views(tags@)),
                    Err(e) => parsed.tags is None && e == FlvError::BadHeader,
                }
                &&& final(self).spec_phase() == parsed.phase
                &&& final(self).buffered() == parsed.rest
            }),
    {
        let ghost start = self.phase;
        bytes::append(&mut self.buf, data);
        let ghost all = self.buf@;
        let mut phase: FlvPhase = self.phase;
        let mut tags: Vec<FlvTag> = Vec::new();
        let mut rest: &[u8] = self.buf.as_slice();
        proof {
            lemma_prepend_none(parse_tags(phase, rest@));
            assert(tag_views(tags@) =~= Seq::<TagView>::empty());
        }
        let mut bad: bool = false;
        loop
            invariant_except_break
                !bad,
            invariant
                parse_tags(start, all) == prepend(tag_views(tags@), parse_tags(phase, rest@)),
            ensures
                bad ==> phase is Header && parse_tags(phase, rest@) == (Parsed {
                    tags: None,
                    phase,
                    rest: rest@,
                }),
                !bad ==> parse_tags(phase, rest@) == (Parsed {
                    tags: Some(Seq::empty()),
                    phase,
                    rest: rest@,
                }),
            decreases rest@.len(), (if phase is TagBody { 1int } else { 0 }),
        {
            match phase {
                FlvPhase::Header => {
                    if rest.len() < 13 {
                        break;
                    }
                    let offset: u32 = bytes::read_be32(rest, 5);
                    if rest[0] != 0x46 || rest[1] != 0x4C || rest[2] != 0x56 || rest[3] != 1
                        || offset < 9 || offset > 4096 {
                        bad = true;
                        break;
                    }
                    if rest.len() < offset as usize + 4 {
                        break;  // header + PreviousTagSize0 not fully buffered yet
                    }
                    rest = bytes::skip(rest, offset as usize + 4);
                    phase = FlvPhase::TagHeader;
                },
                FlvPhase::TagHeader => {
                    if rest.len() < 11 {
                        break;
                    }
                    let kind: u8 = rest[0];
                    let size: u32 = bytes::read_be24(rest, 1);
                    let ts: u32 = rest[7] as u32 * 0x100_0000 + bytes::read_be24(rest, 4);
                    rest = bytes::skip(rest, 11);
                    phase = FlvPhase::TagBody { kind, size, ts };
                },
                FlvPhase::TagBody { kind, size, ts } => {
                    if (rest.len() as u64) < size as u64 {
                        break;
                    }
                    let body: Vec<u8> = bytes::copy_of(bytes::take(rest, size as usize));
                    let ghost before = tags@;
                    let ghost tag = TagView { kind, ts, body: body@ };
                    tags.push(FlvTag { mtype: kind, ts, body });
                    rest = bytes::skip(rest, size as usize);
                    phase = FlvPhase::PrevSize;
                    proof {
                        assert(tag_views(tags@) =~= tag_views(before).push(tag));
                        lemma_prepend_push(tag_views(before), tag, parse_tags(phase, rest@));
                    }
                },
                FlvPhase::PrevSize => {
                    if rest.len() < 4 {
                        break;
                    }
                    rest = bytes::skip(rest, 4);  // previous-tag-size
                    phase = FlvPhase::TagHeader;
                },
            }
        }
        assert(tag_views(tags@) + Seq::<TagView>::empty() =~= tag_views(tags@));
        let left: Vec<u8> = bytes::copy_of(rest);
        self.phase = phase;
        self.buf = left;
        if bad {
            Err(FlvError::BadHeader)
        } else {
            Ok(tags)
        }
    }
}

/// The same with earlier tags in front.
pub open spec fn prepend(tags: Seq<TagView>, p: Parsed) -> Parsed {
    Parsed {
        tags: match p.tags {
            Some(more) => Some(tags + more),
            None => None,
        },
        ..p
    }
}

proof fn lemma_prepend_none(p: Parsed)
    ensures
        prepend(Seq::empty(), p) == p,
{
    if let Some(tags) = p.tags {
        assert(Seq::<TagView>::empty() + tags =~= tags);
    }
}

proof fn lemma_prepend_push(tags: Seq<TagView>, t: TagView, p: Parsed)
    ensures
        prepend(tags.push(t), p) == prepend(tags, prepend(seq![t], p)),
{
    if let Some(more) = p.tags {
        assert(tags.push(t) + more =~= tags + (seq![t] + more));
    }
}

/// It makes no difference how a stream is cut up: feeding `a` and then `b`
/// gives the tags, and leaves the parser, as feeding both at once does.
#[verifier::rlimit(40)]
pub proof fn feeding_in_pieces(phase: FlvPhase, a: Seq<u8>, b: Seq<u8>)
    ensures
        ({
            let first = parse_tags(phase, a);
            match first.tags {
                Some(tags) => parse_tags(phase, a + b) == prepend(
                    tags,
                    parse_tags(first.phase, first.rest + b),
                ),
                None => parse_tags(phase, a + b).tags is None,
            }
        }),
    decreases a.len(), (if phase is TagBody { 1int } else { 0 }),
{
    let first = parse_tags(phase, a);
    let whole = a + b;
    match phase {
        FlvPhase::Header => {
            if a.len() >= 13 {
                assert(whole.skip(5).take(4) =~= a.skip(5).take(4));
                lemma_be32_front(whole.skip(5), a.skip(5));
                let offset = from_be32(a.skip(5));
                if !(a[0] != 0x46 || a[1] != 0x4C || a[2] != 0x56 || a[3] != 1 || offset < 9
                    || offset > 4096) && a.len() >= offset + 4 {
                    assert(whole.skip(offset + 4) =~= a.skip(offset + 4) + b);
                    feeding_in_pieces(FlvPhase::TagHeader, a.skip(offset + 4), b);
                } else {
                    lemma_prepend_none(parse_tags(phase, whole));
                }
            } else {
                lemma_prepend_none(parse_tags(phase, whole));
            }
        },
        FlvPhase::TagHeader => {
            if a.len() >= 11 {
                assert(whole.skip(11) =~= a.skip(11) + b);
                assert(from_be24(whole.skip(1)) == from_be24(a.skip(1)));
                assert(from_be24(whole.skip(4)) == from_be24(a.skip(4)));
                let body = FlvPhase::TagBody {
                    kind: a[0],
                    size: from_be24(a.skip(1)) as u32,
                    ts: tag_time(a) as u32,
                };
                feeding_in_pieces(body, a.skip(11), b);
            } else {
                lemma_prepend_none(parse_tags(phase, whole));
            }
        },
        FlvPhase::TagBody { kind, size, ts } => {
            if a.len() >= size {
                assert(whole.skip(size as int) =~= a.skip(size as int) + b);
                assert(whole.take(size as int) =~= a.take(size as int));
                feeding_in_pieces(FlvPhase::PrevSize, a.skip(size as int), b);
                let tag = TagView { kind, ts, body: a.take(size as int) };
                let next = parse_tags(FlvPhase::PrevSize, a.skip(size as int));
                if let Some(tags) = next.tags {
                    let last = parse_tags(next.phase, next.rest + b);
                    if let Some(more) = last.tags {
                        assert((seq![tag] + tags) + more =~= seq![tag] + (tags + more));
                    }
                }
            } else {
                lemma_prepend_none(parse_tags(phase, whole));
            }
        },
        FlvPhase::PrevSize => {
            if a.len() >= 4 {
                assert(whole.skip(4) =~= a.skip(4) + b);
                feeding_in_pieces(FlvPhase::TagHeader, a.skip(4), b);
            } else {
                lemma_prepend_none(parse_tags(phase, whole));
            }
        },
    }
}

proof fn lemma_be32_front(s: Seq<u8>, t: Seq<u8>)
    requires
        s.len() >= 4,
        t.len() >= 4,
        s.take(4) == t.take(4),
    ensures
        from_be32(s) == from_be32(t),
{
    assert(s[0] == s.take(4)[0] && s[1] == s.take(4)[1] && s[2] == s.take(4)[2] && s[3] == s.take(
        4,
    )[3]);
    assert(t[0] == t.take(4)[0] && t[1] == t.take(4)[1] && t[2] == t.take(4)[2] && t[3] == t.take(
        4,
    )[3]);
}

#[verifier::rlimit(40)]
proof fn lemma_tag_parses(t: TagView, rest: Seq<u8>)
    requires
        t.body.len() < 0x100_0000,
    ensures
        parse_tags(FlvPhase::TagHeader, tag_bytes(t) + rest) == prepend(
            seq![t],
            parse_tags(FlvPhase::TagHeader, rest),
        ),
{
    let len = t.body.len() as int;
    let b = tag_bytes(t) + rest;
    let size = be24(len);
    let low = be24(t.ts as int);
    let tail = seq![(t.ts / 0x100_0000) as u8, 0u8, 0u8, 0u8] + (t.body + (be32(11 + len) + rest));
    assert(b =~= seq![t.kind] + (size + (low + tail)));
    assert(b.skip(1) =~= size + (low + tail));
    bytes::lemma_front_be24(len, low + tail);
    assert(b.skip(4) =~= low + tail);
    lemma_time_field(t.ts, tail);
    assert(b[7] == (t.ts / 0x100_0000) as u8);
    assert(tag_time(b) == t.ts);
    let after = b.skip(11);
    assert(after =~= t.body + (be32(11 + len) + rest));
    assert(after.take(len) =~= t.body);
    assert(after.skip(len) =~= be32(11 + len) + rest);
    assert(after.skip(len).skip(4) =~= rest);
    let phase = FlvPhase::TagBody { kind: t.kind, size: len as u32, ts: t.ts };
    assert(parse_tags(FlvPhase::TagHeader, b) == parse_tags(phase, after));
    assert(parse_tags(FlvPhase::PrevSize, after.skip(len)) == parse_tags(
        FlvPhase::TagHeader,
        rest,
    ));
}

proof fn lemma_time_field(ts: u32, rest: Seq<u8>)
    ensures
        from_be24(be24(ts as int) + rest) == ts % 0x100_0000,
        (ts / 0x100_0000) as u8 * 0x100_0000 + ts % 0x100_0000 == ts,
{
    bytes::lemma_be24_low(ts as int);
    bytes::lemma_front_be24(ts as int % 0x100_0000, rest);
}

proof fn lemma_tags_parse(tags: Seq<TagView>)
    requires
        forall|i: int| 0 <= i < tags.len() ==> (#[trigger] tags[i]).body.len() < 0x100_0000,
    ensures
        parse_tags(FlvPhase::TagHeader, tags_bytes(tags)) == (Parsed {
            tags: Some(tags),
            phase: FlvPhase::TagHeader,
            rest: Seq::empty(),
        }),
    decreases tags.len(),
{
    if tags.len() == 0 {
        assert(tags =~= Seq::empty());
    } else {
        let t = tags.first();
        let more = tags.drop_first();
        assert(t == tags[0]);
        assert forall|i: int| 0 <= i < more.len() implies (#[trigger] more[i]).body.len()
            < 0x100_0000 by {
            assert(more[i] == tags[i + 1]);
        }
        lemma_tags_parse(more);
        lemma_tag_parses(t, tags_bytes(more));
        assert(seq![t] + more =~= tags);
    }
}

/// A stream of tags behind an FLV header parses to those tags, nothing more
/// and nothing less. (A body must fit the 24-bit size field.)
pub proof fn written_streams_parse(tags: Seq<TagView>)
    requires
        forall|i: int| 0 <= i < tags.len() ==> (#[trigger] tags[i]).body.len() < 0x100_0000,
    ensures
        parse_tags(FlvPhase::Header, flv_header() + tags_bytes(tags)) == (Parsed {
            tags: Some(tags),
            phase: FlvPhase::TagHeader,
            rest: Seq::empty(),
        }),
{
    let b = flv_header() + tags_bytes(tags);
    assert(b.skip(5)[0] == 0 && b.skip(5)[1] == 0 && b.skip(5)[2] == 0 && b.skip(5)[3] == 9);
    assert(from_be32(b.skip(5)) == 9);
    assert(b.skip(13) =~= tags_bytes(tags));
    lemma_tags_parse(tags);
}

} // verus!
