//! Minimal AMF0 — enough to build the RTMP control plane (`connect`,
//! `createStream`, `publish`, `@setDataFrame`) and to read back the server's
//! `_result` / `onStatus` responses. Not a general-purpose codec.
//!
//! AMF0's numbers are IEEE-754 doubles; they are held by their bit patterns.

use vstd::prelude::*;
use vstd::string::*;
use vstd::utf8::{decode_utf8, encode_utf8, valid_utf8};

use crate::bytes;
use crate::bytes::{be16, be32, from_be16, from_be32};

verus! {

/// Decoded AMF0 value, kept small on purpose.
///
/// `non_exhaustive`: new AMF0 markers may be mapped in a minor release;
/// matches must keep a wildcard arm.
#[derive(Debug, PartialEq)]
#[non_exhaustive]
pub enum Val {
    /// IEEE-754 double (AMF0's only numeric type), by its bit pattern.
    Number(u64),
    /// Boolean.
    Boolean(bool),
    /// UTF-8 string (length-prefixed on the wire).
    String(String),
    /// Anonymous object: ordered field list.
    Object(Vec<(String, Val)>),
    /// Strict array (rarely seen from RTMP servers).
    Array(Vec<Val>),
    /// Null.
    Null,
    /// Undefined.
    Undefined,
}

/// A [`Val`] as a mathematical value.
pub enum ValView {
    /// A double, by its bit pattern.
    Number(u64),
    /// Boolean.
    Boolean(bool),
    /// Text.
    String(Seq<char>),
    /// Fields in order.
    Object(Seq<(Seq<char>, ValView)>),
    /// Items in order.
    Array(Seq<ValView>),
    /// Null.
    Null,
    /// Undefined.
    Undefined,
}

/// What a value says.
pub open spec fn val_view(v: Val) -> ValView
    decreases v,
{
    match v {
        Val::Number(n) => ValView::Number(n),
        Val::Boolean(b) => ValView::Boolean(b),
        Val::String(s) => ValView::String(s@),
        Val::Object(fields) => ValView::Object(fields_view(fields@)),
        Val::Array(items) => ValView::Array(items_view(items@)),
        Val::Null => ValView::Null,
        Val::Undefined => ValView::Undefined,
    }
}

/// What a list of fields says.
pub open spec fn fields_view(fields: Seq<(String, Val)>) -> Seq<(Seq<char>, ValView)>
    decreases fields,
{
    if fields.len() == 0 {
        Seq::empty()
    } else {
        fields_view(fields.drop_last()).push((fields.last().0@, val_view(fields.last().1)))
    }
}

/// What a list of items says.
pub open spec fn items_view(items: Seq<Val>) -> Seq<ValView>
    decreases items,
{
    if items.len() == 0 {
        Seq::empty()
    } else {
        items_view(items.drop_last()).push(val_view(items.last()))
    }
}

impl View for Val {
    type V = ValView;

    open spec fn view(&self) -> ValView {
        val_view(*self)
    }
}

/// A copy of a value.
fn copy_val(v: &Val) -> (c: Val)
    ensures
        c@ == v@,
    decreases *v,
{
    match v {
        Val::Number(n) => Val::Number(*n),
        Val::Boolean(b) => Val::Boolean(*b),
        Val::String(text) => Val::String(text.clone()),
        Val::Object(fields) => Val::Object(copy_fields(fields)),
        Val::Array(items) => Val::Array(copy_items(items)),
        Val::Null => Val::Null,
        Val::Undefined => Val::Undefined,
    }
}

/// A copy of a list of fields.
fn copy_fields(fields: &Vec<(String, Val)>) -> (c: Vec<(String, Val)>)
    ensures
        fields_view(c@) == fields_view(fields@),
    decreases *fields,
{
    let mut out: Vec<(String, Val)> = Vec::new();
    let mut i: usize = 0;
    assert(fields@.take(0) =~= Seq::<(String, Val)>::empty());
    while i < fields.len()
        invariant
            i <= fields@.len(),
            fields_view(out@) == fields_view(fields@.take(i as int)),
        decreases fields@.len() - i,
    {
        let f: &(String, Val) = &fields[i];
        proof {
            assert(decreases_to!(*fields => fields@));
            assert(decreases_to!(fields@ => fields@[i as int]));
            assert(decreases_to!(*f => f.1));
        }
        let ghost before = out@;
        out.push((f.0.clone(), copy_val(&f.1)));
        proof {
            assert(out@.drop_last() =~= before);
            assert(fields@.take(i + 1).drop_last() =~= fields@.take(i as int));
        }
        i = i + 1;
    }
    assert(fields@.take(i as int) =~= fields@);
    out
}

/// A copy of a list of items.
fn copy_items(items: &Vec<Val>) -> (c: Vec<Val>)
    ensures
        items_view(c@) == items_view(items@),
    decreases *items,
{
    let mut out: Vec<Val> = Vec::new();
    let mut i: usize = 0;
    assert(items@.take(0) =~= Seq::<Val>::empty());
    while i < items.len()
        invariant
            i <= items@.len(),
            items_view(out@) == items_view(items@.take(i as int)),
        decreases items@.len() - i,
    {
        proof {
            assert(decreases_to!(*items => items@));
            assert(decreases_to!(items@ => items@[i as int]));
        }
        let ghost before = out@;
        out.push(copy_val(&items[i]));
        proof {
            assert(out@.drop_last() =~= before);
            assert(items@.take(i + 1).drop_last() =~= items@.take(i as int));
        }
        i = i + 1;
    }
    assert(items@.take(i as int) =~= items@);
    out
}

impl Clone for Val {
    fn clone(&self) -> (c: Self)
        ensures
            c@ == self@,
    {
        copy_val(self)
    }
}

/// AMF0 type marker for an IEEE-754 double.
pub const TYPE_NUMBER: u8 = 0x00;

/// AMF0 type marker for a boolean.
pub const TYPE_BOOLEAN: u8 = 0x01;

/// AMF0 type marker for a UTF-8 string.
pub const TYPE_STRING: u8 = 0x02;

/// AMF0 type marker for an anonymous object.
pub const TYPE_OBJECT: u8 = 0x03;

/// AMF0 type marker for null.
pub const TYPE_NULL: u8 = 0x05;

/// AMF0 type marker for undefined.
pub const TYPE_UNDEFINED: u8 = 0x06;

/// AMF0 type marker for an ECMA (associative) array.
pub const TYPE_ECMA_ARRAY: u8 = 0x08;

/// AMF0 marker terminating an object's field list.
pub const TYPE_OBJECT_END: u8 = 0x09;

/// A field value inside an AMF0 object.
///
/// `non_exhaustive`: new field types may be added in a minor release; matches
/// must keep a wildcard arm.
#[derive(Debug, Clone, Copy)]
#[non_exhaustive]
pub enum ObjVal<'a> {
    /// IEEE-754 double field, by its bit pattern.
    Num(u64),
    /// Boolean field.
    Bool(bool),
    /// Borrowed UTF-8 string field.
    Str(&'a str),
}

/// What an [`ObjVal`] says; it is always a number, a boolean or a string.
pub open spec fn field_value(v: ObjVal<'_>) -> ValView {
    match v {
        ObjVal::Num(n) => ValView::Number(n),
        ObjVal::Bool(b) => ValView::Boolean(b),
        ObjVal::Str(s) => ValView::String(s@),
    }
}

/// The names and values of a list of object fields.
pub open spec fn object_fields(entries: Seq<(&str, ObjVal<'_>)>) -> Seq<(Seq<char>, ValView)> {
    entries.map_values(|e: (&str, ObjVal<'_>)| (e.0@, field_value(e.1)))
}

/// The names and values of a list of numbered entries.
pub open spec fn number_fields(entries: Seq<(&str, u64)>) -> Seq<(Seq<char>, ValView)> {
    entries.map_values(|e: (&str, u64)| (e.0@, ValView::Number(e.1)))
}

/// Eight big-endian bytes.
pub open spec fn be64(x: int) -> Seq<u8> {
    be32(x / 0x1_0000_0000) + be32(x % 0x1_0000_0000)
}

/// The number whose big-endian form is the first eight bytes of `s`.
pub open spec fn from_be64(s: Seq<u8>) -> int {
    from_be32(s) * 0x1_0000_0000 + from_be32(s.skip(4))
}

/// Text in UTF-8 behind its length in two bytes.
pub open spec fn text_bytes(s: Seq<char>) -> Seq<u8> {
    be16(encode_utf8(s).len() as int) + encode_utf8(s)
}

/// The wire form of a number, a boolean, a string, or null.
pub open spec fn scalar_bytes(v: ValView) -> Seq<u8> {
    match v {
        ValView::Number(n) => seq![TYPE_NUMBER] + be64(n as int),
        ValView::Boolean(b) => seq![
            TYPE_BOOLEAN,
            if b {
                1u8
            } else {
                0u8
            },
        ],
        ValView::String(s) => seq![TYPE_STRING] + text_bytes(s),
        _ => seq![TYPE_NULL],
    }
}

/// The wire form of a list of fields: each name, then its value.
pub open spec fn fields_bytes(fields: Seq<(Seq<char>, ValView)>) -> Seq<u8>
    decreases fields.len(),
{
    if fields.len() == 0 {
        Seq::empty()
    } else {
        text_bytes(fields.first().0) + scalar_bytes(fields.first().1) + fields_bytes(
            fields.drop_first(),
        )
    }
}

/// What ends a list of fields.
pub open spec fn fields_end() -> Seq<u8> {
    seq![0u8, 0u8, TYPE_OBJECT_END]
}

/// The wire form of an object.
pub open spec fn object_bytes(fields: Seq<(Seq<char>, ValView)>) -> Seq<u8> {
    seq![TYPE_OBJECT] + fields_bytes(fields) + fields_end()
}

/// The wire form of an ECMA array.
pub open spec fn ecma_array_bytes(fields: Seq<(Seq<char>, ValView)>) -> Seq<u8> {
    seq![TYPE_ECMA_ARRAY] + be32(fields.len() as int) + fields_bytes(fields) + fields_end()
}

proof fn lemma_fields_push(fields: Seq<(Seq<char>, ValView)>, f: (Seq<char>, ValView))
    ensures
        fields_bytes(fields.push(f)) == fields_bytes(fields) + text_bytes(f.0) + scalar_bytes(f.1),
    decreases fields.len(),
{
    let more = fields.push(f);
    let name = text_bytes(f.0);
    let value = scalar_bytes(f.1);
    if fields.len() == 0 {
        assert(fields_bytes(more.drop_first()) == Seq::<u8>::empty());
        assert(fields_bytes(more) == name + value + Seq::<u8>::empty());
        assert(fields_bytes(more) =~= fields_bytes(fields) + name + value);
    } else {
        assert(more.first() == fields.first());
        assert(more.drop_first() =~= fields.drop_first().push(f));
        lemma_fields_push(fields.drop_first(), f);
        let head = text_bytes(fields.first().0) + scalar_bytes(fields.first().1);
        let tail = fields_bytes(fields.drop_first());
        assert(fields_bytes(more) == head + (tail + name + value));
        assert(head + (tail + name + value) =~= (head + tail) + name + value);
    }
}

/// Writes AMF0 values into a byte buffer.
pub struct Writer {
    buf: Vec<u8>,
}

impl View for Writer {
    type V = Seq<u8>;

    closed spec fn view(&self) -> Seq<u8> {
        self.buf@
    }
}

impl Default for Writer {
    fn default() -> (w: Self)
        ensures
            w@ == Seq::<u8>::empty(),
    {
        Writer::new()
    }
}

impl Writer {
    /// Create an empty writer.
    pub fn new() -> (w: Self)
        ensures
            w@ == Seq::<u8>::empty(),
    {
        Writer { buf: Vec::new() }
    }

    fn put_number(&mut self, bits: u64)
        ensures
            final(self)@ == old(self)@ + scalar_bytes(ValView::Number(bits)),
    {
        self.buf.push(TYPE_NUMBER);
        assert(self.buf@ =~= old(self)@ + seq![TYPE_NUMBER]);
        bytes::append_be32(&mut self.buf, (bits / 0x1_0000_0000) as u32);
        bytes::append_be32(&mut self.buf, (bits % 0x1_0000_0000) as u32);
        assert(self@ =~= old(self)@ + scalar_bytes(ValView::Number(bits)));
    }

    fn put_boolean(&mut self, b: bool)
        ensures
            final(self)@ == old(self)@ + scalar_bytes(ValView::Boolean(b)),
    {
        self.buf.push(TYPE_BOOLEAN);
        self.buf.push(
            if b {
                1
            } else {
                0
            },
        );
        assert(self@ =~= old(self)@ + scalar_bytes(ValView::Boolean(b)));
    }

    fn put_text(&mut self, s: &str)
        ensures
            final(self)@ == old(self)@ + text_bytes(s@),
    {
        let b: &[u8] = s.as_bytes();
        proof {
            bytes::lemma_be16_low(b@.len() as int);
        }
        bytes::append_be16(&mut self.buf, (b.len() % 0x1_0000) as u16);
        bytes::append(&mut self.buf, b);
        proof {
            bytes::lemma_concat(old(self)@, be16(b@.len() as int), b@);
        }
    }

    fn put_string(&mut self, s: &str)
        ensures
            final(self)@ == old(self)@ + scalar_bytes(ValView::String(s@)),
    {
        self.buf.push(TYPE_STRING);
        assert(self.buf@ =~= old(self)@ + seq![TYPE_STRING]);
        self.put_text(s);
        assert(self@ =~= old(self)@ + scalar_bytes(ValView::String(s@)));
    }

    fn put_end(&mut self)
        ensures
            final(self)@ == old(self)@ + fields_end(),
    {
        self.buf.push(0);
        self.buf.push(0);
        self.buf.push(TYPE_OBJECT_END);
        assert(self@ =~= old(self)@ + fields_end());
    }

    /// Append an IEEE-754 double, given by its bit pattern.
    pub fn number(&mut self, bits: u64) -> (w: &mut Self)
        ensures
            w@ == old(self)@ + scalar_bytes(ValView::Number(bits)),
            *final(self) == *final(w),
    {
        self.put_number(bits);
        self
    }

    /// Append a boolean.
    pub fn boolean(&mut self, b: bool) -> (w: &mut Self)
        ensures
            w@ == old(self)@ + scalar_bytes(ValView::Boolean(b)),
            *final(self) == *final(w),
    {
        self.put_boolean(b);
        self
    }

    /// Append a length-prefixed UTF-8 string.
    pub fn string(&mut self, s: &str) -> (w: &mut Self)
        ensures
            w@ == old(self)@ + scalar_bytes(ValView::String(s@)),
            *final(self) == *final(w),
    {
        self.put_string(s);
        self
    }

    /// Append a null value.
    pub fn null(&mut self) -> (w: &mut Self)
        ensures
            w@ == old(self)@ + scalar_bytes(ValView::Null),
            *final(self) == *final(w),
    {
        self.buf.push(TYPE_NULL);
        assert(self@ =~= old(self)@ + scalar_bytes(ValView::Null));
        self
    }

    /// ECMA array (an associative map). Server-side FLV metadata prefers this
    /// over a plain object.
    pub fn ecma_array(&mut self, entries: &[(&str, u64)]) -> (w: &mut Self)
        ensures
            w@ == old(self)@ + ecma_array_bytes(number_fields(entries@)),
            *final(self) == *final(w),
    {
        let ghost fields = number_fields(entries@);
        self.buf.push(TYPE_ECMA_ARRAY);
        assert(self.buf@ =~= old(self)@ + seq![TYPE_ECMA_ARRAY]);
        proof {
            bytes::lemma_be32_low(entries@.len() as int);
        }
        bytes::append_be32(&mut self.buf, (entries.len() as u64 % 0x1_0000_0000) as u32);
        let ghost head = self@;
        let mut i: usize = 0;
        assert(self@ =~= head + fields_bytes(fields.take(0)));
        while i < entries.len()
            invariant
                i <= entries@.len(),
                fields == number_fields(entries@),
                self@ == head + fields_bytes(fields.take(i as int)),
            decreases entries@.len() - i,
        {
            let ghost f = fields[i as int];
            proof {
                lemma_fields_push(fields.take(i as int), f);
                assert(fields.take(i + 1) =~= fields.take(i as int).push(f));
            }
            self.put_text(entries[i].0);
            self.put_number(entries[i].1);
            assert(self@ =~= head + (fields_bytes(fields.take(i as int)) + text_bytes(f.0)
                + scalar_bytes(f.1)));
            i = i + 1;
        }
        assert(fields.take(i as int) =~= fields);
        self.put_end();
        assert(self@ =~= old(self)@ + ecma_array_bytes(fields));
        self
    }

    /// Object with mixed-typed fields (connect's app/flashVer/etc.).
    pub fn object(&mut self, entries: &[(&str, ObjVal<'_>)]) -> (w: &mut Self)
        ensures
            w@ == old(self)@ + object_bytes(object_fields(entries@)),
            *final(self) == *final(w),
    {
        let ghost fields = object_fields(entries@);
        self.buf.push(TYPE_OBJECT);
        let ghost head = self@;
        assert(head =~= old(self)@ + seq![TYPE_OBJECT]);
        let mut i: usize = 0;
        assert(self@ =~= head + fields_bytes(fields.take(0)));
        while i < entries.len()
            invariant
                i <= entries@.len(),
                fields == object_fields(entries@),
                self@ == head + fields_bytes(fields.take(i as int)),
            decreases entries@.len() - i,
        {
            let ghost f = fields[i as int];
            proof {
                lemma_fields_push(fields.take(i as int), f);
                assert(fields.take(i + 1) =~= fields.take(i as int).push(f));
            }
            self.put_text(entries[i].0);
            match entries[i].1 {
                ObjVal::Num(n) => {
                    self.put_number(n);
                },
                ObjVal::Bool(b) => {
                    self.put_boolean(b);
                },
                ObjVal::Str(s) => {
                    self.put_string(s);
                },
            }
            assert(self@ =~= head + (fields_bytes(fields.take(i as int)) + text_bytes(f.0)
                + scalar_bytes(f.1)));
            i = i + 1;
        }
        assert(fields.take(i as int) =~= fields);
        self.put_end();
        assert(self@ =~= old(self)@ + object_bytes(fields));
        self
    }

    /// A bare string value without a type marker (used inside `@setDataFrame`).
    pub fn raw_string(&mut self, s: &str) -> (w: &mut Self)
        ensures
            w@ == old(self)@ + text_bytes(s@),
            *final(self) == *final(w),
    {
        self.put_text(s);
        self
    }

    /// Consume the writer, returning the encoded bytes.
    pub fn into_bytes(self) -> (b: Vec<u8>)
        ensures
            b@ == self@,
    {
        self.buf
    }
}

/// What `String::from_utf8_lossy` makes of bytes that are not UTF-8.
pub uninterp spec fn repaired_text(b: Seq<u8>) -> Seq<char>;

/// The text in bytes that should be UTF-8; where they are not, what the
/// standard library repairs them to.
pub open spec fn text_of(b: Seq<u8>) -> Seq<char> {
    if valid_utf8(b) {
        decode_utf8(b)
    } else {
        repaired_text(b)
    }
}

/// `String::from_utf8_lossy`: valid UTF-8 is decoded as it is; in other bytes
/// every invalid sequence is replaced by U+FFFD, which is only named here.
#[verifier::external_body]
fn from_utf8_lossy(b: &[u8]) -> (s: String)
    ensures
        s@ == (if valid_utf8(b@) {
            decode_utf8(b@)
        } else {
            repaired_text(b@)
        }),
{
    String::from_utf8_lossy(b).into_owned()
}

/// Text behind its two-byte length, and what follows; on a truncated input no
/// text, and what is left when that shows.
pub open spec fn text_at(d: Seq<u8>) -> (Option<Seq<char>>, Seq<u8>) {
    if d.len() < 2 {
        (None, d)
    } else if d.len() - 2 < from_be16(d) {
        (None, d.skip(2))
    } else {
        (Some(text_of(d.subrange(2, 2 + from_be16(d)))), d.skip(2 + from_be16(d)))
    }
}

/// The value at the front of `d`, and what follows it. No value when `d` is
/// truncated or holds an unknown marker; then what is left when that shows.
pub open spec fn value_at(d: Seq<u8>) -> (Option<ValView>, Seq<u8>)
    decreases d.len(),
{
    if d.len() == 0 {
        (None, d)
    } else {
        let r = d.skip(1);
        if d[0] == TYPE_NUMBER {
            if r.len() < 8 {
                (None, r)
            } else {
                (Some(ValView::Number(from_be64(r) as u64)), r.skip(8))
            }
        } else if d[0] == TYPE_BOOLEAN {
            if r.len() < 1 {
                (None, r)
            } else {
                (Some(ValView::Boolean(r[0] != 0)), r.skip(1))
            }
        } else if d[0] == TYPE_STRING {
            match text_at(r) {
                (Some(s), q) => (Some(ValView::String(s)), q),
                (None, q) => (None, q),
            }
        } else if d[0] == TYPE_OBJECT {
            match fields_at(r, None) {
                (Some(fields), q) => (Some(ValView::Object(fields)), q),
                (None, q) => (None, q),
            }
        } else if d[0] == TYPE_ECMA_ARRAY {
            if r.len() < 4 {
                (None, r.skip(r.len() as int))
            } else {
                match fields_at(r.skip(4), Some(from_be32(r) as nat)) {
                    (Some(fields), q) => (Some(ValView::Object(fields)), q),
                    (None, q) => (None, q),
                }
            }
        } else if d[0] == TYPE_NULL {
            (Some(ValView::Null), r)
        } else if d[0] == TYPE_UNDEFINED {
            (Some(ValView::Undefined), r)
        } else {
            (None, r)
        }
    }
}

/// The fields at the front of `d`, and what follows their end. They end at an
/// empty name with the end marker behind it; when their number is known
/// (`left`), also behind the last of them, where the three bytes of an end
/// are taken unread and the very last of them may be missing.
pub open spec fn fields_at(d: Seq<u8>, left: Option<nat>) -> (
    Option<Seq<(Seq<char>, ValView)>>,
    Seq<u8>,
)
    decreases d.len(),
{
    if d.len() < 2 {
        (None, d)
    } else if left == Some(0nat) {
        (
            Some(Seq::empty()),
            if d.len() >= 3 {
                d.skip(3)
            } else {
                d.skip(2)
            },
        )
    } else {
        let r = d.skip(2);
        let n = from_be16(d);
        if r.len() < n || (n == 0 && r.len() == 0) {
            (None, r)
        } else if n == 0 && r[0] == TYPE_OBJECT_END {
            (Some(Seq::empty()), r.skip(1))
        } else {
            let name = if n == 0 {
                Seq::empty()
            } else {
                text_of(r.take(n))
            };
            match value_at(r.skip(n)) {
                (Some(v), q) => if q.len() < d.len() {
                    match fields_at(
                        q,
                        match left {
                            Some(k) => Some((k - 1) as nat),
                            None => None,
                        },
                    ) {
                        (Some(fields), e) => (Some(seq![(name, v)] + fields), e),
                        (None, e) => (None, e),
                    }
                } else {
                    (None, q)
                },
                (None, q) => (None, q),
            }
        }
    }
}

/// Every value in `d` up to its end or to the first that cannot be read.
pub open spec fn values_at(d: Seq<u8>) -> Seq<ValView>
    decreases d.len(),
{
    match value_at(d) {
        (Some(v), q) => if q.len() < d.len() {
            seq![v] + values_at(q)
        } else {
            Seq::empty()
        },
        (None, q) => Seq::empty(),
    }
}

/// What is left of `d` when every value has been read up to its end or to the
/// first that cannot be read.
pub open spec fn left_at(d: Seq<u8>) -> Seq<u8>
    decreases d.len(),
{
    match value_at(d) {
        (Some(v), q) => if q.len() < d.len() {
            left_at(q)
        } else {
            q
        },
        (None, q) => q,
    }
}

proof fn lemma_value_shrinks(d: Seq<u8>)
    ensures
        value_at(d).1.len() <= d.len(),
        value_at(d).0 is Some ==> value_at(d).1.len() < d.len(),
    decreases d.len(), 0int,
{
    if d.len() > 0 {
        let r = d.skip(1);
        lemma_fields_shrink(r, None);
        if r.len() >= 4 {
            lemma_fields_shrink(r.skip(4), Some(from_be32(r) as nat));
        }
    }
}

proof fn lemma_fields_shrink(d: Seq<u8>, left: Option<nat>)
    ensures
        fields_at(d, left).1.len() <= d.len(),
    decreases d.len(), 1int,
{
    if d.len() >= 2 && left != Some(0nat) {
        let r = d.skip(2);
        let n = from_be16(d);
        if n <= r.len() {
            lemma_value_shrinks(r.skip(n));
            let q = value_at(r.skip(n)).1;
            let next = match left {
                Some(k) => Some((k - 1) as nat),
                None => None,
            };
            lemma_fields_shrink(q, next);
        }
    }
}

/// Streaming decoder over a byte slice.
pub struct Reader<'a> {
    rest: &'a [u8],
}

impl<'a> View for Reader<'a> {
    type V = Seq<u8>;

    closed spec fn view(&self) -> Seq<u8> {
        self.rest@
    }
}

impl<'a> Reader<'a> {
    /// Create a reader over `data`, positioned at the first byte.
    pub fn new(data: &'a [u8]) -> (r: Self)
        ensures
            r@ == data@,
    {
        Reader { rest: data }
    }

    /// Read one byte, or `None` at end of input.
    pub fn read_u8(&mut self) -> (b: Option<u8>)
        ensures
            b == (if old(self)@.len() > 0 {
                Some(old(self)@[0])
            } else {
                None
            }),
            final(self)@ == (if old(self)@.len() > 0 {
                old(self)@.skip(1)
            } else {
                old(self)@
            }),
    {
        if self.rest.len() == 0 {
            return None;
        }
        let b: u8 = self.rest[0];
        self.rest = bytes::skip(self.rest, 1);
        Some(b)
    }

    /// Read a big-endian u16, or `None` if fewer than 2 bytes remain.
    pub fn read_u16(&mut self) -> (x: Option<u16>)
        ensures
            match x {
                Some(v) => old(self)@.len() >= 2 && v == from_be16(old(self)@) && final(self)@
                    == old(self)@.skip(2),
                None => old(self)@.len() < 2 && final(self)@ == old(self)@,
            },
    {
        if self.rest.len() < 2 {
            return None;
        }
        let x: u16 = bytes::read_be16(self.rest, 0);
        assert(self.rest@.skip(0) =~= self.rest@);
        self.rest = bytes::skip(self.rest, 2);
        Some(x)
    }

    /// Read a big-endian IEEE-754 double as its bit pattern, or `None` if
    /// fewer than 8 bytes remain.
    pub fn read_f64(&mut self) -> (x: Option<u64>)
        ensures
            match x {
                Some(v) => old(self)@.len() >= 8 && v == from_be64(old(self)@) && final(self)@
                    == old(self)@.skip(8),
                None => old(self)@.len() < 8 && final(self)@ == old(self)@,
            },
    {
        if self.rest.len() < 8 {
            return None;
        }
        let high: u64 = bytes::read_be32(self.rest, 0) as u64;
        let low: u64 = bytes::read_be32(self.rest, 4) as u64;
        assert(self.rest@.skip(0) =~= self.rest@);
        self.rest = bytes::skip(self.rest, 8);
        Some(high * 0x1_0000_0000 + low)
    }

    /// Read a length-prefixed UTF-8 string, or `None` if truncated.
    pub fn read_utf8(&mut self) -> (s: Option<String>)
        ensures
            match s {
                Some(t) => text_at(old(self)@) == (Some(t@), final(self)@),
                None => text_at(old(self)@) == (None::<Seq<char>>, final(self)@),
            },
    {
        let len: usize = self.read_u16()? as usize;
        if self.rest.len() < len {
            return None;
        }
        let raw: &[u8] = bytes::take(self.rest, len);
        assert(raw@ =~= old(self)@.subrange(2, 2 + len));
        let s: String = from_utf8_lossy(raw);
        self.rest = bytes::skip(self.rest, len);
        assert(self@ =~= old(self)@.skip(2 + len));
        Some(s)
    }

    /// Skip a length-prefixed UTF-8 string (e.g. a command name).
    pub fn skip_utf8(&mut self) -> (done: Option<()>)
        ensures
            done is Some <==> text_at(old(self)@).0 is Some,
            final(self)@ == text_at(old(self)@).1,
    {
        let len: usize = self.read_u16()? as usize;
        if self.rest.len() < len {
            return None;
        }
        self.rest = bytes::skip(self.rest, len);
        assert(self@ =~= old(self)@.skip(2 + len));
        Some(())
    }

    /// Read object / ECMA-array entries. `count` = known entry count (ECMA
    /// arrays) or None to read until the 0x000009 end marker (objects).
    fn read_entries(&mut self, count: Option<u32>) -> (out: Option<Vec<(String, Val)>>)
        ensures
            ({
                let left = match count {
                    Some(c) => Some(c as nat),
                    None => None,
                };
                match out {
                    Some(fields) => fields_at(old(self)@, left) == (
                        Some(fields_view(fields@)),
                        final(self)@,
                    ),
                    None => fields_at(old(self)@, left) == (
                        None::<Seq<(Seq<char>, ValView)>>,
                        final(self)@,
                    ),
                }
            }),
        decreases old(self)@.len(),
    {
        let mut out: Vec<(String, Val)> = Vec::new();
        let mut left: Option<u32> = count;
        let ghost whole = match count {
            Some(c) => Some(c as nat),
            None => None,
        };
        proof {
            if let (Some(fields), q) = fields_at(self@, whole) {
                assert(fields_view(out@) + fields =~= fields);
            }
        }
        loop
            invariant
                self@.len() <= old(self)@.len(),
                whole == (match count {
                    Some(c) => Some(c as nat),
                    None => None,
                }),
                fields_at(old(self)@, whole) == (match fields_at(
                    self@,
                    match left {
                        Some(c) => Some(c as nat),
                        None => None,
                    },
                ) {
                    (Some(fields), q) => (Some(fields_view(out@) + fields), q),
                    (None, q) => (None, q),
                }),
            decreases self@.len(),
        {
            let ghost d = self@;
            let ghost before = out@;
            proof {
                assert(fields_view(out@) + Seq::<(Seq<char>, ValView)>::empty() =~= fields_view(
                    out@,
                ));
                if d.len() >= 2 && from_be16(d) <= d.skip(2).len() {
                    lemma_value_shrinks(d.skip(2).skip(from_be16(d)));
                }
            }
            if left == Some(0u32) {
                // The fields are complete: take the end marker unread.
                let _mark: u16 = self.read_u16()?;
                let _last: Option<u8> = self.read_u8();
                assert(self@ =~= (if d.len() >= 3 {
                    d.skip(3)
                } else {
                    d.skip(2)
                }));
                return Some(out);
            }
            let keylen: usize = self.read_u16()? as usize;
            if self.rest.len() < keylen || (keylen == 0 && self.rest.len() == 0) {
                return None;
            }
            if keylen == 0 && self.rest[0] == TYPE_OBJECT_END {
                self.rest = bytes::skip(self.rest, 1);
                return Some(out);
            }
            let key: String = if keylen == 0 {
                String::new()
            } else {
                from_utf8_lossy(bytes::take(self.rest, keylen))
            };
            self.rest = bytes::skip(self.rest, keylen);
            let v: Val = self.read_value()?;
            let ghost name = key@;
            let ghost value = v@;
            out.push((key, v));
            proof {
                assert(out@.drop_last() =~= before);
                assert(fields_view(out@) == fields_view(before).push((name, value)));
                let next = match left {
                    Some(k) => Some((k - 1) as nat),
                    None => None,
                };
                if let (Some(fields), q) = fields_at(self@, next) {
                    assert(fields_view(before) + (seq![(name, value)] + fields) =~= fields_view(
                        out@,
                    ) + fields);
                }
            }
            left = match left {
                Some(k) => Some(k - 1),
                None => None,
            };
        }
    }

    /// Read one complete AMF0 value, or `None` if the input is truncated or
    /// carries a type marker this minimal codec doesn't understand.
    pub fn read_value(&mut self) -> (v: Option<Val>)
        ensures
            match v {
                Some(x) => value_at(old(self)@) == (Some(x@), final(self)@),
                None => value_at(old(self)@) == (None::<ValView>, final(self)@),
            },
        decreases old(self)@.len(),
    {
        let marker: u8 = self.read_u8()?;
        match marker {
            TYPE_NUMBER => Some(Val::Number(self.read_f64()?)),
            TYPE_BOOLEAN => Some(Val::Boolean(self.read_u8()? != 0)),
            TYPE_STRING => Some(Val::String(self.read_utf8()?)),
            TYPE_OBJECT => Some(Val::Object(self.read_entries(None)?)),
            TYPE_ECMA_ARRAY => {
                if self.rest.len() < 4 {
                    self.rest = bytes::skip(self.rest, self.rest.len());
                    return None;
                }
                let count: u32 = bytes::read_be32(self.rest, 0);
                assert(self.rest@.skip(0) =~= self.rest@);
                self.rest = bytes::skip(self.rest, 4);
                Some(Val::Object(self.read_entries(Some(count))?))
            },
            TYPE_NULL => Some(Val::Null),
            TYPE_UNDEFINED => Some(Val::Undefined),
            _ => None,
        }
    }

    /// Read every remaining value until the input is exhausted or an invalid
    /// marker appears. Never panics, regardless of input.
    pub fn read_all(&mut self) -> (out: Vec<Val>)
        ensures
            items_view(out@) == values_at(old(self)@),
            final(self)@ == left_at(old(self)@),
    {
        let mut out: Vec<Val> = Vec::new();
        assert(items_view(out@) + values_at(self@) =~= values_at(self@));
        loop
            invariant
                items_view(out@) + values_at(self@) == values_at(old(self)@),
                left_at(self@) == left_at(old(self)@),
            decreases self@.len(),
        {
            let ghost d = self@;
            let ghost before = out@;
            proof {
                lemma_value_shrinks(d);
                assert(items_view(out@) + Seq::<ValView>::empty() =~= items_view(out@));
            }
            match self.read_value() {
                Some(v) => {
                    let ghost value = v@;
                    out.push(v);
                    proof {
                        assert(out@.drop_last() =~= before);
                        assert(items_view(before) + (seq![value] + values_at(self@)) =~= items_view(
                            out@,
                        ) + values_at(self@));
                    }
                },
                None => {
                    return out;
                },
            }
        }
    }
}

/// True of the values a [`Writer`] puts into fields and commands: numbers,
/// booleans, null, and strings whose UTF-8 form has a length of sixteen bits.
pub open spec fn is_scalar(v: ValView) -> bool {
    match v {
        ValView::Number(_) => true,
        ValView::Boolean(_) => true,
        ValView::Null => true,
        ValView::String(s) => encode_utf8(s).len() < 0x1_0000,
        _ => false,
    }
}

/// True of a field that an object can hold: a name whose UTF-8 form has a
/// length of sixteen bits, and a number, a boolean or a string.
pub open spec fn is_field(f: (Seq<char>, ValView)) -> bool {
    encode_utf8(f.0).len() < 0x1_0000 && is_scalar(f.1)
}

proof fn lemma_utf8(s: Seq<char>)
    ensures
        text_of(encode_utf8(s)) == s,
        encode_utf8(s).len() == 0 ==> s == Seq::<char>::empty(),
{
    vstd::utf8::encode_utf8_valid_utf8(s);
    vstd::utf8::encode_utf8_decode_utf8(s);
    if encode_utf8(s).len() == 0 {
        assert(decode_utf8(encode_utf8(s)) == Seq::<char>::empty());
    }
}

proof fn lemma_text(s: Seq<char>, rest: Seq<u8>)
    requires
        encode_utf8(s).len() < 0x1_0000,
    ensures
        text_at(text_bytes(s) + rest) == (Some(s), rest),
{
    let b = encode_utf8(s);
    let d = text_bytes(s) + rest;
    bytes::lemma_concat(be16(b.len() as int), b, rest);
    bytes::lemma_front_be16(b.len() as int, b + rest);
    lemma_utf8(s);
    assert(d.subrange(2, 2 + b.len() as int) =~= b);
    assert(d.skip(2 + b.len() as int) =~= rest);
}

proof fn lemma_be64(x: u64, rest: Seq<u8>)
    ensures
        from_be64(be64(x as int) + rest) == x,
        be64(x as int).len() == 8,
{
    let high = be32(x as int / 0x1_0000_0000);
    let low = be32(x as int % 0x1_0000_0000);
    let d = be64(x as int) + rest;
    bytes::lemma_concat(high, low, rest);
    bytes::lemma_front_be32(x as int / 0x1_0000_0000, low + rest);
    assert(d.skip(4) =~= low + rest);
    bytes::lemma_front_be32(x as int % 0x1_0000_0000, rest);
}

/// A number, boolean, string or null reads back as it was written, whatever
/// follows it.
pub proof fn scalars_round_trip(v: ValView, rest: Seq<u8>)
    requires
        is_scalar(v),
    ensures
        value_at(scalar_bytes(v) + rest) == (Some(v), rest),
{
    let d = scalar_bytes(v) + rest;
    match v {
        ValView::Number(n) => {
            lemma_be64(n, rest);
            assert(d.skip(1) =~= be64(n as int) + rest);
            assert(d.skip(1).skip(8) =~= rest);
        },
        ValView::String(s) => {
            lemma_text(s, rest);
            assert(d.skip(1) =~= text_bytes(s) + rest);
        },
        ValView::Boolean(b) => {
            assert(d.skip(1).skip(1) =~= rest);
        },
        _ => {
            assert(d.skip(1) =~= rest);
        },
    }
}

proof fn lemma_field_layout(len: Seq<u8>, b: Seq<u8>, value: Seq<u8>, more: Seq<u8>, end: Seq<u8>)
    ensures
        (((len + b) + value) + more) + end == len + (b + (value + (more + end))),
{
    assert((((len + b) + value) + more) + end =~= len + (b + (value + (more + end))));
}

/// One field in front of others.
proof fn lemma_field_first(
    len: Seq<u8>,
    b: Seq<u8>,
    value: Seq<u8>,
    tail: Seq<u8>,
    v: ValView,
    more: Seq<(Seq<char>, ValView)>,
    rest: Seq<u8>,
    left: Option<nat>,
    next: Option<nat>,
)
    requires
        len.len() == 2,
        from_be16(len + (b + (value + tail))) == b.len(),
        value.len() > 0,
        value[0] != TYPE_OBJECT_END,
        value_at(value + tail) == (Some(v), tail),
        fields_at(tail, next) == (Some(more), rest),
        left != Some(0nat),
        next == (match left {
            Some(k) => Some((k - 1) as nat),
            None => None,
        }),
    ensures
        fields_at(len + (b + (value + tail)), left) == (
            Some(
                seq![
                    (
                        if b.len() == 0 {
                            Seq::empty()
                        } else {
                            text_of(b)
                        },
                        v,
                    ),
                ] + more,
            ),
            rest,
        ),
{
    let d = len + (b + (value + tail));
    let r = d.skip(2);
    assert(r =~= b + (value + tail));
    assert(r.take(b.len() as int) =~= b);
    assert(r.skip(b.len() as int) =~= value + tail);
    if b.len() == 0 {
        assert(r =~= value + tail);
        assert(r[0] == value[0]);
    }
}

/// The end of the fields, and nothing before it.
proof fn lemma_no_fields(rest: Seq<u8>, left: Option<nat>)
    requires
        left == None::<nat> || left == Some(0nat),
    ensures
        fields_at(fields_end() + rest, left) == (
            Some(Seq::<(Seq<char>, ValView)>::empty()),
            rest,
        ),
{
    let d = fields_end() + rest;
    assert(from_be16(d) == 0);
    assert(d.skip(2).skip(1) =~= rest);
    assert(d.skip(3) =~= rest);
}

#[verifier::spinoff_prover]
#[verifier::rlimit(40)]
proof fn lemma_fields_round_trip(
    fields: Seq<(Seq<char>, ValView)>,
    rest: Seq<u8>,
    left: Option<nat>,
)
    requires
        forall|i: int| 0 <= i < fields.len() ==> is_field(#[trigger] fields[i]),
        left == None::<nat> || left == Some(fields.len()),
    ensures
        fields_at(fields_bytes(fields) + (fields_end() + rest), left) == (Some(fields), rest),
    decreases fields.len(),
{
    let end = fields_end() + rest;
    let d = fields_bytes(fields) + end;
    if fields.len() == 0 {
        assert(d =~= end);
        lemma_no_fields(rest, left);
        assert(fields =~= Seq::<(Seq<char>, ValView)>::empty());
    } else {
        let f = fields.first();
        let more = fields.drop_first();
        let b = encode_utf8(f.0);
        let len = be16(b.len() as int);
        let value = scalar_bytes(f.1);
        let tail = fields_bytes(more) + end;
        assert(is_field(fields[0]));
        assert forall|i: int| 0 <= i < more.len() implies is_field(#[trigger] more[i]) by {
            assert(more[i] == fields[i + 1]);
        }
        let next = match left {
            Some(k) => Some((k - 1) as nat),
            None => None,
        };
        lemma_fields_round_trip(more, rest, next);
        scalars_round_trip(f.1, tail);
        lemma_utf8(f.0);
        lemma_field_layout(len, b, value, fields_bytes(more), end);
        bytes::lemma_front_be16(b.len() as int, b + (value + tail));
        lemma_field_first(len, b, value, tail, f.1, more, rest, left, next);
        assert(seq![(f.0, f.1)] + more =~= fields);
    }
}

/// An object reads back as the fields it was written from, whatever follows.
pub proof fn objects_round_trip(fields: Seq<(Seq<char>, ValView)>, rest: Seq<u8>)
    requires
        forall|i: int| 0 <= i < fields.len() ==> is_field(#[trigger] fields[i]),
    ensures
        value_at(object_bytes(fields) + rest) == (Some(ValView::Object(fields)), rest),
{
    let d = object_bytes(fields) + rest;
    lemma_fields_round_trip(fields, rest, None);
    assert(d.skip(1) =~= fields_bytes(fields) + (fields_end() + rest));
}

/// An ECMA array reads back as the fields it was written from, whatever
/// follows, as long as their number fits the four-byte count.
pub proof fn ecma_arrays_round_trip(fields: Seq<(Seq<char>, ValView)>, rest: Seq<u8>)
    requires
        forall|i: int| 0 <= i < fields.len() ==> is_field(#[trigger] fields[i]),
        fields.len() < 0x1_0000_0000,
    ensures
        value_at(ecma_array_bytes(fields) + rest) == (Some(ValView::Object(fields)), rest),
{
    let d = ecma_array_bytes(fields) + rest;
    let count = be32(fields.len() as int);
    let tail = fields_bytes(fields) + (fields_end() + rest);
    lemma_fields_round_trip(fields, rest, Some(fields.len()));
    assert(d.skip(1) =~= count + tail);
    bytes::lemma_front_be32(fields.len() as int, tail);
    assert(d.skip(1).skip(4) =~= tail);
}

} // verus!
