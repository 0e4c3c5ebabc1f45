//! Observability — structured logging, live metrics, and a `QoS` event stream.
//!
//! - **Structured logging**: a [`Logger`] trait plus a [`LogHub`] that holds
//!   the installed logger. The platform installs its own sink (logcat,
//!   `os_log`, a console) and sets the maximum [`Level`]; every log call checks
//!   that filter before doing any work.
//! - **Metrics**: the engine records bytes out, effective throughput, drops,
//!   buffer lag, RTT and reconnect counters; periodic [`QosSample`]s are
//!   computed from deltas between ticks.
//! - **`QoS` event stream**: [`Qos`] keeps a bounded ring of samples. A
//!   [`QosSummary`] turns the retained ring into a queryable report.
//!
//! Rates, ratios, means and round trips are doubles, held as their bit
//! patterns.

use vstd::prelude::*;
use vstd::std_specs::convert::IntoSpec;
use vstd::string::*;

use crate::figures::{
    add_up, added, from_signed, greater, greater_of, ratio, ratio_of, share_out, shared,
    signed_whole,
};
use crate::rounding::INFINITY;

verus! {

/// Longest error string retained in `QoS` state (bounded memory, not a log
/// sink), in characters.
pub const MAX_ERROR_LEN: usize = 512;

// ---------------------------------------------------------------------------
// Structured logging
// ---------------------------------------------------------------------------

/// Severity of a log record, ordered so `Error < Warn < Info < Debug < Trace`.
#[derive(Debug, Clone, Copy, PartialEq, Eq, PartialOrd, Ord, Hash, Structural)]
pub enum Level {
    /// The stream is broken or about to be (connect failed, gave up reconnecting).
    Error,
    /// Something bad but recoverable happened (a drop cut, a clock rebase).
    Warn,
    /// Normal lifecycle transitions (started, reconnected, finished).
    Info,
    /// Diagnostics useful while developing.
    Debug,
    /// Per-message chatter; almost always off in production.
    Trace,
}

/// The conventional lowercase label of a level.
pub open spec fn level_label(level: Level) -> Seq<char> {
    match level {
        Level::Error => "error"@,
        Level::Warn => "warn"@,
        Level::Info => "info"@,
        Level::Debug => "debug"@,
        Level::Trace => "trace"@,
    }
}

/// The rank of a level: 1 for the most severe, 5 for the least.
pub open spec fn level_rank(level: Level) -> u8 {
    match level {
        Level::Error => 1,
        Level::Warn => 2,
        Level::Info => 3,
        Level::Debug => 4,
        Level::Trace => 5,
    }
}

impl Level {
    /// The conventional lowercase label, for log-line formatting.
    pub fn as_str(self) -> (label: &'static str)
        ensures
            label@ == level_label(self),
    {
        match self {
            Level::Error => "error",
            Level::Warn => "warn",
            Level::Info => "info",
            Level::Debug => "debug",
            Level::Trace => "trace",
        }
    }

    /// The rank of the level: 1 for the most severe, 5 for the least.
    pub fn rank(self) -> (rank: u8)
        ensures
            rank == level_rank(self),
    {
        match self {
            Level::Error => 1,
            Level::Warn => 2,
            Level::Info => 3,
            Level::Debug => 4,
            Level::Trace => 5,
        }
    }
}

/// A typed value carried by a [`Field`].
#[derive(Debug, Clone, Copy, PartialEq, Eq)]
pub enum FieldValue<'a> {
    /// Signed integer.
    Int(i64),
    /// Unsigned integer.
    Uint(u64),
    /// Floating point: the bit pattern of a double.
    Float(u64),
    /// Boolean.
    Bool(bool),
    /// Borrowed string.
    Str(&'a str),
}

impl From<i8> for FieldValue<'_> {
    fn from(v: i8) -> Self {
        FieldValue::Int(v as i64)
    }
}

impl vstd::std_specs::convert::FromSpecImpl<i8> for FieldValue<'_> {
    open spec fn obeys_from_spec() -> bool {
        true
    }

    open spec fn from_spec(v: i8) -> Self {
        FieldValue::Int(v as i64)
    }
}

impl From<i16> for FieldValue<'_> {
    fn from(v: i16) -> Self {
        FieldValue::Int(v as i64)
    }
}

impl vstd::std_specs::convert::FromSpecImpl<i16> for FieldValue<'_> {
    open spec fn obeys_from_spec() -> bool {
        true
    }

    open spec fn from_spec(v: i16) -> Self {
        FieldValue::Int(v as i64)
    }
}

impl From<i32> for FieldValue<'_> {
    fn from(v: i32) -> Self {
        FieldValue::Int(v as i64)
    }
}

impl vstd::std_specs::convert::FromSpecImpl<i32> for FieldValue<'_> {
    open spec fn obeys_from_spec() -> bool {
        true
    }

    open spec fn from_spec(v: i32) -> Self {
        FieldValue::Int(v as i64)
    }
}

impl From<i64> for FieldValue<'_> {
    fn from(v: i64) -> Self {
        FieldValue::Int(v)
    }
}

impl vstd::std_specs::convert::FromSpecImpl<i64> for FieldValue<'_> {
    open spec fn obeys_from_spec() -> bool {
        true
    }

    open spec fn from_spec(v: i64) -> Self {
        FieldValue::Int(v)
    }
}

impl From<isize> for FieldValue<'_> {
    fn from(v: isize) -> Self {
        FieldValue::Int(v as i64)
    }
}

impl vstd::std_specs::convert::FromSpecImpl<isize> for FieldValue<'_> {
    open spec fn obeys_from_spec() -> bool {
        true
    }

    open spec fn from_spec(v: isize) -> Self {
        FieldValue::Int(v as i64)
    }
}

impl From<u8> for FieldValue<'_> {
    fn from(v: u8) -> Self {
        FieldValue::Uint(v as u64)
    }
}

impl vstd::std_specs::convert::FromSpecImpl<u8> for FieldValue<'_> {
    open spec fn obeys_from_spec() -> bool {
        true
    }

    open spec fn from_spec(v: u8) -> Self {
        FieldValue::Uint(v as u64)
    }
}

impl From<u16> for FieldValue<'_> {
    fn from(v: u16) -> Self {
        FieldValue::Uint(v as u64)
    }
}

impl vstd::std_specs::convert::FromSpecImpl<u16> for FieldValue<'_> {
    open spec fn obeys_from_spec() -> bool {
        true
    }

    open spec fn from_spec(v: u16) -> Self {
        FieldValue::Uint(v as u64)
    }
}

impl From<u32> for FieldValue<'_> {
    fn from(v: u32) -> Self {
        FieldValue::Uint(v as u64)
    }
}

impl vstd::std_specs::convert::FromSpecImpl<u32> for FieldValue<'_> {
    open spec fn obeys_from_spec() -> bool {
        true
    }

    open spec fn from_spec(v: u32) -> Self {
        FieldValue::Uint(v as u64)
    }
}

impl From<u64> for FieldValue<'_> {
    fn from(v: u64) -> Self {
        FieldValue::Uint(v)
    }
}

impl vstd::std_specs::convert::FromSpecImpl<u64> for FieldValue<'_> {
    open spec fn obeys_from_spec() -> bool {
        true
    }

    open spec fn from_spec(v: u64) -> Self {
        FieldValue::Uint(v)
    }
}

impl From<usize> for FieldValue<'_> {
    fn from(v: usize) -> Self {
        FieldValue::Uint(v as u64)
    }
}

impl vstd::std_specs::convert::FromSpecImpl<usize> for FieldValue<'_> {
    open spec fn obeys_from_spec() -> bool {
        true
    }

    open spec fn from_spec(v: usize) -> Self {
        FieldValue::Uint(v as u64)
    }
}

impl From<bool> for FieldValue<'_> {
    fn from(v: bool) -> Self {
        FieldValue::Bool(v)
    }
}

impl vstd::std_specs::convert::FromSpecImpl<bool> for FieldValue<'_> {
    open spec fn obeys_from_spec() -> bool {
        true
    }

    open spec fn from_spec(v: bool) -> Self {
        FieldValue::Bool(v)
    }
}

impl<'a> From<&'a str> for FieldValue<'a> {
    fn from(v: &'a str) -> Self {
        FieldValue::Str(v)
    }
}

impl<'a> vstd::std_specs::convert::FromSpecImpl<&'a str> for FieldValue<'a> {
    open spec fn obeys_from_spec() -> bool {
        true
    }

    open spec fn from_spec(v: &'a str) -> Self {
        FieldValue::Str(v)
    }
}

impl<'a> From<&'a String> for FieldValue<'a> {
    fn from(v: &'a String) -> (f: Self)
        ensures
            f matches FieldValue::Str(t) && t@ == v@,
    {
        FieldValue::Str(v.as_str())
    }
}

impl<'a> vstd::std_specs::convert::FromSpecImpl<&'a String> for FieldValue<'a> {
    open spec fn obeys_from_spec() -> bool {
        false
    }

    open spec fn from_spec(v: &'a String) -> Self {
        arbitrary()
    }
}

/// One structured key/value pair on a log record.
#[derive(Debug, Clone, Copy)]
pub struct Field<'a> {
    /// Attribute name.
    pub key: &'a str,
    /// Attribute value.
    pub value: FieldValue<'a>,
}

/// Build a [`Field`] from anything `Into<FieldValue>` (ints, bools, `&str`).
pub fn field<'a, V: Into<FieldValue<'a>>>(key: &'a str, value: V) -> (f: Field<'a>)
    ensures
        f.key == key,
        V::obeys_into_spec() ==> f.value == value.into_spec(),
{
    Field { key, value: value.into() }
}

/// A fully-formed log event handed to a [`Logger`].
#[derive(Debug, Clone, Copy)]
pub struct Record<'a> {
    /// Severity.
    pub level: Level,
    /// The module of the emitting code.
    pub module: &'a str,
    /// Human-readable event description.
    pub message: &'a str,
    /// Structured attributes.
    pub fields: &'a [Field<'a>],
}

/// A field's value as a mathematical value.
#[verifier::ext_equal]
pub enum FieldView {
    /// Signed integer.
    Int(i64),
    /// Unsigned integer.
    Uint(u64),
    /// The bit pattern of a double.
    Float(u64),
    /// Boolean.
    Bool(bool),
    /// String.
    Str(Seq<char>),
}

/// A field: its name and its value.
pub open spec fn field_view(f: Field<'_>) -> (Seq<char>, FieldView) {
    (
        f.key@,
        match f.value {
            FieldValue::Int(v) => FieldView::Int(v),
            FieldValue::Uint(v) => FieldView::Uint(v),
            FieldValue::Float(v) => FieldView::Float(v),
            FieldValue::Bool(v) => FieldView::Bool(v),
            FieldValue::Str(v) => FieldView::Str(v@),
        },
    )
}

/// A log event as a mathematical value.
#[verifier::ext_equal]
pub struct RecordView {
    /// Severity.
    pub level: Level,
    /// The module of the emitting code.
    pub module: Seq<char>,
    /// Human-readable event description.
    pub message: Seq<char>,
    /// Structured attributes.
    pub fields: Seq<(Seq<char>, FieldView)>,
}

impl View for Record<'_> {
    type V = RecordView;

    open spec fn view(&self) -> RecordView {
        RecordView {
            level: self.level,
            module: self.module@,
            message: self.message@,
            fields: Seq::new(self.fields@.len(), |i: int| field_view(self.fields@[i])),
        }
    }
}

/// Receives structured log records. Implementations forward to whatever logging
/// system the host platform owns (Android `logcat`, Apple `os_log`, a console).
pub trait Logger: Sized {
    /// Every record so far. Unknown of an implementation that does not say.
    open spec fn logged(&self) -> Seq<RecordView> {
        arbitrary()
    }

    /// Emit one record.
    fn log(&mut self, record: &Record<'_>)
        ensures
            final(self).logged() == old(self).logged().push(record@),
    ;
}

/// Which records are emitted, and where they go. `None` (the default) is a
/// no-op that costs nothing on the emit path.
pub struct LogHub<L: Logger> {
    logger: Option<L>,
    max: Level,
}

/// What a logger has received, if there is one.
pub open spec fn received<L: Logger>(logger: Option<L>) -> Option<Seq<RecordView>> {
    match logger {
        Some(l) => Some(l.logged()),
        None => None,
    }
}

impl<L: Logger> LogHub<L> {
    /// The installed logger.
    pub closed spec fn spec_logger(&self) -> Option<L> {
        self.logger
    }

    /// The highest level that reaches the logger.
    pub closed spec fn spec_max(&self) -> Level {
        self.max
    }

    /// No logger, and everything up to [`Level::Info`].
    pub fn new() -> (h: Self)
        ensures
            h.spec_logger() is None,
            h.spec_max() == Level::Info,
    {
        LogHub { logger: None, max: Level::Info }
    }

    /// Install (or remove) the [`Logger`]; the previous one is handed back.
    pub fn set_logger(&mut self, logger: Option<L>) -> (previous: Option<L>)
        ensures
            previous == old(self).spec_logger(),
            final(self).spec_logger() == logger,
            final(self).spec_max() == old(self).spec_max(),
    {
        let mut previous: Option<L> = logger;
        std::mem::swap(&mut previous, &mut self.logger);
        previous
    }

    /// Set the highest [`Level`] that reaches the logger; the platform controls
    /// this.
    pub fn set_max_level(&mut self, level: Level)
        ensures
            final(self).spec_max() == level,
            final(self).spec_logger() == old(self).spec_logger(),
    {
        self.max = level;
    }

    /// The level currently allowed through the filter.
    pub fn max_level(&self) -> (level: Level)
        ensures
            level == self.spec_max(),
    {
        self.max
    }

    /// True when a record at `level` would reach the logger — cheap, hot-path
    /// safe.
    pub fn enabled(&self, level: Level) -> (enabled: bool)
        ensures
            enabled == (level_rank(level) <= level_rank(self.spec_max())),
    {
        level.rank() <= self.max.rank()
    }

    /// Emit a structured record. No-op when the level is filtered or no logger
    /// is installed.
    pub fn log(&mut self, level: Level, module: &str, message: &str, fields: &[Field<'_>])
        ensures
            final(self).spec_max() == old(self).spec_max(),
            received(final(self).spec_logger()) == match received(old(self).spec_logger()) {
                Some(log) => if level_rank(level) <= level_rank(old(self).spec_max()) {
                    Some(log.push((Record { level, module, message, fields })@))
                } else {
                    Some(log)
                },
                None => None,
            },
    {
        if !self.enabled(level) {
            return ;
        }
        if let Some(logger) = &mut self.logger {
            logger.log(&Record { level, module, message, fields });
        }
    }
}

// ---------------------------------------------------------------------------
// Records that wait to be delivered
// ---------------------------------------------------------------------------

/// A field's value, held by the record itself.
#[derive(Debug, Clone)]
pub enum OwnedValue {
    /// Signed integer.
    Int(i64),
    /// Unsigned integer.
    Uint(u64),
    /// Floating point: the bit pattern of a double.
    Float(u64),
    /// Boolean.
    Bool(bool),
    /// String.
    Str(String),
}

/// A log record that holds its own text.
#[derive(Debug, Clone)]
pub struct Entry {
    /// Severity.
    pub level: Level,
    /// The module of the emitting code.
    pub module: String,
    /// Human-readable event description.
    pub message: String,
    /// Structured attributes.
    pub fields: Vec<(String, OwnedValue)>,
}

/// A field that a record holds: its name and its value.
pub open spec fn owned_view(f: (String, OwnedValue)) -> (Seq<char>, FieldView) {
    (
        f.0@,
        match f.1 {
            OwnedValue::Int(v) => FieldView::Int(v),
            OwnedValue::Uint(v) => FieldView::Uint(v),
            OwnedValue::Float(v) => FieldView::Float(v),
            OwnedValue::Bool(v) => FieldView::Bool(v),
            OwnedValue::Str(v) => FieldView::Str(v@),
        },
    )
}

impl View for Entry {
    type V = RecordView;

    open spec fn view(&self) -> RecordView {
        RecordView {
            level: self.level,
            module: self.module@,
            message: self.message@,
            fields: Seq::new(self.fields@.len(), |i: int| owned_view(self.fields@[i])),
        }
    }
}

/// Some records as mathematical values.
pub open spec fn entry_views(entries: Seq<Entry>) -> Seq<RecordView> {
    entries.map_values(|e: Entry| e@)
}

/// A [`LogBook`] as a mathematical value.
#[verifier::ext_equal]
pub struct BookView {
    /// The highest level that is kept; without one, nothing is.
    pub max: Option<Level>,
    /// The records that wait, in the order in which they came.
    pub records: Seq<RecordView>,
}

impl BookView {
    /// A book in which nothing is kept.
    pub open spec fn closed() -> BookView {
        BookView { max: None, records: Seq::empty() }
    }

    /// True if a record of this level is kept.
    pub open spec fn keeps(self, level: Level) -> bool {
        self.max matches Some(max) && level_rank(level) <= level_rank(max)
    }

    /// The book with one more record, where it is kept.
    pub open spec fn noted(
        self,
        level: Level,
        module: Seq<char>,
        message: Seq<char>,
        fields: Seq<(Seq<char>, FieldView)>,
    ) -> BookView {
        if self.keeps(level) {
            BookView {
                records: self.records.push(RecordView { level, module, message, fields }),
                ..self
            }
        } else {
            self
        }
    }

    /// The book with one more record of a failure, where it is kept.
    pub open spec fn failed(
        self,
        level: Level,
        module: Seq<char>,
        message: Seq<char>,
        error: Seq<char>,
    ) -> BookView {
        self.noted(level, module, message, seq![("error"@, FieldView::Str(error))])
    }

    /// True if `next` is this book with one more record of a failure, whatever
    /// its words, where it is kept.
    pub open spec fn failed_somehow(
        self,
        next: BookView,
        level: Level,
        module: Seq<char>,
        message: Seq<char>,
    ) -> bool {
        exists|error: Seq<char>| next == #[trigger] self.failed(level, module, message, error)
    }

    /// True if `next` is this book with `n` more records of `message`, where
    /// they are kept.
    pub open spec fn repeated(
        self,
        next: BookView,
        level: Level,
        module: Seq<char>,
        message: Seq<char>,
        n: nat,
    ) -> bool {
        &&& self.grown(next)
        &&& next.records.len() == self.records.len() + (if self.keeps(level) {
            n
        } else {
            0
        })
        &&& forall|i: int|
            self.records.len() <= i < next.records.len() ==> (#[trigger] next.records[i]).level
                == level && next.records[i].module == module && next.records[i].message == message
    }

    /// True if `next` is this book with some more records.
    pub open spec fn grown(self, next: BookView) -> bool {
        next.max == self.max && self.records.is_prefix_of(next.records)
    }
}

/// No record more is none.
pub proof fn lemma_none_repeated(
    a: BookView,
    level: Level,
    module: Seq<char>,
    message: Seq<char>,
)
    ensures
        a.repeated(a, level, module, message, 0),
{
    assert(a.records =~= a.records.subrange(0, a.records.len() as int));
}

/// One record of a failure is one record more.
pub proof fn lemma_one_repeated(
    a: BookView,
    level: Level,
    module: Seq<char>,
    message: Seq<char>,
    fields: Seq<(Seq<char>, FieldView)>,
)
    ensures
        a.repeated(a.noted(level, module, message, fields), level, module, message, 1),
{
    let b = a.noted(level, module, message, fields);
    assert(a.records =~= b.records.subrange(0, a.records.len() as int));
}

/// Some records more, and some more behind them.
pub proof fn lemma_repeated(
    a: BookView,
    b: BookView,
    c: BookView,
    level: Level,
    module: Seq<char>,
    message: Seq<char>,
    m: nat,
    n: nat,
)
    requires
        a.repeated(b, level, module, message, m),
        b.repeated(c, level, module, message, n),
    ensures
        a.repeated(c, level, module, message, m + n),
{
    assert forall|i: int| 0 <= i < a.records.len() implies a.records[i] == c.records[i] by {
        assert(b.records[i] == a.records[i]);
        assert(c.records[i] == b.records[i]);
    }
    assert(a.records =~= c.records.subrange(0, a.records.len() as int));
    assert forall|i: int| a.records.len() <= i < c.records.len() implies (
    #[trigger] c.records[i]).level == level && c.records[i].module == module
        && c.records[i].message == message by {
        if i < b.records.len() {
            assert(c.records[i] == b.records[i]);
        }
    }
}

/// Log records that wait to be delivered to a [`LogHub`]. The part of the
/// library that emits them cannot reach the host's logger; the host takes them
/// and delivers them. Nothing is kept, and nothing costs anything, until a level
/// is set.
#[derive(Debug)]
pub struct LogBook {
    max: Option<Level>,
    entries: Vec<Entry>,
}

impl View for LogBook {
    type V = BookView;

    closed spec fn view(&self) -> BookView {
        BookView { max: self.max, records: entry_views(self.entries@) }
    }
}

impl LogBook {
    /// A book in which nothing is kept.
    pub fn new() -> (b: Self)
        ensures
            b@ == BookView::closed(),
    {
        let b = LogBook { max: None, entries: Vec::new() };
        assert(b@.records =~= Seq::<RecordView>::empty());
        b
    }

    /// Set the highest [`Level`] that is kept; `None` keeps nothing.
    pub fn set_level(&mut self, max: Option<Level>)
        ensures
            final(self)@ == (BookView { max, ..old(self)@ }),
    {
        self.max = max;
    }

    /// The records so far, in the order in which they came.
    pub fn take(&mut self) -> (entries: Vec<Entry>)
        ensures
            entry_views(entries@) == old(self)@.records,
            final(self)@ == (BookView { records: Seq::empty(), ..old(self)@ }),
    {
        let mut entries: Vec<Entry> = Vec::new();
        std::mem::swap(&mut entries, &mut self.entries);
        assert(self@.records =~= Seq::<RecordView>::empty());
        entries
    }

    /// Keep one record, if its level is kept.
    pub fn note(&mut self, level: Level, module: &str, message: &str, fields: &[Field<'_>])
        ensures
            final(self)@ == old(self)@.noted(
                level,
                module@,
                message@,
                (Record { level, module, message, fields })@.fields,
            ),
    {
        let kept: bool = match self.max {
            Some(max) => level.rank() <= max.rank(),
            None => false,
        };
        if kept {
            let entry = Entry {
                level,
                module: module.to_owned(),
                message: message.to_owned(),
                fields: owned_fields(fields),
            };
            let ghost before = self.entries@;
            self.entries.push(entry);
            assert(entry_views(self.entries@) =~= entry_views(before).push(entry@));
        }
    }

    /// Keep one record without attributes, if its level is kept.
    pub fn mark(&mut self, level: Level, module: &str, message: &str)
        ensures
            final(self)@ == old(self)@.noted(level, module@, message@, Seq::empty()),
    {
        let fields: [Field<'_>; 0] = [];
        let list: &[Field<'_>] = fields.as_slice();
        assert((Record { level, module, message, fields: list })@.fields =~= Seq::empty());
        self.note(level, module, message, list);
    }

    /// Keep one record of a failure, if its level is kept.
    pub fn fail(&mut self, level: Level, module: &str, message: &str, error: &str)
        ensures
            final(self)@ == old(self)@.failed(level, module@, message@, error@),
    {
        let fields: [Field<'_>; 1] = [Field { key: "error", value: FieldValue::Str(error) }];
        let list: &[Field<'_>] = fields.as_slice();
        assert((Record { level, module, message, fields: list })@.fields =~= seq![
            ("error"@, FieldView::Str(error@)),
        ]);
        self.note(level, module, message, list);
    }
}

/// Fields that hold their own text.
fn owned_fields(fields: &[Field<'_>]) -> (owned: Vec<(String, OwnedValue)>)
    ensures
        Seq::new(owned@.len(), |i: int| owned_view(owned@[i])) == Seq::new(
            fields@.len(),
            |i: int| field_view(fields@[i]),
        ),
{
    let mut owned: Vec<(String, OwnedValue)> = Vec::new();
    let mut i: usize = 0;
    while i < fields.len()
        invariant
            i <= fields@.len(),
            owned@.len() == i,
            forall|k: int| 0 <= k < i ==> owned_view(#[trigger] owned@[k]) == field_view(fields@[k]),
        decreases fields@.len() - i,
    {
        let value: OwnedValue = match fields[i].value {
            FieldValue::Int(v) => OwnedValue::Int(v),
            FieldValue::Uint(v) => OwnedValue::Uint(v),
            FieldValue::Float(v) => OwnedValue::Float(v),
            FieldValue::Bool(v) => OwnedValue::Bool(v),
            FieldValue::Str(v) => OwnedValue::Str(v.to_owned()),
        };
        owned.push((fields[i].key.to_owned(), value));
        i = i + 1;
    }
    owned
}

/// Fields that borrow the text of others.
fn borrowed_fields(fields: &Vec<(String, OwnedValue)>) -> (borrowed: Vec<Field<'_>>)
    ensures
        Seq::new(borrowed@.len(), |i: int| field_view(borrowed@[i])) == Seq::new(
            fields@.len(),
            |i: int| owned_view(fields@[i]),
        ),
{
    let mut borrowed: Vec<Field<'_>> = Vec::new();
    let mut i: usize = 0;
    while i < fields.len()
        invariant
            i <= fields@.len(),
            borrowed@.len() == i,
            forall|k: int|
                0 <= k < i ==> field_view(#[trigger] borrowed@[k]) == owned_view(fields@[k]),
        decreases fields@.len() - i,
    {
        let value: FieldValue<'_> = match &fields[i].1 {
            OwnedValue::Int(v) => FieldValue::Int(*v),
            OwnedValue::Uint(v) => FieldValue::Uint(*v),
            OwnedValue::Float(v) => FieldValue::Float(*v),
            OwnedValue::Bool(v) => FieldValue::Bool(*v),
            OwnedValue::Str(v) => FieldValue::Str(v.as_str()),
        };
        borrowed.push(Field { key: fields[i].0.as_str(), value });
        i = i + 1;
    }
    borrowed
}

/// The records among these that a hub with this highest level passes on.
pub open spec fn passed_on(records: Seq<RecordView>, max: Level) -> Seq<RecordView>
    decreases records.len(),
{
    if records.len() == 0 {
        Seq::empty()
    } else if level_rank(records.last().level) <= level_rank(max) {
        passed_on(records.drop_last(), max).push(records.last())
    } else {
        passed_on(records.drop_last(), max)
    }
}

impl<L: Logger> LogHub<L> {
    /// Emit records that were taken from a [`LogBook`], in order.
    pub fn deliver(&mut self, entries: &Vec<Entry>)
        ensures
            final(self).spec_max() == old(self).spec_max(),
            received(final(self).spec_logger()) == match received(old(self).spec_logger()) {
                Some(log) => Some(
                    log + passed_on(entry_views(entries@), old(self).spec_max()),
                ),
                None => None,
            },
    {
        let ghost all = entry_views(entries@);
        let ghost max = self.spec_max();
        let ghost start = received(self.spec_logger());
        let mut i: usize = 0;
        proof {
            assert(all.take(0) =~= Seq::<RecordView>::empty());
            if start is Some {
                assert(start->0 + passed_on(all.take(0), max) =~= start->0);
            }
        }
        while i < entries.len()
            invariant
                i <= entries@.len(),
                all == entry_views(entries@),
                self.spec_max() == max,
                received(self.spec_logger()) == match start {
                    Some(log) => Some(log + passed_on(all.take(i as int), max)),
                    None => None,
                },
            decreases entries@.len() - i,
        {
            let e: &Entry = &entries[i];
            let fields: Vec<Field<'_>> = borrowed_fields(&e.fields);
            let module: &str = e.module.as_str();
            let message: &str = e.message.as_str();
            let list: &[Field<'_>] = fields.as_slice();
            assert((Record { level: e.level, module, message, fields: list })@ =~= e@);
            self.log(e.level, module, message, list);
            proof {
                assert(all[i as int] == entries@[i as int]@);
                assert(all.take(i + 1).drop_last() =~= all.take(i as int));
                assert(all.take(i + 1).last() == all[i as int]);
                if start is Some {
                    let log = start->0;
                    let before = passed_on(all.take(i as int), max);
                    assert((log + before).push(all[i as int]) =~= log + before.push(all[i as int]));
                }
            }
            i = i + 1;
        }
        assert(all.take(all.len() as int) =~= all);
    }
}

// ---------------------------------------------------------------------------
// Metrics & QoS
// ---------------------------------------------------------------------------

/// Telemetry collection knobs.
#[derive(Debug, Clone, Copy, PartialEq, Eq, Structural)]
pub struct QosConfig {
    /// How often the engine emits a [`QosSample`] while streaming, in
    /// nanoseconds.
    pub interval: u64,
    /// Ring capacity in samples; the collector keeps the most recent ones.
    pub capacity: usize,
}

impl Default for QosConfig {
    fn default() -> (c: Self)
        ensures
            c == (QosConfig { interval: 1_000_000_000, capacity: 4096 }),
    {
        // One sample per second covers a 1-hour stream with headroom in the
        // default 4096-slot ring.
        QosConfig { interval: 1_000_000_000, capacity: 4096 }
    }
}

/// One periodic snapshot of stream health. Rates are measured between the
/// previous sample and this one; counters are cumulative since creation.
#[derive(Debug)]
pub struct QosSample {
    /// Wall-clock milliseconds at sample time (Unix epoch).
    pub wall_ms: u64,
    /// Milliseconds since the engine (and its clock) was created.
    pub uptime_ms: u64,
    /// Media bitrate out in bits/s (FLV bytes handed to the transport), the bit
    /// pattern of a double.
    pub bitrate_out_bps: u64,
    /// Effective wire throughput in bits/s, transport framing included, the bit
    /// pattern of a double.
    pub throughput_bps: u64,
    /// Cumulative drop ratio (dropped / pushed), the bit pattern of a double.
    pub drop_ratio: u64,
    /// Current buffer lag in ms (newest buffered PTS vs the live edge).
    pub buffer_ms: i64,
    /// Packets currently sitting in the backpressure buffer.
    pub buffered_count: usize,
    /// Latest measured round-trip time to the peer in ms, when the transport
    /// reports it; the bit pattern of a double.
    pub rtt_ms: Option<u64>,
    /// Successful reconnects since creation.
    pub reconnects: u64,
    /// Failed reconnect attempts since creation.
    pub reconnect_attempts: u64,
    /// Packets accepted from the platform since creation.
    pub pushed: u64,
    /// Packets muxed to the transport since creation.
    pub muxed: u64,
    /// Packets dropped since creation.
    pub dropped: u64,
    /// Description of the most recent failure, if any.
    pub last_error: Option<String>,
}

/// A sample as a mathematical value.
#[verifier::ext_equal]
pub struct SampleView {
    /// Wall-clock milliseconds.
    pub wall_ms: u64,
    /// Milliseconds since creation.
    pub uptime_ms: u64,
    /// Media bitrate.
    pub bitrate_out_bps: u64,
    /// Wire throughput.
    pub throughput_bps: u64,
    /// Drop ratio.
    pub drop_ratio: u64,
    /// Buffer lag.
    pub buffer_ms: i64,
    /// Packets in the buffer.
    pub buffered_count: usize,
    /// Round-trip time.
    pub rtt_ms: Option<u64>,
    /// Successful reconnects.
    pub reconnects: u64,
    /// Failed reconnect attempts.
    pub reconnect_attempts: u64,
    /// Packets accepted.
    pub pushed: u64,
    /// Packets muxed.
    pub muxed: u64,
    /// Packets dropped.
    pub dropped: u64,
    /// The most recent failure.
    pub last_error: Option<Seq<char>>,
}

/// The contents of an optional string.
pub open spec fn opt_text(s: Option<String>) -> Option<Seq<char>> {
    match s {
        Some(t) => Some(t@),
        None => None,
    }
}

/// A copy of an optional string.
pub fn copy_text(s: &Option<String>) -> (c: Option<String>)
    ensures
        opt_text(c) == opt_text(*s),
{
    match s {
        Some(t) => Some(t.clone()),
        None => None,
    }
}

impl View for QosSample {
    type V = SampleView;

    open spec fn view(&self) -> SampleView {
        SampleView {
            wall_ms: self.wall_ms,
            uptime_ms: self.uptime_ms,
            bitrate_out_bps: self.bitrate_out_bps,
            throughput_bps: self.throughput_bps,
            drop_ratio: self.drop_ratio,
            buffer_ms: self.buffer_ms,
            buffered_count: self.buffered_count,
            rtt_ms: self.rtt_ms,
            reconnects: self.reconnects,
            reconnect_attempts: self.reconnect_attempts,
            pushed: self.pushed,
            muxed: self.muxed,
            dropped: self.dropped,
            last_error: opt_text(self.last_error),
        }
    }
}

impl Clone for QosSample {
    fn clone(&self) -> (c: Self)
        ensures
            c@ == self@,
    {
        QosSample {
            wall_ms: self.wall_ms,
            uptime_ms: self.uptime_ms,
            bitrate_out_bps: self.bitrate_out_bps,
            throughput_bps: self.throughput_bps,
            drop_ratio: self.drop_ratio,
            buffer_ms: self.buffer_ms,
            buffered_count: self.buffered_count,
            rtt_ms: self.rtt_ms,
            reconnects: self.reconnects,
            reconnect_attempts: self.reconnect_attempts,
            pushed: self.pushed,
            muxed: self.muxed,
            dropped: self.dropped,
            last_error: copy_text(&self.last_error),
        }
    }
}

impl Default for QosSample {
    fn default() -> (s: Self)
        ensures
            s@ == (SampleView {
                wall_ms: 0,
                uptime_ms: 0,
                bitrate_out_bps: 0,
                throughput_bps: 0,
                drop_ratio: 0,
                buffer_ms: 0,
                buffered_count: 0,
                rtt_ms: None,
                reconnects: 0,
                reconnect_attempts: 0,
                pushed: 0,
                muxed: 0,
                dropped: 0,
                last_error: None,
            }),
    {
        QosSample {
            wall_ms: 0,
            uptime_ms: 0,
            bitrate_out_bps: 0,
            throughput_bps: 0,
            drop_ratio: 0,
            buffer_ms: 0,
            buffered_count: 0,
            rtt_ms: None,
            reconnects: 0,
            reconnect_attempts: 0,
            pushed: 0,
            muxed: 0,
            dropped: 0,
            last_error: None,
        }
    }
}

/// A discrete lifecycle event, delivered to the event sink as it happens.
#[derive(Debug, PartialEq, Eq)]
pub enum QosEvent {
    /// The session connected for the first time.
    Started,
    /// A transport is attached and streaming (also after each reconnect).
    Connected,
    /// The current transport died; reconnection begins.
    Disconnected {
        /// Why it died.
        error: Option<String>,
    },
    /// One reconnect attempt failed.
    ReconnectAttempt {
        /// Which attempt in the current backoff run.
        attempt: u32,
        /// Why the dial failed.
        error: Option<String>,
    },
    /// A reconnect succeeded.
    Reconnected,
    /// The retry budget ran out.
    GaveUp {
        /// Attempts made before giving up.
        attempts: u32,
        /// Description of the final failure.
        error: Option<String>,
    },
    /// The stream ended cleanly.
    Finished,
}

/// A lifecycle event as a mathematical value.
#[verifier::ext_equal]
pub enum EventView {
    /// The session connected for the first time.
    Started,
    /// A transport is attached and streaming.
    Connected,
    /// The transport died, for this reason.
    Disconnected(Option<Seq<char>>),
    /// This reconnect attempt failed, for this reason.
    ReconnectAttempt(u32, Option<Seq<char>>),
    /// A reconnect succeeded.
    Reconnected,
    /// The retry budget ran out behind this many attempts, the last of which
    /// failed for this reason.
    GaveUp(u32, Option<Seq<char>>),
    /// The stream ended cleanly.
    Finished,
}

impl View for QosEvent {
    type V = EventView;

    open spec fn view(&self) -> EventView {
        match self {
            QosEvent::Started => EventView::Started,
            QosEvent::Connected => EventView::Connected,
            QosEvent::Disconnected { error } => EventView::Disconnected(opt_text(*error)),
            QosEvent::ReconnectAttempt { attempt, error } => EventView::ReconnectAttempt(
                *attempt,
                opt_text(*error),
            ),
            QosEvent::Reconnected => EventView::Reconnected,
            QosEvent::GaveUp { attempts, error } => EventView::GaveUp(*attempts, opt_text(*error)),
            QosEvent::Finished => EventView::Finished,
        }
    }
}

impl Clone for QosEvent {
    fn clone(&self) -> (c: Self)
        ensures
            c@ == self@,
    {
        match self {
            QosEvent::Started => QosEvent::Started,
            QosEvent::Connected => QosEvent::Connected,
            QosEvent::Disconnected { error } => QosEvent::Disconnected { error: copy_text(error) },
            QosEvent::ReconnectAttempt { attempt, error } => QosEvent::ReconnectAttempt {
                attempt: *attempt,
                error: copy_text(error),
            },
            QosEvent::Reconnected => QosEvent::Reconnected,
            QosEvent::GaveUp { attempts, error } => QosEvent::GaveUp {
                attempts: *attempts,
                error: copy_text(error),
            },
            QosEvent::Finished => QosEvent::Finished,
        }
    }
}

/// What an event says went wrong.
pub open spec fn event_error(event: EventView) -> Option<Seq<char>> {
    match event {
        EventView::Disconnected(error) => error,
        EventView::ReconnectAttempt(attempt, error) => error,
        EventView::GaveUp(attempts, error) => error,
        _ => None,
    }
}

/// The events in a list.
pub open spec fn event_views(s: Seq<QosEvent>) -> Seq<EventView> {
    s.map_values(|e: QosEvent| e@)
}

/// Queryable summary derived from the retained [`QosSample`] ring. Where a figure
/// is not a count it is the bit pattern of a double.
#[derive(Debug, Clone, PartialEq, Eq)]
pub struct QosSummary {
    /// How many samples the summary is based on.
    pub samples: usize,
    /// Wall time spanned by the retained samples, seconds.
    pub span_secs: u64,
    /// Mean media bitrate out, bits/s.
    pub avg_bitrate_out_bps: u64,
    /// Peak media bitrate out, bits/s.
    pub peak_bitrate_out_bps: u64,
    /// Mean effective wire throughput, bits/s.
    pub avg_throughput_bps: u64,
    /// Peak effective wire throughput, bits/s.
    pub peak_throughput_bps: u64,
    /// Mean buffer lag, ms.
    pub avg_buffer_ms: u64,
    /// Worst buffer lag, ms.
    pub max_buffer_ms: i64,
    /// Cumulative drop ratio (dropped / pushed).
    pub drop_ratio: u64,
    /// Mean measured RTT in ms, when the transport reports it.
    pub avg_rtt_ms: Option<u64>,
    /// Worst measured RTT in ms.
    pub max_rtt_ms: Option<u64>,
    /// Successful reconnects since creation.
    pub reconnects: u64,
    /// Failed reconnect attempts since creation.
    pub reconnect_attempts: u64,
    /// Packets pushed since creation.
    pub pushed: u64,
    /// Packets muxed since creation.
    pub muxed: u64,
    /// Packets dropped since creation.
    pub dropped: u64,
    /// Most recent failure description, if any.
    pub last_error: Option<String>,
}

/// The sum of `f` over the samples, the oldest first.
pub open spec fn summed(s: Seq<SampleView>, f: spec_fn(SampleView) -> u64) -> u64
    decreases s.len(),
{
    if s.len() == 0 {
        0
    } else {
        added(summed(s.drop_last(), f), f(s.last()))
    }
}

/// The largest value of `f` over the samples, and at least zero.
pub open spec fn highest(s: Seq<SampleView>, f: spec_fn(SampleView) -> u64) -> u64
    decreases s.len(),
{
    if s.len() == 0 {
        0
    } else {
        greater(highest(s.drop_last(), f), f(s.last()))
    }
}

/// The mean of `n` values with this sum; zero where there are none.
pub open spec fn mean_of(sum: u64, n: nat) -> u64 {
    if n == 0 {
        0
    } else {
        shared(sum, n as u64)
    }
}

/// The media bitrate of a sample.
pub open spec fn bitrate_of() -> spec_fn(SampleView) -> u64 {
    |s: SampleView| s.bitrate_out_bps
}

/// The wire throughput of a sample.
pub open spec fn throughput_of() -> spec_fn(SampleView) -> u64 {
    |s: SampleView| s.throughput_bps
}

/// The buffer lag of a sample.
pub open spec fn lag_of() -> spec_fn(SampleView) -> u64 {
    |s: SampleView| signed_whole(s.buffer_ms)
}

/// The round-trip time of a sample that has one.
pub open spec fn rtt_of() -> spec_fn(SampleView) -> u64 {
    |s: SampleView| s.rtt_ms->0
}

/// The samples with a round-trip time.
pub open spec fn timed(s: Seq<SampleView>) -> Seq<SampleView>
    decreases s.len(),
{
    if s.len() == 0 {
        s
    } else if s.last().rtt_ms is Some {
        timed(s.drop_last()).push(s.last())
    } else {
        timed(s.drop_last())
    }
}

/// The worst buffer lag of the samples, and at least zero.
pub open spec fn worst_lag(s: Seq<SampleView>) -> i64
    decreases s.len(),
{
    if s.len() == 0 {
        0
    } else if s.last().buffer_ms > worst_lag(s.drop_last()) {
        s.last().buffer_ms
    } else {
        worst_lag(s.drop_last())
    }
}

/// The milliseconds that the samples span.
pub open spec fn span_of(s: Seq<SampleView>) -> u64 {
    if s.len() >= 2 && s.last().uptime_ms > s.first().uptime_ms {
        (s.last().uptime_ms - s.first().uptime_ms) as u64
    } else {
        0
    }
}

/// True if `q` summarises these samples.
pub open spec fn summarises(q: QosSummary, s: Seq<SampleView>) -> bool {
    &&& q.samples == s.len()
    &&& q.span_secs == ratio(span_of(s), 1000)
    &&& q.avg_bitrate_out_bps == mean_of(summed(s, bitrate_of()), s.len())
    &&& q.peak_bitrate_out_bps == highest(s, bitrate_of())
    &&& q.avg_throughput_bps == mean_of(summed(s, throughput_of()), s.len())
    &&& q.peak_throughput_bps == highest(s, throughput_of())
    &&& q.avg_buffer_ms == mean_of(summed(s, lag_of()), s.len())
    &&& q.max_buffer_ms == worst_lag(s)
    &&& if timed(s).len() > 0 {
        &&& q.avg_rtt_ms == Some(mean_of(summed(timed(s), rtt_of()), timed(s).len()))
        &&& q.max_rtt_ms == Some(highest(timed(s), rtt_of()))
    } else {
        q.avg_rtt_ms is None && q.max_rtt_ms is None
    }
    &&& q.drop_ratio == if s.len() > 0 {
        s.last().drop_ratio
    } else {
        0
    }
    &&& q.pushed == if s.len() > 0 {
        s.last().pushed
    } else {
        0
    }
    &&& q.muxed == if s.len() > 0 {
        s.last().muxed
    } else {
        0
    }
    &&& q.dropped == if s.len() > 0 {
        s.last().dropped
    } else {
        0
    }
}

/// The views of a list of samples.
pub open spec fn sample_views(s: Seq<QosSample>) -> Seq<SampleView> {
    s.map_values(|x: QosSample| x@)
}

/// Bounded ring of [`QosSample`]s. Grows to `capacity` on first use, then wraps
/// in place — steady-state pushes are a copy into an existing slot.
#[derive(Debug)]
pub struct QosRing {
    samples: Vec<QosSample>,
    capacity: usize,
    next: usize,
}

/// The retained samples once one more has come in: the oldest leaves when the
/// ring is full.
pub open spec fn retained(s: Seq<SampleView>, capacity: nat, sample: SampleView) -> Seq<
    SampleView,
> {
    if s.len() < capacity {
        s.push(sample)
    } else {
        s.drop_first().push(sample)
    }
}

impl View for QosRing {
    type V = Seq<SampleView>;

    /// The samples in chronological order, oldest first.
    closed spec fn view(&self) -> Seq<SampleView> {
        let all = sample_views(self.samples@);
        if self.samples@.len() < self.capacity {
            all
        } else {
            all.skip(self.next as int) + all.take(self.next as int)
        }
    }
}

impl QosRing {
    /// Where samples are kept.
    pub closed spec fn wf(&self) -> bool {
        &&& self.capacity >= 1
        &&& self.samples@.len() <= self.capacity
        &&& self.next < self.capacity
        &&& self.samples@.len() < self.capacity ==> self.next == self.samples@.len()
    }

    /// How many samples are kept.
    pub closed spec fn spec_capacity(&self) -> nat {
        self.capacity as nat
    }

    /// An empty ring for `capacity` samples, at least one.
    pub fn new(capacity: usize) -> (r: Self)
        ensures
            r.wf(),
            r@ == Seq::<SampleView>::empty(),
            r.spec_capacity() == if capacity >= 1 {
                capacity as nat
            } else {
                1
            },
    {
        let r = QosRing {
            samples: Vec::new(),
            capacity: if capacity >= 1 {
                capacity
            } else {
                1
            },
            next: 0,
        };
        assert(r@ =~= Seq::<SampleView>::empty());
        r
    }

    /// Append a sample; the oldest leaves when the ring is full.
    pub fn push(&mut self, sample: QosSample)
        requires
            old(self).wf(),
        ensures
            final(self).wf(),
            final(self)@ == retained(old(self)@, old(self).spec_capacity(), sample@),
            final(self).spec_capacity() == old(self).spec_capacity(),
    {
        let filled: usize = self.samples.len();
        let ghost seen = sample@;
        if filled < self.capacity {
            self.samples.push(sample);
            self.next = if filled + 1 == self.capacity {
                0
            } else {
                filled + 1
            };
        } else {
            let at: usize = self.next;
            self.samples.set(at, sample);
            self.next = if at + 1 == self.capacity {
                0
            } else {
                at + 1
            };
        }
        assert(self@ =~= retained(old(self)@, old(self).spec_capacity(), seen));
    }

    /// How many samples are kept at present.
    pub fn len(&self) -> (n: usize)
        requires
            self.wf(),
        ensures
            n == self@.len(),
    {
        self.samples.len()
    }

    /// True when no samples are kept.
    pub fn is_empty(&self) -> (empty: bool)
        requires
            self.wf(),
        ensures
            empty == (self@.len() == 0),
    {
        self.samples.len() == 0
    }

    /// Forget every sample.
    pub fn clear(&mut self)
        requires
            old(self).wf(),
        ensures
            final(self).wf(),
            final(self)@ == Seq::<SampleView>::empty(),
            final(self).spec_capacity() == old(self).spec_capacity(),
    {
        self.samples = Vec::new();
        self.next = 0;
        assert(self@ =~= Seq::<SampleView>::empty());
    }

    /// The `i`-th sample, the oldest being the first.
    pub fn get(&self, i: usize) -> (sample: &QosSample)
        requires
            self.wf(),
            i < self@.len(),
        ensures
            sample@ == self@[i as int],
    {
        if self.samples.len() < self.capacity {
            &self.samples[i]
        } else if i < self.samples.len() - self.next {
            &self.samples[self.next + i]
        } else {
            &self.samples[i - (self.samples.len() - self.next)]
        }
    }

    /// Samples in chronological order, oldest first.
    pub fn to_vec(&self) -> (all: Vec<QosSample>)
        requires
            self.wf(),
        ensures
            sample_views(all@) == self@,
    {
        let mut all: Vec<QosSample> = Vec::new();
        let n: usize = self.len();
        let mut i: usize = 0;
        while i < n
            invariant
                self.wf(),
                i <= n == self@.len(),
                sample_views(all@) == self@.take(i as int),
            decreases n - i,
        {
            let sample: QosSample = self.get(i).clone();
            let ghost before = all@;
            all.push(sample);
            assert(sample_views(all@) =~= sample_views(before).push(sample@));
            assert(self@.take(i + 1) =~= self@.take(i as int).push(self@[i as int]));
            i = i + 1;
        }
        assert(self@.take(n as int) =~= self@);
        all
    }
}

/// The collector the platform reads from: the engine writes, the host queries.
#[derive(Debug)]
pub struct Qos {
    ring: QosRing,
    reconnects: u64,
    reconnect_attempts: u64,
    last_error: Option<String>,
    sink: bool,
    event_sink: bool,
    undelivered: Vec<QosSample>,
    undelivered_events: Vec<QosEvent>,
}

/// A collector as a mathematical value.
#[verifier::ext_equal]
pub struct QosView {
    /// The retained samples, oldest first.
    pub samples: Seq<SampleView>,
    /// How many samples are retained at most.
    pub capacity: nat,
    /// Successful reconnects, modulo 2^64.
    pub reconnects: u64,
    /// Failed reconnect attempts, modulo 2^64.
    pub reconnect_attempts: u64,
    /// The most recent failure.
    pub last_error: Option<Seq<char>>,
    /// True if there is someone to deliver samples to.
    pub sink: bool,
    /// True if there is someone to deliver events to.
    pub event_sink: bool,
    /// The samples on their way to the sink, in order.
    pub undelivered: Seq<SampleView>,
    /// The events on their way to the sink, in order.
    pub undelivered_events: Seq<EventView>,
}

/// An error, held to the length that is retained.
pub open spec fn capped(error: Seq<char>) -> Seq<char> {
    if error.len() > MAX_ERROR_LEN {
        error.take(MAX_ERROR_LEN as int)
    } else {
        error
    }
}

impl QosView {
    /// The collector behind a lifecycle event.
    pub open spec fn with_event(self, event: EventView) -> QosView {
        QosView {
            reconnects: if event is Reconnected {
                self.reconnects.wrapping_add(1)
            } else {
                self.reconnects
            },
            reconnect_attempts: if event is ReconnectAttempt {
                self.reconnect_attempts.wrapping_add(1)
            } else {
                self.reconnect_attempts
            },
            last_error: match event_error(event) {
                Some(e) => Some(capped(e)),
                None => self.last_error,
            },
            undelivered_events: if self.event_sink {
                self.undelivered_events.push(event)
            } else {
                self.undelivered_events
            },
            ..self
        }
    }

    /// The collector behind a sample.
    pub open spec fn with_sample(self, sample: SampleView) -> QosView {
        QosView {
            samples: retained(self.samples, self.capacity, sample),
            undelivered: if self.sink {
                self.undelivered.push(sample)
            } else {
                self.undelivered
            },
            ..self
        }
    }

    /// An empty collector for this many samples.
    pub open spec fn fresh(capacity: nat) -> QosView {
        QosView {
            samples: Seq::empty(),
            capacity,
            reconnects: 0,
            reconnect_attempts: 0,
            last_error: None,
            sink: false,
            event_sink: false,
            undelivered: Seq::empty(),
            undelivered_events: Seq::empty(),
        }
    }

    /// The collector without its samples, counters and last error. Whom it
    /// delivers to, and what is on its way there, stays.
    pub open spec fn cleared(self) -> QosView {
        QosView {
            sink: self.sink,
            event_sink: self.event_sink,
            undelivered: self.undelivered,
            undelivered_events: self.undelivered_events,
            ..QosView::fresh(self.capacity)
        }
    }
}

impl View for Qos {
    type V = QosView;

    closed spec fn view(&self) -> QosView {
        QosView {
            samples: self.ring@,
            capacity: self.ring.spec_capacity(),
            reconnects: self.reconnects,
            reconnect_attempts: self.reconnect_attempts,
            last_error: opt_text(self.last_error),
            sink: self.sink,
            event_sink: self.event_sink,
            undelivered: sample_views(self.undelivered@),
            undelivered_events: event_views(self.undelivered_events@),
        }
    }
}

impl Qos {
    /// The ring is in order.
    pub closed spec fn wf(&self) -> bool {
        self.ring.wf()
    }

    /// Create an empty collector with the given capacity (samples retained).
    pub fn new(config: QosConfig) -> (q: Self)
        ensures
            q.wf(),
            q@ == QosView::fresh(
                if config.capacity >= 1 {
                    config.capacity as nat
                } else {
                    1
                },
            ),
    {
        let q: Qos = Qos {
            ring: QosRing::new(config.capacity),
            reconnects: 0,
            reconnect_attempts: 0,
            last_error: None,
            sink: false,
            event_sink: false,
            undelivered: Vec::new(),
            undelivered_events: Vec::new(),
        };
        assert(q@.undelivered =~= Seq::<SampleView>::empty());
        assert(q@.undelivered_events =~= Seq::<EventView>::empty());
        q
    }

    /// Say whether there is a sink for samples: while there is, every sample
    /// is kept for delivery until [`Qos::take_samples`] hands it out.
    pub fn set_sink(&mut self, installed: bool)
        ensures
            old(self).wf() ==> final(self).wf(),
            final(self)@ == (QosView { sink: installed, ..old(self)@ }),
    {
        self.sink = installed;
    }

    /// Say whether there is a sink for lifecycle events: while there is, every
    /// event is kept for delivery until [`Qos::take_events`] hands it out.
    pub fn set_event_sink(&mut self, installed: bool)
        ensures
            old(self).wf() ==> final(self).wf(),
            final(self)@ == (QosView { event_sink: installed, ..old(self)@ }),
    {
        self.event_sink = installed;
    }

    /// The samples to deliver, in the order in which they came.
    pub fn take_samples(&mut self) -> (samples: Vec<QosSample>)
        ensures
            old(self).wf() ==> final(self).wf(),
            sample_views(samples@) == old(self)@.undelivered,
            final(self)@ == (QosView { undelivered: Seq::empty(), ..old(self)@ }),
    {
        let mut samples: Vec<QosSample> = Vec::new();
        std::mem::swap(&mut samples, &mut self.undelivered);
        assert(self@.undelivered =~= Seq::<SampleView>::empty());
        samples
    }

    /// The events to deliver, in the order in which they came.
    pub fn take_events(&mut self) -> (events: Vec<QosEvent>)
        ensures
            old(self).wf() ==> final(self).wf(),
            event_views(events@) == old(self)@.undelivered_events,
            final(self)@ == (QosView { undelivered_events: Seq::empty(), ..old(self)@ }),
    {
        let mut events: Vec<QosEvent> = Vec::new();
        std::mem::swap(&mut events, &mut self.undelivered_events);
        assert(self@.undelivered_events =~= Seq::<EventView>::empty());
        events
    }

    /// Record one periodic sample: appended to the ring, and handed to the
    /// sink if there is one.
    pub fn emit_sample(&mut self, sample: QosSample)
        requires
            old(self).wf(),
        ensures
            final(self).wf(),
            final(self)@ == old(self)@.with_sample(sample@),
    {
        if self.sink {
            self.undelivered.push(sample.clone());
            assert(sample_views(self.undelivered@) =~= old(self)@.undelivered.push(sample@));
        }
        self.ring.push(sample);
    }

    /// Record a lifecycle event: updates the cumulative counters and the last
    /// error, and hands the event to the sink if there is one.
    pub fn record_event(&mut self, event: &QosEvent)
        requires
            old(self).wf(),
        ensures
            final(self).wf(),
            final(self)@ == old(self)@.with_event(event@),
    {
        match event {
            QosEvent::Reconnected => {
                self.reconnects = self.reconnects.wrapping_add(1);
            },
            QosEvent::ReconnectAttempt { attempt: _, error } => {
                self.reconnect_attempts = self.reconnect_attempts.wrapping_add(1);
                self.set_last_error(error);
            },
            QosEvent::Disconnected { error } => {
                self.set_last_error(error);
            },
            QosEvent::GaveUp { attempts: _, error } => {
                self.set_last_error(error);
            },
            _ => {},
        }
        if self.event_sink {
            self.undelivered_events.push(event.clone());
            assert(event_views(self.undelivered_events@)
                =~= old(self)@.undelivered_events.push(event@));
        }
    }

    fn set_last_error(&mut self, error: &Option<String>)
        ensures
            final(self).ring == old(self).ring,
            final(self).reconnects == old(self).reconnects,
            final(self).reconnect_attempts == old(self).reconnect_attempts,
            final(self).sink == old(self).sink,
            final(self).event_sink == old(self).event_sink,
            final(self).undelivered == old(self).undelivered,
            final(self).undelivered_events == old(self).undelivered_events,
            opt_text(final(self).last_error) == match *error {
                Some(e) => Some(capped(e@)),
                None => opt_text(old(self).last_error),
            },
    {
        if let Some(e) = error {
            if e.as_str().unicode_len() > MAX_ERROR_LEN {
                let short: &str = e.as_str().substring_char(0, MAX_ERROR_LEN);
                assert(short@ =~= e@.take(MAX_ERROR_LEN as int));
                self.last_error = Some(short.to_owned());
            } else {
                self.last_error = Some(e.clone());
            }
        }
    }

    /// Number of samples currently retained.
    pub fn sample_count(&self) -> (n: usize)
        requires
            self.wf(),
        ensures
            n == self@.samples.len(),
    {
        self.ring.len()
    }

    /// The retained samples in chronological order, oldest first.
    pub fn samples(&self) -> (all: Vec<QosSample>)
        requires
            self.wf(),
        ensures
            sample_views(all@) == self@.samples,
    {
        self.ring.to_vec()
    }

    /// Successful reconnects since creation.
    pub fn reconnects(&self) -> (n: u64)
        ensures
            n == self@.reconnects,
    {
        self.reconnects
    }

    /// Failed reconnect attempts since creation.
    pub fn reconnect_attempts(&self) -> (n: u64)
        ensures
            n == self@.reconnect_attempts,
    {
        self.reconnect_attempts
    }

    /// Description of the most recent failure, if any.
    pub fn last_error(&self) -> (error: Option<String>)
        ensures
            opt_text(error) == self@.last_error,
    {
        copy_text(&self.last_error)
    }

    /// A queryable summary over the retained ring — the "1-hour stream report".
    pub fn summary(&self) -> (q: QosSummary)
        requires
            self.wf(),
        ensures
            summarises(q, self@.samples),
            q.reconnects == self@.reconnects,
            q.reconnect_attempts == self@.reconnect_attempts,
            opt_text(q.last_error) == self@.last_error,
    {
        let n: usize = self.ring.len();
        let ghost s = self.ring@;
        let mut bitrate: u64 = 0;
        let mut peak_bitrate: u64 = 0;
        let mut throughput: u64 = 0;
        let mut peak_throughput: u64 = 0;
        let mut buffer: u64 = 0;
        let mut max_buffer: i64 = 0;
        let mut rtt: u64 = 0;
        let mut rtt_count: usize = 0;
        let mut max_rtt: u64 = 0;
        let mut i: usize = 0;
        while i < n
            invariant
                self.ring.wf(),
                s == self.ring@,
                i <= n == s.len(),
                bitrate == summed(s.take(i as int), bitrate_of()),
                peak_bitrate == highest(s.take(i as int), bitrate_of()),
                throughput == summed(s.take(i as int), throughput_of()),
                peak_throughput == highest(s.take(i as int), throughput_of()),
                buffer == summed(s.take(i as int), lag_of()),
                max_buffer == worst_lag(s.take(i as int)),
                rtt == summed(timed(s.take(i as int)), rtt_of()),
                rtt_count == timed(s.take(i as int)).len(),
                rtt_count <= i,
                max_rtt == highest(timed(s.take(i as int)), rtt_of()),
            decreases n - i,
        {
            let sample: &QosSample = self.ring.get(i);
            assert(s.take(i + 1).drop_last() =~= s.take(i as int));
            assert(s.take(i + 1).last() == sample@);
            bitrate = add_up(bitrate, sample.bitrate_out_bps);
            peak_bitrate = greater_of(peak_bitrate, sample.bitrate_out_bps);
            throughput = add_up(throughput, sample.throughput_bps);
            peak_throughput = greater_of(peak_throughput, sample.throughput_bps);
            buffer = add_up(buffer, from_signed(sample.buffer_ms));
            if sample.buffer_ms > max_buffer {
                max_buffer = sample.buffer_ms;
            }
            if let Some(ms) = sample.rtt_ms {
                proof {
                    let before = timed(s.take(i as int));
                    assert(before.push(sample@).drop_last() =~= before);
                }
                rtt = add_up(rtt, ms);
                rtt_count = rtt_count + 1;
                max_rtt = greater_of(max_rtt, ms);
            }
            i = i + 1;
        }
        assert(s.take(n as int) =~= s);
        let mut span_ms: u64 = 0;
        let mut drop_ratio: u64 = 0;
        let mut pushed: u64 = 0;
        let mut muxed: u64 = 0;
        let mut dropped: u64 = 0;
        if n > 0 {
            let first: &QosSample = self.ring.get(0);
            let last: &QosSample = self.ring.get(n - 1);
            if last.uptime_ms > first.uptime_ms {
                span_ms = last.uptime_ms - first.uptime_ms;
            }
            drop_ratio = last.drop_ratio;
            pushed = last.pushed;
            muxed = last.muxed;
            dropped = last.dropped;
        }
        QosSummary {
            samples: n,
            span_secs: ratio_of(span_ms, 1000),
            avg_bitrate_out_bps: mean(bitrate, n),
            peak_bitrate_out_bps: peak_bitrate,
            avg_throughput_bps: mean(throughput, n),
            peak_throughput_bps: peak_throughput,
            avg_buffer_ms: mean(buffer, n),
            max_buffer_ms: max_buffer,
            drop_ratio,
            avg_rtt_ms: if rtt_count > 0 {
                Some(mean(rtt, rtt_count))
            } else {
                None
            },
            max_rtt_ms: if rtt_count > 0 {
                Some(max_rtt)
            } else {
                None
            },
            reconnects: self.reconnects,
            reconnect_attempts: self.reconnect_attempts,
            pushed,
            muxed,
            dropped,
            last_error: copy_text(&self.last_error),
        }
    }

    /// Clear all samples, counters, and the last error. Sinks are kept (they are
    /// platform configuration, not stream state).
    pub fn reset(&mut self)
        requires
            old(self).wf(),
        ensures
            final(self).wf(),
            final(self)@ == old(self)@.cleared(),
    {
        self.ring.clear();
        self.reconnects = 0;
        self.reconnect_attempts = 0;
        self.last_error = None;
    }
}

/// The mean of so many values with this sum.
fn mean(sum: u64, n: usize) -> (m: u64)
    ensures
        m == mean_of(sum, n as nat),
{
    if n == 0 {
        0
    } else {
        share_out(sum, n as u64)
    }
}

/// Every figure of a sample that is a number and not negative lies within the
/// summary's peak; so does every buffer lag.
pub proof fn samples_lie_within_peaks(s: Seq<SampleView>, f: spec_fn(SampleView) -> u64)
    ensures
        forall|i: int|
            0 <= i < s.len() && f(#[trigger] s[i]) <= INFINITY ==> f(s[i]) <= highest(s, f),
        forall|i: int| 0 <= i < s.len() ==> (#[trigger] s[i]).buffer_ms <= worst_lag(s),
        highest(s, f) <= INFINITY,
        worst_lag(s) >= 0,
    decreases s.len(),
{
    if s.len() > 0 {
        let rest = s.drop_last();
        samples_lie_within_peaks(rest, f);
        assert forall|i: int| 0 <= i < s.len() && f(#[trigger] s[i]) <= INFINITY implies f(s[i])
            <= highest(s, f) by {
            if i < rest.len() {
                assert(s[i] == rest[i]);
            }
        }
        assert forall|i: int| 0 <= i < s.len() implies (#[trigger] s[i]).buffer_ms <= worst_lag(
            s,
        ) by {
            if i < rest.len() {
                assert(s[i] == rest[i]);
            }
        }
    }
}

/// The samples a ring has retained once a run of samples has come in.
pub open spec fn retained_run(
    s: Seq<SampleView>,
    capacity: nat,
    run: Seq<SampleView>,
) -> Seq<SampleView>
    decreases run.len(),
{
    if run.len() == 0 {
        s
    } else {
        retained(retained_run(s, capacity, run.drop_last()), capacity, run.last())
    }
}

/// A ring keeps the newest samples, in order: the last `capacity` of all that
/// came in.
pub proof fn rings_keep_the_newest(capacity: nat, run: Seq<SampleView>)
    requires
        capacity >= 1,
    ensures
        retained_run(Seq::empty(), capacity, run) == run.skip(
            if run.len() > capacity {
                run.len() - capacity
            } else {
                0
            },
        ),
    decreases run.len(),
{
    if run.len() > 0 {
        rings_keep_the_newest(capacity, run.drop_last());
        assert(retained_run(Seq::empty(), capacity, run) =~= run.skip(
            if run.len() > capacity {
                run.len() - capacity
            } else {
                0
            },
        ));
    } else {
        assert(run.skip(0) =~= Seq::<SampleView>::empty());
    }
}

} // verus!
