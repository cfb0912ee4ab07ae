//! The event model: the tagged union of observable occurrences submitted
//! into the event channel, and the leveled log record.

use vstd::prelude::*;
use crate::node::Id;
use crate::span::Span;

verus! {

/// Severity of a log line. Totally ordered for filtering purposes:
/// `Error` is the most severe, `Trace` the least.
#[derive(Debug, Copy, Clone, PartialEq, Eq, Structural)]
pub enum Level {
    Error,
    Warn,
    Info,
    Debug,
    Trace,
}

/// Numeric rank of a level: lower rank means more severe.
pub open spec fn severity_of(l: Level) -> nat {
    match l {
        Level::Error => 0,
        Level::Warn => 1,
        Level::Info => 2,
        Level::Debug => 3,
        Level::Trace => 4,
    }
}

impl Level {
    /// The rank of this level; lower is more severe.
    pub fn severity(&self) -> (r: u8)
        ensures
            r as nat == severity_of(*self),
    {
        match self {
            Level::Error => 0,
            Level::Warn => 1,
            Level::Info => 2,
            Level::Debug => 3,
            Level::Trace => 4,
        }
    }

    /// Whether this level is at least as severe as `other`.
    pub fn at_least(&self, other: Level) -> (r: bool)
        ensures
            r == (severity_of(*self) <= severity_of(other)),
    {
        self.severity() <= other.severity()
    }
}

/// One log line: creation time (milliseconds since the epoch), severity,
/// message, and the id of the span the producing task was inside.
#[derive(Debug, Clone)]
pub struct Log {
    pub timestamp: u64,
    pub level: Level,
    pub message: String,
    pub span: Id,
}

impl Log {
    pub fn new(timestamp: u64, level: Level, message: String, span: Id) -> (r: Self)
        ensures
            r.timestamp == timestamp,
            r.level == level,
            r.message == message,
            r.span == span,
    {
        Self { timestamp, level, message, span }
    }

    pub fn timestamp(&self) -> (r: u64)
        ensures
            r == self.timestamp,
    {
        self.timestamp
    }

    pub fn level(&self) -> (r: Level)
        ensures
            r == self.level,
    {
        self.level
    }

    pub fn message(&self) -> (r: &str)
        ensures
            r@ == self.message@,
    {
        self.message.as_str()
    }

    pub fn span(&self) -> (r: Id)
        ensures
            r == self.span,
    {
        self.span
    }
}

/// An observable occurrence: a log line, or a change in the span tree.
pub enum Event {
    Log(Log),
    SpanBegin(Id),
    SpanUpdate(Id, Span),
    SpanEnd(Id),
}

impl Event {
    /// A log event carrying the given record fields.
    pub fn log(timestamp: u64, level: Level, message: String, span: Id) -> (r: Self)
        ensures
            r == Event::Log(Log { timestamp, level, message, span }),
    {
        Event::Log(Log::new(timestamp, level, message, span))
    }

    /// A new span node has been attached.
    pub fn span_begin(span: Id) -> (r: Self)
        ensures
            r == Event::SpanBegin(span),
    {
        Event::SpanBegin(span)
    }

    /// A span's payload has been replaced.
    pub fn span_update(span: Id, data: Span) -> (r: Self)
        ensures
            r == Event::SpanUpdate(span, data),
    {
        Event::SpanUpdate(span, data)
    }

    /// A span node has been detached.
    pub fn span_end(span: Id) -> (r: Self)
        ensures
            r == Event::SpanEnd(span),
    {
        Event::SpanEnd(span)
    }
}

} // verus!
