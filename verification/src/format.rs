//! Rendering of log lines to colored terminal text. The line layout is
//! specified exactly; only the timestamp text, which depends on the
//! machine's local time zone, is left to the outside formatter.

use vstd::prelude::*;
use vstd::string::StringExecFns;
use crate::event::Level;
use crate::event::Log;
use crate::node::Tree;
use crate::node::tree_wf;
use crate::span::Span;

verus! {

/// The colored label of a level: a 3-bit color escape and a five-column
/// name.
pub open spec fn spec_level_label(l: Level) -> Seq<char> {
    match l {
        Level::Error => "\x1b[31mERROR"@,
        Level::Warn => "\x1b[33m WARN"@,
        Level::Info => "\x1b[32m INFO"@,
        Level::Debug => "\x1b[36mDEBUG"@,
        Level::Trace => "\x1b[35mTRACE"@,
    }
}

/// One rendered log line: dim timestamp, colored level, optionally the bold
/// name of the enclosing span, then the message.
pub open spec fn spec_format_log(
    ts: Seq<char>,
    level: Level,
    parent: Option<Seq<char>>,
    message: Seq<char>,
) -> Seq<char> {
    match parent {
        Some(name) => "\x1b[90m"@ + ts + "\x1b[0m "@ + spec_level_label(level) + "\x1b[0m \x1b[1m"@
            + name + "\x1b[0m: "@ + message + "\n"@,
        None => "\x1b[90m"@ + ts + "\x1b[0m "@ + spec_level_label(level) + "\x1b[0m: "@ + message
            + "\n"@,
    }
}

/// The name of the parent of the log's span in the given tree, if the span
/// and a parent exist there.
pub open spec fn spec_log_parent_name(m: Seq<crate::node::NodeModel<Span>>, log: Log) -> Option<
    Seq<char>,
> {
    if (log.span.0 as int) < m.len() && m[log.span.0 as int].parent is Some {
        Some(m[m[log.span.0 as int].parent->0].value.name@)
    } else {
        None
    }
}

/// Relies on chrono's DateTime: renders a millisecond timestamp in the
/// machine's local time zone, ISO 8601. The local zone makes the text
/// machine-dependent, so nothing is claimed of it.
#[verifier::external_body]
fn local_iso8601(ms: u64) -> (r: String) {
    match chrono::DateTime::from_timestamp_millis(ms as i64) {
        Some(utc) => utc.with_timezone(&chrono::Local).format("%+").to_string(),
        None => String::new(),
    }
}

/// The decimal digit for one value below ten.
pub open spec fn spec_digit(d: nat) -> char {
    if d == 0 {
        '0'
    } else if d == 1 {
        '1'
    } else if d == 2 {
        '2'
    } else if d == 3 {
        '3'
    } else if d == 4 {
        '4'
    } else if d == 5 {
        '5'
    } else if d == 6 {
        '6'
    } else if d == 7 {
        '7'
    } else if d == 8 {
        '8'
    } else {
        '9'
    }
}

/// The usual decimal notation of a number, most significant digit first,
/// no sign and no leading zeros (zero itself is one digit).
pub open spec fn spec_decimal(n: nat) -> Seq<char>
    decreases n,
{
    if n < 10 {
        seq![spec_digit(n)]
    } else {
        spec_decimal(n / 10) + seq![spec_digit(n % 10)]
    }
}

fn digit_str(d: u64) -> (r: &'static str)
    requires
        d < 10,
    ensures
        r@ == seq![spec_digit(d as nat)],
{
    proof {
        reveal_strlit("0");
        reveal_strlit("1");
        reveal_strlit("2");
        reveal_strlit("3");
        reveal_strlit("4");
        reveal_strlit("5");
        reveal_strlit("6");
        reveal_strlit("7");
        reveal_strlit("8");
        reveal_strlit("9");
    }
    let r = match d {
        0 => "0",
        1 => "1",
        2 => "2",
        3 => "3",
        4 => "4",
        5 => "5",
        6 => "6",
        7 => "7",
        8 => "8",
        _ => "9",
    };
    proof {
        assert(r@ =~= seq![spec_digit(d as nat)]);
    }
    r
}

fn push_decimal(s: &mut String, n: u64)
    ensures
        final(s)@ == old(s)@ + spec_decimal(n as nat),
    decreases n,
{
    if n >= 10 {
        push_decimal(s, n / 10);
        s.append(digit_str(n % 10));
        proof {
            assert(s@ =~= old(s)@ + spec_decimal(n as nat));
        }
    } else {
        s.append(digit_str(n));
        proof {
            assert(s@ =~= old(s)@ + spec_decimal(n as nat));
        }
    }
}

/// Renders a number in decimal, exactly as `spec_decimal` lays it out.
pub fn to_decimal(n: u64) -> (r: String)
    ensures
        r@ == spec_decimal(n as nat),
{
    let mut s = String::new();
    push_decimal(&mut s, n);
    proof {
        assert(s@ =~= spec_decimal(n as nat));
    }
    s
}

/// The default renderer of log lines.
pub struct DefaultFormatter;

impl DefaultFormatter {
    pub fn new() -> (r: Self) {
        Self {  }
    }

    /// Two spaces for every level of depth.
    pub fn indent(depth: usize) -> (r: String)
        requires
            depth <= 0x1000_0000,
        ensures
            r@ == Seq::new((2 * depth) as nat, |i: int| ' '),
    {
        proof {
            reveal_strlit("  ");
            assert("  "@ =~= Seq::new(2nat, |i: int| ' '));
        }
        let mut s = String::new();
        proof {
            assert(s@ =~= Seq::new(0nat, |i: int| ' '));
        }
        let mut k: usize = 0;
        while k < depth
            invariant
                depth <= 0x1000_0000,
                k <= depth,
                s@ == Seq::new((2 * k) as nat, |i: int| ' '),
                "  "@ == Seq::new(2nat, |i: int| ' '),
            decreases depth - k,
        {
            s.append("  ");
            k += 1;
            proof {
                assert(s@ =~= Seq::new((2 * k) as nat, |i: int| ' '));
            }
        }
        s
    }

    /// The colored label of a level.
    pub fn level_label(level: Level) -> (r: &'static str)
        ensures
            r@ == spec_level_label(level),
    {
        match level {
            Level::Error => "\x1b[31mERROR",
            Level::Warn => "\x1b[33m WARN",
            Level::Info => "\x1b[32m INFO",
            Level::Debug => "\x1b[36mDEBUG",
            Level::Trace => "\x1b[35mTRACE",
        }
    }

    /// Builds one log line from its parts, exactly as specified by
    /// `spec_format_log`.
    pub fn format_log_line(
        ts: &str,
        level: Level,
        parent: Option<&str>,
        message: &str,
    ) -> (r: String)
        ensures
            r@ == spec_format_log(
                ts@,
                level,
                match parent {
                    Some(p) => Some(p@),
                    None => None,
                },
                message@,
            ),
    {
        let mut s = String::new();
        s.append("\x1b[90m");
        s.append(ts);
        s.append("\x1b[0m ");
        s.append(Self::level_label(level));
        match parent {
            Some(name) => {
                s.append("\x1b[0m \x1b[1m");
                s.append(name);
                s.append("\x1b[0m: ");
            },
            None => {
                s.append("\x1b[0m: ");
            },
        }
        s.append(message);
        s.append("\n");
        proof {
            assert(s@ =~= spec_format_log(
                ts@,
                level,
                match parent {
                    Some(p) => Some(p@),
                    None => None,
                },
                message@,
            ));
        }
        s
    }

    /// Renders one log line, naming the parent of the log's span as found
    /// in the tree; the timestamp text comes from the local-time formatter
    /// and is the one part of the line not pinned down.
    pub fn format_log(tree: &Tree<Span>, log: &Log) -> (r: String)
        requires
            tree_wf(tree@),
        ensures
            exists|ts: Seq<char>|
                r@ == spec_format_log(ts, log.level, spec_log_parent_name(tree@, *log), log.message@),
    {
        let ts = local_iso8601(log.timestamp);
        let r;
        if log.span.0 < tree.len() {
            match tree.parent(log.span) {
                Some(p) => {
                    proof {
                        assert(crate::node::node_ok(tree@, log.span.0 as int));
                    }
                    let name_owned = tree.value(p).name();
                    r = Self::format_log_line(
                        ts.as_str(),
                        log.level,
                        Some(name_owned),
                        log.message(),
                    );
                },
                None => {
                    r = Self::format_log_line(ts.as_str(), log.level, None, log.message());
                },
            }
        } else {
            r = Self::format_log_line(ts.as_str(), log.level, None, log.message());
        }
        proof {
            assert(r@ == spec_format_log(
                ts@,
                log.level,
                spec_log_parent_name(tree@, *log),
                log.message@,
            ));
        }
        r
    }
}

} // verus!
