//! The rules of the diagnostic sink: which records it takes and how it
//! writes a line for them.

use vstd::prelude::*;
use crate::lexer::{chars_of, span_is, Span};

verus! {

/// The error with which the `time` crate refuses a format string or a
/// time that is no calendar time.
#[verifier::external_type_specification]
#[verifier::external_body]
pub struct ExParseError(time::ParseError);

/// The format of the time in a line: year, month and day with hyphens, a
/// space, then hour, minute and second with colons.
pub open spec fn stamp_format() -> Seq<char> {
    "%Y-%m-%d %H:%M:%S"@
}

/// Reads the system clock with `time::now`, which breaks the time down in
/// the local time zone, and writes it with `time::strftime` in the given
/// format. The text depends on the moment and on the machine, so nothing
/// is claimed of it. What is claimed: the format of a line is not refused.
/// The formatter refuses a directive that it does not know, and a weekday
/// or a month out of range; the six directives of that format are known
/// to it, and the clock's time is a calendar time.
#[verifier::external_body]
fn local_time_text(format: &str) -> (r: Result<String, time::ParseError>)
    ensures
        format@ == stamp_format() ==> r is Ok,
{
    time::strftime(format, &time::now())
}

/// Severity of a diagnostic record, most severe first.
#[derive(Clone, Copy, Debug, PartialEq, Eq, Structural)]
pub enum LogLevel {
    Error,
    Warn,
    Info,
    Debug,
    Trace,
}

impl LogLevel {
    /// The place of the level in the order of verbosity, from 1 for
    /// errors to 5 for traces.
    pub open spec fn rank(self) -> nat {
        match self {
            LogLevel::Error => 1,
            LogLevel::Warn => 2,
            LogLevel::Info => 3,
            LogLevel::Debug => 4,
            LogLevel::Trace => 5,
        }
    }

    /// The level's name, filled with spaces on the right to five columns.
    pub open spec fn column(self) -> Seq<char> {
        match self {
            LogLevel::Error => "ERROR"@,
            LogLevel::Warn => "WARN "@,
            LogLevel::Info => "INFO "@,
            LogLevel::Debug => "DEBUG"@,
            LogLevel::Trace => "TRACE"@,
        }
    }

    /// The level's name as it stands in a line.
    pub fn padded(self) -> (s: &'static str)
        ensures
            s@ == self.column(),
            s@.len() == 5,
    {
        proof {
            reveal_strlit("ERROR");
            reveal_strlit("WARN ");
            reveal_strlit("INFO ");
            reveal_strlit("DEBUG");
            reveal_strlit("TRACE");
        }
        match self {
            LogLevel::Error => "ERROR",
            LogLevel::Warn => "WARN ",
            LogLevel::Info => "INFO ",
            LogLevel::Debug => "DEBUG",
            LogLevel::Trace => "TRACE",
        }
    }
}

/// Whether a record of this level is taken at all: everything but traces.
pub open spec fn is_enabled(level: LogLevel) -> bool {
    level.rank() <= LogLevel::Debug.rank()
}

/// Whether a record is written: its level is enabled and it comes from
/// the program's own root module.
pub open spec fn is_accepted(level: LogLevel, origin: Seq<char>) -> bool {
    is_enabled(level) && origin == "rpc_perf"@
}

/// The line for a record: the time, the level in its column, the
/// program's name in brackets and the message, with one space between
/// them.
pub open spec fn line_text(timestamp: Seq<char>, level: LogLevel, message: Seq<char>) -> Seq<
    char,
> {
    timestamp + " "@ + level.column() + " [rpc-perf] "@ + message
}

/// A sink that writes the records of the program itself, down to debug
/// level.
#[derive(Clone, Copy, Debug)]
pub struct SimpleLogger;

impl SimpleLogger {
    /// Tells whether records of this level are taken.
    pub fn enabled(&self, level: LogLevel) -> (r: bool)
        ensures
            r == is_enabled(level),
    {
        match level {
            LogLevel::Trace => false,
            _ => true,
        }
    }

    /// Tells whether a record of this level from this module is written.
    pub fn accepts(&self, level: LogLevel, origin: &str) -> (r: bool)
        ensures
            r == is_accepted(level, origin@),
    {
        if !self.enabled(level) {
            return false;
        }
        let chars = chars_of(origin);
        let whole = Span { start: 0, end: chars.len() };
        assert(whole.of(chars@) =~= origin@);
        span_is(&chars, whole, "rpc_perf")
    }

    /// Writes the line for a record that was made at the time that
    /// `timestamp` spells.
    pub fn render(&self, timestamp: &str, level: LogLevel, message: &str) -> (line: String)
        ensures
            line@ == line_text(timestamp@, level, message@),
    {
        let mut line = String::new();
        line.append(timestamp);
        line.append(" ");
        line.append(level.padded());
        line.append(" [rpc-perf] ");
        line.append(message);
        assert(line@ =~= line_text(timestamp@, level, message@));
        line
    }

    /// Gives the line to write for a record, stamped with the local time
    /// of the call, or nothing where the record is not written. Every
    /// record that is accepted gets its line. The stamp is whatever the
    /// clock gave; the rest of the line is fixed by the record.
    pub fn log(&self, level: LogLevel, origin: &str, message: &str) -> (r: Option<String>)
        ensures
            r is Some <==> is_accepted(level, origin@),
            r is Some ==> exists|stamp: Seq<char>| r->0@ == line_text(stamp, level, message@),
    {
        if !self.accepts(level, origin) {
            return None;
        }
        self.stamped(local_time_text("%Y-%m-%d %H:%M:%S"), level, message)
    }

    /// Gives the line for a record from what the formatter made of the
    /// clock: the line with that time where it gave one, nothing where it
    /// refused.
    pub fn stamped(
        &self,
        stamp: Result<String, time::ParseError>,
        level: LogLevel,
        message: &str,
    ) -> (r: Option<String>)
        ensures
            match stamp {
                Ok(text) => r is Some && r->0@ == line_text(text@, level, message@),
                Err(_) => r is None,
            },
    {
        match stamp {
            Ok(text) => Some(self.render(text.as_str(), level, message)),
            Err(_) => None,
        }
    }
}

} // verus!
