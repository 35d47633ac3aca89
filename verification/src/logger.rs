//! Log severity policy and the system-logger command line.
//!
//! The crate reports events through the host's `logger` utility; what is
//! decided here — which severities pass, which priority keyword each maps
//! to, and the exact quoting of the message — is verified.  Registering the
//! sink with a logging facade and spawning the command are the caller's
//! side.

use vstd::prelude::*;

verus! {

/// Severity of a log event, most severe first.
#[derive(Clone, Copy, PartialEq, Eq, Structural, Debug)]
pub enum LogLevel {
    Error,
    Warn,
    Info,
    Debug,
    Trace,
}

/// Numeric rank of a severity; smaller is more severe.
pub open spec fn level_rank(l: LogLevel) -> int {
    match l {
        LogLevel::Error => 1,
        LogLevel::Warn => 2,
        LogLevel::Info => 3,
        LogLevel::Debug => 4,
        LogLevel::Trace => 5,
    }
}

/// The syslog priority keyword each severity is reported under.
pub open spec fn spec_priority(l: LogLevel) -> Seq<char> {
    match l {
        LogLevel::Error => "err"@,
        LogLevel::Warn => "warning"@,
        LogLevel::Info => "info"@,
        LogLevel::Debug => "debug"@,
        LogLevel::Trace => "debug"@,
    }
}

/// One character, quoted for a single-quoted shell string: a single quote
/// becomes `'\''`, everything else is kept.
pub open spec fn escape_char(c: char) -> Seq<char> {
    if c == '\'' {
        seq!['\'', '\\', '\'', '\'']
    } else {
        seq![c]
    }
}

/// A message, quoted character by character for a single-quoted shell
/// string.
pub open spec fn escape_seq(s: Seq<char>) -> Seq<char>
    decreases s.len(),
{
    if s.len() == 0 {
        Seq::empty()
    } else {
        escape_seq(s.drop_last()) + escape_char(s.last())
    }
}

/// The priority keyword handed to the system logger for a severity.
pub fn syslog_priority(level: LogLevel) -> (r: &'static str)
    ensures
        r@ == spec_priority(level),
{
    match level {
        LogLevel::Error => "err",
        LogLevel::Warn => "warning",
        LogLevel::Info => "info",
        LogLevel::Debug => "debug",
        LogLevel::Trace => "debug",
    }
}

/// Escape a message for inclusion in a single-quoted shell string: each
/// single quote is replaced by `'\''`, nothing else is changed.
pub fn escape_single_quotes(s: &str) -> (r: String)
    ensures
        r@ == escape_seq(s@),
{
    let n = s.unicode_len();
    let mut out = String::new();
    let mut i: usize = 0;
    while i < n
        invariant
            n == s@.len(),
            i <= n,
            out@ == escape_seq(s@.take(i as int)),
        decreases n - i,
    {
        let c = s.get_char(i);
        if c == '\'' {
            out.append("'\\''");
            proof {
                reveal_strlit("'\\''");
                assert(("'\\''")@ =~= escape_char(c));
            }
        } else {
            let piece = s.substring_char(i, i + 1);
            out.append(piece);
            proof {
                assert(piece@ =~= escape_char(c));
            }
        }
        proof {
            assert(s@.take(i + 1).drop_last() =~= s@.take(i as int));
            assert(s@.take(i + 1).last() == s@[i as int]);
        }
        i = i + 1;
    }
    proof {
        assert(s@.take(n as int) =~= s@);
    }
    out
}

/// The configured log sink: a tag to report under.  The severity filter is
/// fixed: `Info` and more severe pass, `Debug` and `Trace` do not.
pub struct Logger {
    tag: String,
}

impl View for Logger {
    type V = Seq<char>;

    closed spec fn view(&self) -> Seq<char> {
        self.tag@
    }
}

impl Logger {
    /// A logger under the default tag.
    pub fn init() -> (l: Logger)
        ensures
            l@ == "GameMon"@,
    {
        Logger { tag: String::from_str("GameMon") }
    }

    /// A logger under a caller-chosen tag, for grouping several binaries'
    /// events under one name.
    pub fn init_with_target(tag: &str) -> (l: Logger)
        ensures
            l@ == tag@,
    {
        Logger { tag: tag.to_owned() }
    }

    /// The tag events are reported under.
    pub fn tag(&self) -> (r: &str)
        ensures
            r@ == self@,
    {
        self.tag.as_str()
    }

    /// Whether events of this severity are reported at all.
    pub fn enabled(&self, level: LogLevel) -> (r: bool)
        ensures
            r == (level_rank(level) <= level_rank(LogLevel::Info)),
    {
        match level {
            LogLevel::Error => true,
            LogLevel::Warn => true,
            LogLevel::Info => true,
            LogLevel::Debug => false,
            LogLevel::Trace => false,
        }
    }

    /// The exact shell command that reports `msg` at `level` under this
    /// logger's tag: `logger -p user.<priority> -t <tag> '<escaped msg>'`.
    pub fn shell_command(&self, level: LogLevel, msg: &str) -> (r: String)
        ensures
            r@ == "logger -p user."@ + spec_priority(level) + " -t "@ + self@ + " '"@
                + escape_seq(msg@) + "'"@,
    {
        let mut out = String::from_str("logger -p user.");
        out.append(syslog_priority(level));
        out.append(" -t ");
        out.append(self.tag.as_str());
        out.append(" '");
        let escaped = escape_single_quotes(msg);
        out.append(escaped.as_str());
        out.append("'");
        proof {
            assert(out@ =~= "logger -p user."@ + spec_priority(level) + " -t "@ + self@ + " '"@
                + escape_seq(msg@) + "'"@);
        }
        out
    }
}

} // verus!
