//! Log levels as the configuration names them.

use crate::text::{eq_ignoring_ascii_case, lemma_same_ignoring_ascii_case, lowered};
use std::str::FromStr;
use vstd::prelude::*;

verus! {

/// How much the service logs.
#[derive(Copy, Clone, Debug, PartialEq, Eq, Structural)]
pub enum LogLevel {
    Trace,
    Debug,
    Info,
    Warn,
    Error,
}

impl LogLevel {
    /// The level that `s` names. Letter case does not matter, and `warning`
    /// is another name for `warn`.
    pub open spec fn named(s: Seq<char>) -> Option<LogLevel> {
        let name = lowered(s);
        if name == "trace"@ {
            Some(LogLevel::Trace)
        } else if name == "debug"@ {
            Some(LogLevel::Debug)
        } else if name == "info"@ {
            Some(LogLevel::Info)
        } else if name == "warn"@ || name == "warning"@ {
            Some(LogLevel::Warn)
        } else if name == "error"@ {
            Some(LogLevel::Error)
        } else {
            None
        }
    }

    /// The word that selects this level in a log filter.
    pub open spec fn filter_text(self) -> Seq<char> {
        match self {
            LogLevel::Trace => "trace"@,
            LogLevel::Debug => "debug"@,
            LogLevel::Info => "info"@,
            LogLevel::Warn => "warn"@,
            LogLevel::Error => "error"@,
        }
    }

    /// Reads a level from its name.
    pub fn parse(s: &str) -> (level: Option<LogLevel>)
        ensures
            level == LogLevel::named(s@),
    {
        if is_name(s, "trace") {
            Some(LogLevel::Trace)
        } else if is_name(s, "debug") {
            Some(LogLevel::Debug)
        } else if is_name(s, "info") {
            Some(LogLevel::Info)
        } else if is_name(s, "warn") || is_name(s, "warning") {
            Some(LogLevel::Warn)
        } else if is_name(s, "error") {
            Some(LogLevel::Error)
        } else {
            None
        }
    }

    pub fn as_filter_str(self) -> (word: &'static str)
        ensures
            word@ == self.filter_text(),
    {
        match self {
            LogLevel::Trace => "trace",
            LogLevel::Debug => "debug",
            LogLevel::Info => "info",
            LogLevel::Warn => "warn",
            LogLevel::Error => "error",
        }
    }
}

/// The names of the levels: small ASCII letters only.
spec fn level_name(name: Seq<char>) -> bool {
    name == "trace"@ || name == "debug"@ || name == "info"@ || name == "warn"@ || name
        == "warning"@ || name == "error"@
}

proof fn lemma_level_names_are_lowered(name: Seq<char>)
    requires
        level_name(name),
    ensures
        lowered(name) == name,
{
    reveal_strlit("trace");
    reveal_strlit("debug");
    reveal_strlit("info");
    reveal_strlit("warn");
    reveal_strlit("warning");
    reveal_strlit("error");
    assert(lowered(name) =~= name);
}

fn is_name(s: &str, name: &str) -> (r: bool)
    requires
        level_name(name@),
    ensures
        r == (lowered(s@) == name@),
{
    proof {
        lemma_level_names_are_lowered(name@);
        lemma_same_ignoring_ascii_case(s@, name@);
    }
    eq_ignoring_ascii_case(s, name)
}

impl FromStr for LogLevel {
    type Err = ();

    fn from_str(s: &str) -> (r: Result<LogLevel, ()>)
        ensures
            r == (match LogLevel::named(s@) {
                Some(level) => Ok::<LogLevel, ()>(level),
                None => Err(()),
            }),
    {
        match LogLevel::parse(s) {
            Some(level) => Ok(level),
            None => Err(()),
        }
    }
}

} // verus!
