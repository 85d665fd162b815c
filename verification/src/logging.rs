//! Log levels and the rule that decides which messages a sink accepts.
//! The sink itself, with its file handle and its environment lookups,
//! lives with the process harness; the core only ranks levels.

use vstd::prelude::*;
use vstd::string::*;
use crate::text;

verus! {

/// The severity levels, most severe first.
#[derive(Clone, Copy, Debug, PartialEq, Eq, Structural)]
pub enum LogLevel {
    Error,
    Warning,
    Info,
    Debug,
}

impl LogLevel {
    /// The rank of this level: a sink configured at a rank accepts
    /// every message ranked at or below it.
    pub open spec fn spec_rank(self) -> u8 {
        match self {
            LogLevel::Error => 0,
            LogLevel::Warning => 1,
            LogLevel::Info => 2,
            LogLevel::Debug => 3,
        }
    }

    /// The rank of this level.
    pub fn rank(&self) -> (r: u8)
        ensures
            r == self.spec_rank(),
    {
        match self {
            LogLevel::Error => 0,
            LogLevel::Warning => 1,
            LogLevel::Info => 2,
            LogLevel::Debug => 3,
        }
    }

    /// The name of this level, as written in front of each message.
    pub fn label(&self) -> (r: String)
        ensures
            r@ == self.spec_label(),
    {
        match self {
            LogLevel::Error => "Error".to_owned(),
            LogLevel::Warning => "Warning".to_owned(),
            LogLevel::Info => "Info".to_owned(),
            LogLevel::Debug => "Debug".to_owned(),
        }
    }

    /// The name of this level, as a specification value.
    pub open spec fn spec_label(self) -> Seq<char> {
        match self {
            LogLevel::Error => "Error"@,
            LogLevel::Warning => "Warning"@,
            LogLevel::Info => "Info"@,
            LogLevel::Debug => "Debug"@,
        }
    }
}

/// Whether a sink configured at `configured` accepts a message at
/// `message_level`.
pub fn should_log(configured: LogLevel, message_level: LogLevel) -> (r: bool)
    ensures
        r == (configured.spec_rank() >= message_level.spec_rank()),
{
    configured.rank() >= message_level.rank()
}

/// The level named by `s`: the three explicit names, and `Debug` for
/// everything else, the missing value included.
pub open spec fn spec_parse_level(s: Seq<char>) -> LogLevel {
    if s == "ERROR"@ {
        LogLevel::Error
    } else if s == "WARNING"@ {
        LogLevel::Warning
    } else if s == "INFO"@ {
        LogLevel::Info
    } else {
        LogLevel::Debug
    }
}

/// Parses a level name.
pub fn parse_level(s: &str) -> (r: LogLevel)
    ensures
        r == spec_parse_level(s@),
{
    proof {
        reveal_strlit("ERROR");
        reveal_strlit("WARNING");
        reveal_strlit("INFO");
    }
    if text::str_eq(s, "ERROR") {
        LogLevel::Error
    } else if text::str_eq(s, "WARNING") {
        LogLevel::Warning
    } else if text::str_eq(s, "INFO") {
        LogLevel::Info
    } else {
        LogLevel::Debug
    }
}

} // verus!
