//! How much is logged, and where.

use vstd::prelude::*;

use crate::text::{chars_of, copy, lowered, lowered_of, same, string_of};

verus! {

/// Daily files kept before the oldest is pruned.
pub const LOG_FILES_KEPT: usize = 7;

/// How bad a record has to be, or how chatty it may be.
#[derive(Debug, Clone, Copy, PartialEq, Eq, Structural)]
pub enum Level {
    Error,
    Warn,
    Info,
    Debug,
    Trace,
}

/// The name a level is written with.
pub open spec fn level_name(level: Level) -> Seq<char> {
    match level {
        Level::Error => "ERROR"@,
        Level::Warn => "WARN"@,
        Level::Info => "INFO"@,
        Level::Debug => "DEBUG"@,
        Level::Trace => "TRACE"@,
    }
}

/// The level a name means, in either case of the ASCII letters.
pub open spec fn level_named(name: Seq<char>) -> Option<Level> {
    let name = lowered(name);
    if name == "error"@ {
        Some(Level::Error)
    } else if name == "warn"@ {
        Some(Level::Warn)
    } else if name == "info"@ {
        Some(Level::Info)
    } else if name == "debug"@ {
        Some(Level::Debug)
    } else if name == "trace"@ {
        Some(Level::Trace)
    } else {
        None
    }
}

impl Level {
    pub fn name(&self) -> (out: &'static str)
        ensures
            out@ == level_name(*self),
    {
        match self {
            Level::Error => "ERROR",
            Level::Warn => "WARN",
            Level::Info => "INFO",
            Level::Debug => "DEBUG",
            Level::Trace => "TRACE",
        }
    }

    pub fn from_name(name: &str) -> (out: Option<Level>)
        ensures
            out == level_named(name@),
    {
        let lower = string_of(&lowered_of(&chars_of(name)));
        if same(&lower, "error") {
            Some(Level::Error)
        } else if same(&lower, "warn") {
            Some(Level::Warn)
        } else if same(&lower, "info") {
            Some(Level::Info)
        } else if same(&lower, "debug") {
            Some(Level::Debug)
        } else if same(&lower, "trace") {
            Some(Level::Trace)
        } else {
            None
        }
    }
}

#[derive(Debug, Clone, Copy, PartialEq, Eq, Structural)]
pub struct Logger {
    pub log_level: Level,
}

impl Default for Logger {
    /// `Info`: the level has to be safe where `Debug` would trace HTTP bodies.
    fn default() -> (out: Self)
        ensures
            out.log_level == Level::Info,
    {
        Logger { log_level: Level::Info }
    }
}

/// Where the log goes: the current directory in a debug build, so a developer sees it appear next to
/// the code, and the configuration's directory otherwise.
pub fn log_dir(debug_build: bool, config_dir: &str) -> (out: String)
    ensures
        out@ == if debug_build {
            "."@
        } else {
            config_dir@
        },
{
    if debug_build {
        copy(".")
    } else {
        copy(config_dir)
    }
}

/// A level is read back from the name it is written with.
pub proof fn law_levels_round_trip_through_their_names(level: Level)
    ensures
        level_named(level_name(level)) == Some(level),
{
    reveal_strlit("ERROR");
    reveal_strlit("WARN");
    reveal_strlit("INFO");
    reveal_strlit("DEBUG");
    reveal_strlit("TRACE");
    reveal_strlit("error");
    reveal_strlit("warn");
    reveal_strlit("info");
    reveal_strlit("debug");
    reveal_strlit("trace");
    match level {
        Level::Error => {
            assert(lowered("ERROR"@) =~= "error"@);
        },
        Level::Warn => {
            assert(lowered("WARN"@) =~= "warn"@);
            assert("warn"@.len() == 4 && "error"@.len() == 5);
        },
        Level::Info => {
            assert(lowered("INFO"@) =~= "info"@);
            assert("info"@[0] == 'i' && "warn"@[0] == 'w');
            assert("info"@.len() == 4 && "error"@.len() == 5);
        },
        Level::Debug => {
            assert(lowered("DEBUG"@) =~= "debug"@);
            assert("debug"@[0] == 'd' && "error"@[0] == 'e');
            assert("debug"@.len() == 5 && "warn"@.len() == 4 && "info"@.len() == 4);
        },
        Level::Trace => {
            assert(lowered("TRACE"@) =~= "trace"@);
            assert("trace"@[0] == 't' && "error"@[0] == 'e' && "debug"@[0] == 'd');
            assert("trace"@.len() == 5 && "warn"@.len() == 4 && "info"@.len() == 4);
        },
    }
}

/// A level is known by its name in whatever case it is written, and by no other.
pub proof fn law_a_level_is_known_by_its_name_in_any_case(name: Seq<char>, level: Level)
    ensures
        level_named(name) == Some(level) <==> lowered(name) == lowered(level_name(level)),
        level_name(Level::Error) == "ERROR"@,
        level_name(Level::Warn) == "WARN"@,
        level_name(Level::Info) == "INFO"@,
        level_name(Level::Debug) == "DEBUG"@,
        level_name(Level::Trace) == "TRACE"@,
{
    law_levels_round_trip_through_their_names(level);
    reveal_strlit("ERROR");
    reveal_strlit("WARN");
    reveal_strlit("INFO");
    reveal_strlit("DEBUG");
    reveal_strlit("TRACE");
    reveal_strlit("error");
    reveal_strlit("warn");
    reveal_strlit("info");
    reveal_strlit("debug");
    reveal_strlit("trace");
    assert(lowered("ERROR"@) =~= "error"@);
    assert(lowered("WARN"@) =~= "warn"@);
    assert(lowered("INFO"@) =~= "info"@);
    assert(lowered("DEBUG"@) =~= "debug"@);
    assert(lowered("TRACE"@) =~= "trace"@);
}

} // verus!
