//! The command line's options.

use vstd::prelude::*;

verus! {

/// What the command line asks for.
#[derive(Debug, Clone, PartialEq, Eq)]
pub struct Cli {
    /// Docker daemon endpoint, overriding `DOCKER_HOST` and any active Docker context.
    pub docker_host: Option<String>,
    /// Logging verbosity.
    pub log_level: LogLevel,
    /// Do not publish a desktop panel indicator.
    pub no_indicator: bool,
}

/// Verbosity accepted by `--log-level`.
#[derive(Debug, Clone, Copy, PartialEq, Eq)]
pub enum LogLevel {
    Error,
    Warn,
    Info,
    Debug,
    Trace,
}

/// The name of a verbosity.
pub open spec fn level_name(level: LogLevel) -> Seq<char> {
    match level {
        LogLevel::Error => "error"@,
        LogLevel::Warn => "warn"@,
        LogLevel::Info => "info"@,
        LogLevel::Debug => "debug"@,
        LogLevel::Trace => "trace"@,
    }
}

impl LogLevel {
    /// Name understood by `tracing_subscriber`'s env filter.
    #[must_use]
    pub fn as_filter(self) -> (name: &'static str)
        ensures
            name@ == level_name(self),
    {
        match self {
            LogLevel::Error => "error",
            LogLevel::Warn => "warn",
            LogLevel::Info => "info",
            LogLevel::Debug => "debug",
            LogLevel::Trace => "trace",
        }
    }
}

/// Every verbosity has a name of its own.
pub proof fn law_levels_have_their_own_names(level: LogLevel)
    ensures
        level_name(level) == "error"@ <==> level is Error,
        level_name(level) == "warn"@ <==> level is Warn,
        level_name(level) == "info"@ <==> level is Info,
        level_name(level) == "debug"@ <==> level is Debug,
        level_name(level) == "trace"@ <==> level is Trace,
{
    reveal_strlit("error");
    reveal_strlit("warn");
    reveal_strlit("info");
    reveal_strlit("debug");
    reveal_strlit("trace");
    assert("error"@[0] == 'e' && "warn"@[0] == 'w' && "info"@[0] == 'i' && "debug"@[0] == 'd'
        && "trace"@[0] == 't');
}

} // verus!
