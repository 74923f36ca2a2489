//! Log levels and the level filter.
use vstd::prelude::*;

verus! {

/// Log levels, from most to least severe.
#[derive(Debug, Clone, Copy, PartialEq, Eq, Structural)]
pub enum LogLevel {
    /// Critical errors
    Error,
    /// Warnings
    Warn,
    /// Informational messages
    Info,
    /// Debugging information
    Debug,
    /// Very verbose tracing
    Trace,
}

impl LogLevel {
    /// Numeric value of a level (Error = 0 ... Trace = 4).
    pub open spec fn spec_value(self) -> u8 {
        match self {
            LogLevel::Error => 0,
            LogLevel::Warn => 1,
            LogLevel::Info => 2,
            LogLevel::Debug => 3,
            LogLevel::Trace => 4,
        }
    }

    /// Numeric value of a level.
    pub fn value(self) -> (r: u8)
        ensures
            r == self.spec_value(),
    {
        match self {
            LogLevel::Error => 0,
            LogLevel::Warn => 1,
            LogLevel::Info => 2,
            LogLevel::Debug => 3,
            LogLevel::Trace => 4,
        }
    }

    /// The name of the level.
    pub fn as_str(&self) -> (r: &'static str)
        ensures
            *self == LogLevel::Error ==> r@ == "ERROR"@,
            *self == LogLevel::Warn ==> r@ == "WARN"@,
            *self == LogLevel::Info ==> r@ == "INFO"@,
            *self == LogLevel::Debug ==> r@ == "DEBUG"@,
            *self == LogLevel::Trace ==> r@ == "TRACE"@,
    {
        match self {
            LogLevel::Error => "ERROR",
            LogLevel::Warn => "WARN",
            LogLevel::Info => "INFO",
            LogLevel::Debug => "DEBUG",
            LogLevel::Trace => "TRACE",
        }
    }
}

/// The global level filter: messages at or below this level are logged.
#[derive(Debug, Clone, Copy, PartialEq, Eq, Structural)]
pub struct LogFilter {
    /// Stored level value
    pub level: u8,
}

impl LogFilter {
    /// The filter at boot: Info.
    pub fn new() -> (r: Self)
        ensures
            r.level == LogLevel::Info.spec_value(),
    {
        LogFilter { level: 2 }
    }
}

/// Decode a stored level; unknown values read as Info.
pub open spec fn spec_decode_level(v: u8) -> LogLevel {
    if v == 0 {
        LogLevel::Error
    } else if v == 1 {
        LogLevel::Warn
    } else if v == 2 {
        LogLevel::Info
    } else if v == 3 {
        LogLevel::Debug
    } else if v == 4 {
        LogLevel::Trace
    } else {
        LogLevel::Info
    }
}

/// Set the global log level.
pub fn set_log_level(filter: &mut LogFilter, level: LogLevel)
    ensures
        final(filter).level == level.spec_value(),
{
    filter.level = level.value();
}

/// The current global log level.
pub fn get_log_level(filter: &LogFilter) -> (r: LogLevel)
    ensures
        r == spec_decode_level(filter.level),
{
    match filter.level {
        0 => LogLevel::Error,
        1 => LogLevel::Warn,
        2 => LogLevel::Info,
        3 => LogLevel::Debug,
        4 => LogLevel::Trace,
        _ => LogLevel::Info,
    }
}

/// Whether a message at `level` passes the filter.
pub fn should_log(filter: &LogFilter, level: LogLevel) -> (r: bool)
    ensures
        r == (level.spec_value() <= spec_decode_level(filter.level).spec_value()),
{
    level.value() <= get_log_level(filter).value()
}

/// A level that was set is read back unchanged.
pub proof fn lemma_set_get_level(level: LogLevel)
    ensures
        spec_decode_level(level.spec_value()) == level,
{
}

} // verus!
