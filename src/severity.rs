//! Severity levels of log messages.

use vstd::prelude::*;

verus! {

/// How severe a log message is, from the most severe to the least.
#[derive(Debug, Clone, Copy, PartialEq, Eq, Structural)]
pub enum SeverityLevel {
    Emergency,
    Alert,
    Critical,
    Error,
    Warning,
    Notice,
    Info,
    Debug,
    Trace,
}

/// A number that names no severity level.
#[derive(Debug)]
pub enum SeverityLevelParseError {
    UnknownValue { value: usize },
}

/// The level of rank `n` (0 = emergency, ..., 8 = trace).
pub open spec fn level_of_rank(n: int) -> Option<SeverityLevel> {
    if n == 0 {
        Some(SeverityLevel::Emergency)
    } else if n == 1 {
        Some(SeverityLevel::Alert)
    } else if n == 2 {
        Some(SeverityLevel::Critical)
    } else if n == 3 {
        Some(SeverityLevel::Error)
    } else if n == 4 {
        Some(SeverityLevel::Warning)
    } else if n == 5 {
        Some(SeverityLevel::Notice)
    } else if n == 6 {
        Some(SeverityLevel::Info)
    } else if n == 7 {
        Some(SeverityLevel::Debug)
    } else if n == 8 {
        Some(SeverityLevel::Trace)
    } else {
        None
    }
}

impl SeverityLevel {
    /// The rank of the level: 0 for the most severe, 8 for the least.
    pub open spec fn rank(self) -> nat {
        match self {
            SeverityLevel::Emergency => 0,
            SeverityLevel::Alert => 1,
            SeverityLevel::Critical => 2,
            SeverityLevel::Error => 3,
            SeverityLevel::Warning => 4,
            SeverityLevel::Notice => 5,
            SeverityLevel::Info => 6,
            SeverityLevel::Debug => 7,
            SeverityLevel::Trace => 8,
        }
    }

    /// The level of a rank, which must lie in `0..=8`.
    pub fn try_from(value: usize) -> (r: Result<SeverityLevel, SeverityLevelParseError>)
        ensures
            r matches Ok(l) ==> level_of_rank(value as int) == Some(l) && l.rank() == value,
            r is Err <==> value > 8,
            r matches Err(SeverityLevelParseError::UnknownValue { value: v }) ==> v == value,
    {
        match value {
            0 => Ok(SeverityLevel::Emergency),
            1 => Ok(SeverityLevel::Alert),
            2 => Ok(SeverityLevel::Critical),
            3 => Ok(SeverityLevel::Error),
            4 => Ok(SeverityLevel::Warning),
            5 => Ok(SeverityLevel::Notice),
            6 => Ok(SeverityLevel::Info),
            7 => Ok(SeverityLevel::Debug),
            8 => Ok(SeverityLevel::Trace),
            _ => Err(SeverityLevelParseError::UnknownValue { value }),
        }
    }

    /// The level's name, as printed in front of each log line.
    pub fn name(&self) -> (r: &'static str)
        ensures
            r@ == level_name(*self),
    {
        match self {
            SeverityLevel::Emergency => "Emergency",
            SeverityLevel::Alert => "Alert",
            SeverityLevel::Critical => "Critical",
            SeverityLevel::Error => "Error",
            SeverityLevel::Warning => "Warning",
            SeverityLevel::Notice => "Notice",
            SeverityLevel::Info => "Info",
            SeverityLevel::Debug => "Debug",
            SeverityLevel::Trace => "Trace",
        }
    }
}

pub open spec fn level_name(l: SeverityLevel) -> Seq<char> {
    match l {
        SeverityLevel::Emergency => "Emergency"@,
        SeverityLevel::Alert => "Alert"@,
        SeverityLevel::Critical => "Critical"@,
        SeverityLevel::Error => "Error"@,
        SeverityLevel::Warning => "Warning"@,
        SeverityLevel::Notice => "Notice"@,
        SeverityLevel::Info => "Info"@,
        SeverityLevel::Debug => "Debug"@,
        SeverityLevel::Trace => "Trace"@,
    }
}

} // verus!
