//! Errors of the log's domain: reading entry lines and pairing them.
use chrono::ParseError as ChronoParseError;
use vstd::prelude::*;

verus! {

/// Errors arising from parsing entry lines or assembling entries.
#[derive(Debug)]
pub enum ParseError {
    EndBeforeStart,
    StartNoEnd,
    DescMismatch,
    TimeFormat(ChronoParseError),
    Malformatted,
    UnknownEntryKind,
}

impl ParseError {
    /// The human-readable message of the error.
    pub fn message(&self) -> (r: &'static str)
        ensures
            r@ == (match self {
                ParseError::EndBeforeStart => "end time is before start time"@,
                ParseError::StartNoEnd => "end not found for start"@,
                ParseError::DescMismatch => "description on pair do not match"@,
                ParseError::TimeFormat(_) => "failed to parse time"@,
                ParseError::Malformatted => "malformatted line"@,
                ParseError::UnknownEntryKind => "unknown entry line keyword"@,
            }),
    {
        match self {
            ParseError::EndBeforeStart => "end time is before start time",
            ParseError::StartNoEnd => "end not found for start",
            ParseError::DescMismatch => "description on pair do not match",
            ParseError::TimeFormat(_) => "failed to parse time",
            ParseError::Malformatted => "malformatted line",
            ParseError::UnknownEntryKind => "unknown entry line keyword",
        }
    }
}

} // verus!
