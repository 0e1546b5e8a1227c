//! The ways in which a document can be refused.
use vstd::prelude::*;

verus! {

/// Why a document, a line or a series could not be processed.
#[derive(Clone, Copy, Debug, PartialEq, Eq)]
pub enum DsmrError {
    /// A header, line, value, date, id or unit breaks its grammar; the text
    /// names the cause.
    FormatError(&'static str),
    /// A frame closed without exactly one complete set of gas or electricity
    /// readings, or without its start, date, information type or end.
    IncompleteTelegram,
    /// A line needs an extension that the header did not enable.
    UnsupportedExtension,
    /// An event-log entry lacks its severity, message or date counterpart.
    MissingCorrelation,
    /// An event-log message is not a whole number of hex-digit pairs.
    EncodingError,
}

/// A grammar violation with the given cause.
pub fn parse_error(msg: &'static str) -> (r: DsmrError)
    ensures
        r == DsmrError::FormatError(msg),
{
    DsmrError::FormatError(msg)
}

} // verus!
