//! The failures a codec can report. Every parse failure is surfaced as a
//! value so that a caller decides what to do; no library function panics.

use vstd::prelude::*;

verus! {

/// A parse failure of either codec, carrying the offending text.
#[derive(Debug, Clone, PartialEq, Eq)]
pub enum DecodeError {
    /// The identifier token of a task line is not a numeral whose value
    /// fits in `usize`.
    IdParseError(String),
    /// A task line of the grouped format lacks the tokens its shape
    /// requires.
    MalformedLineError(String),
    /// A completion-state token of the grouped format is none of `todo`,
    /// `inprogress`, `done` (compared case-insensitively).
    CompletionParseError(String),
}

/// The mathematical model of a parse failure.
pub ghost enum ErrV {
    IdParse(Seq<char>),
    Malformed(Seq<char>),
    CompletionParse(Seq<char>),
}

impl View for DecodeError {
    type V = ErrV;

    open spec fn view(&self) -> ErrV {
        match self {
            DecodeError::IdParseError(s) => ErrV::IdParse(s@),
            DecodeError::MalformedLineError(s) => ErrV::Malformed(s@),
            DecodeError::CompletionParseError(s) => ErrV::CompletionParse(s@),
        }
    }
}

} // verus!
