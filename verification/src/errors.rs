//! The ways in which a run can fail.

use vstd::prelude::*;

verus! {

/// Why a run stopped. A run that fails returns one of these and no scores.
#[derive(Debug, Clone, Copy, PartialEq, Eq, Structural)]
pub enum HistDiffError {
    /// The table could not be opened or read.
    IoError,
    /// The header row is malformed.
    HeaderParseError,
    /// An identifier column is absent from the header.
    MissingIdColumn,
    /// A feature has no pooled control in the block being scored.
    MissingControl,
    /// The control vector and the experimental rows differ in length, or there
    /// are no experimental rows.
    ShapeMismatch,
}

impl HistDiffError {
    /// A one-line description of the failure.
    pub fn message(&self) -> (text: &'static str)
        ensures
            text@ == match *self {
                HistDiffError::IoError => "the table cannot be opened or read"@,
                HistDiffError::HeaderParseError => "the header row is malformed"@,
                HistDiffError::MissingIdColumn => "an identifier column is not in the header"@,
                HistDiffError::MissingControl => "a feature has no control in its block"@,
                HistDiffError::ShapeMismatch => "the score inputs differ in shape"@,
            },
    {
        match self {
            HistDiffError::IoError => "the table cannot be opened or read",
            HistDiffError::HeaderParseError => "the header row is malformed",
            HistDiffError::MissingIdColumn => "an identifier column is not in the header",
            HistDiffError::MissingControl => "a feature has no control in its block",
            HistDiffError::ShapeMismatch => "the score inputs differ in shape",
        }
    }
}

} // verus!
