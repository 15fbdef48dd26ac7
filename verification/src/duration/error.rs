//! Duration failures.

use vstd::prelude::*;
use vstd::string::*;

verus! {

/// Why a text is no duration.
#[derive(Debug)]
pub enum DurationError {
    /// The text holds no part.
    Empty,
    /// A unit stands without a number before it.
    MissingNumber {
        /// The text without surrounding whitespace.
        input: String,
    },
    /// A number is malformed, too large, or negative past the first part.
    InvalidNumber {
        /// The text without surrounding whitespace.
        input: String,
    },
    /// A number stands without a unit after it.
    MissingUnit {
        /// The text without surrounding whitespace.
        input: String,
    },
    /// A unit is none of the known spellings.
    UnknownUnit {
        /// The text without surrounding whitespace.
        input: String,
    },
    /// The total number of seconds is no finite number.
    NonFiniteSeconds,
}

/// The reasons for which a text is refused.
pub enum DurationFault {
    /// There is no part.
    Empty,
    /// A part has no number.
    MissingNumber,
    /// A part has a number that is not accepted.
    InvalidNumber,
    /// A part has no unit.
    MissingUnit,
    /// A part has an unknown unit.
    UnknownUnit,
}

impl DurationError {
    /// This error reports `fault` in the text `input`.
    pub open spec fn reports(self, fault: DurationFault, input: Seq<char>) -> bool {
        match (self, fault) {
            (DurationError::Empty, DurationFault::Empty) => true,
            (DurationError::MissingNumber { input: text }, DurationFault::MissingNumber) => text@
                == input,
            (DurationError::InvalidNumber { input: text }, DurationFault::InvalidNumber) => text@
                == input,
            (DurationError::MissingUnit { input: text }, DurationFault::MissingUnit) => text@
                == input,
            (DurationError::UnknownUnit { input: text }, DurationFault::UnknownUnit) => text@
                == input,
            _ => false,
        }
    }

    /// The text that describes this error.
    pub open spec fn message_text(self) -> Seq<char> {
        match self {
            DurationError::Empty => "duration is empty"@,
            DurationError::MissingNumber { input } => "no number before unit in `"@ + input@ + "`"@,
            DurationError::InvalidNumber { input } => "invalid number in `"@ + input@ + "`"@,
            DurationError::MissingUnit { input } => "no unit after number in `"@ + input@ + "`"@,
            DurationError::UnknownUnit { input } => "unknown unit in `"@ + input@ + "`"@,
            DurationError::NonFiniteSeconds => "duration seconds must be finite"@,
        }
    }

    /// Describes this error.
    pub fn message(&self) -> (text: String)
        ensures
            text@ == self.message_text(),
    {
        match self {
            DurationError::Empty => "duration is empty".to_owned(),
            DurationError::MissingNumber { input } => "no number before unit in `".to_owned().concat(
                input.as_str(),
            ).concat("`"),
            DurationError::InvalidNumber { input } => "invalid number in `".to_owned().concat(
                input.as_str(),
            ).concat("`"),
            DurationError::MissingUnit { input } => "no unit after number in `".to_owned().concat(
                input.as_str(),
            ).concat("`"),
            DurationError::UnknownUnit { input } => "unknown unit in `".to_owned().concat(
                input.as_str(),
            ).concat("`"),
            DurationError::NonFiniteSeconds => "duration seconds must be finite".to_owned(),
        }
    }
}

} // verus!
