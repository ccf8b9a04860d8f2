//! The errors of this library.

use vstd::prelude::*;

use crate::rule::ValidationError;

verus! {

/// Why a text is not a recurrence set.
#[derive(Clone, Copy, Debug, PartialEq, Eq, Structural)]
pub enum SyntaxError {
    /// The text holds a character outside ASCII.
    NotAscii,
    /// The text holds no line that states the start.
    MissingStart,
    /// A line has no colon between its name and its value.
    MissingColon,
    /// A line starts with a name that is none of the known properties.
    UnknownProperty,
    /// A date or time is not written as digits in one of the known forms,
    /// or names a date or time that does not exist.
    BadDate,
    /// The zone named by a parameter is not known.
    UnknownZone,
    /// A part of a rule is not of the form name, equals sign, value.
    BadRulePart,
    /// A rule part has a name that is none of the known ones.
    UnknownRulePart,
    /// A frequency is none of the seven known ones.
    BadFrequency,
    /// A number is missing, malformed or too large.
    BadNumber,
    /// A weekday is none of the seven known ones.
    BadWeekday,
    /// A rule does not state its frequency.
    MissingFrequency,
}

/// What can go wrong with a recurrence set.
#[derive(Clone, Copy, Debug, PartialEq, Eq, Structural)]
pub enum RRuleError {
    /// The text of the set could not be read.
    ParserError(SyntaxError),
    /// A rule of the set is not valid.
    ValidationError(ValidationError),
    /// More candidates in a row than the given bound were excluded.
    IterError(u32),
}

impl RRuleError {
    /// The error for a generation that gave up after `limit` excluded
    /// candidates in a row.
    pub fn new_iter_err(limit: u32) -> (r: RRuleError)
        ensures
            r == RRuleError::IterError(limit),
    {
        RRuleError::IterError(limit)
    }
}

} // verus!
