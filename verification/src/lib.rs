//! Expansion of calendar recurrence rules into ordered sequences of instants.
//!
//! A recurrence set holds an anchor, rules and explicit instants to include,
//! and rules and explicit instants to exclude. The generator of a rule walks
//! the periods of its frequency and hands out the instants that its
//! by-fields admit; the merge of a set draws on the generators of its rules
//! and on its explicit instants and hands out, in ascending order and once
//! each, the instants that are not excluded.
//!
//! What a generator hands out is stated in `sequence`, when a merge gives
//! up in `failure`, what holds of every run of a merge in `run`, and that
//! what is collected from a set is determined by the set in `window`.
//!
//! The calendar is computed here. The offsets of time zones come from the
//! zone database behind the few trusted functions of `zone`, and RFC 3339
//! text is read and written behind those of `instant` and `generator`.

pub mod cache;
pub mod calendar;
pub mod error;
pub mod expand;
pub mod failure;
pub mod generator;
pub mod instant;
pub mod iter;
pub mod parse;
pub mod rruleset_iter;
pub mod rule;
pub mod run;
pub mod sequence;
pub mod set;
pub mod text;
pub mod window;
pub mod zone;

pub use crate::error::{RRuleError, SyntaxError};
pub use crate::generator::{RecurrenceGenerator, RecurrenceGeneratorError, StringArray};
pub use crate::instant::Instant;
pub use crate::iter::RRuleIter;
pub use crate::rruleset_iter::{RRuleSetIter, Step};
pub use crate::rule::{Frequency, NWeekday, RRule, ValidationError, Weekday};
pub use crate::set::{RRuleResult, RRuleSet};
pub use crate::zone::Tz;
