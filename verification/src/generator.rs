//! Recurrences between two instants given as text, for callers that hold
//! rules and dates as strings.

use vstd::prelude::*;

use vstd::string::StringSliceAdditionalSpecFns;

use crate::error::{RRuleError, SyntaxError};
use crate::instant::{shown_as, Instant};
use crate::parse::{parse_set, set_of, set_read, start_zone};
use crate::rruleset_iter::all_ready;
use crate::rule::{RRule, RuleSpec};
use crate::set::{ascending, has_ts, in_bounds, views, RRuleSet, SetSpec};
use crate::zone::Tz;

verus! {

/// The most occurrences that are generated for one rule or one request.
pub const MAX_OCCURRENCES_COUNT: u16 = 730;

/// The most occurrences that are handed to a caller of
/// `get_all_recurrences_between`.
pub const MAX_RESULT_LIMIT: u16 = 1000;

/// The error of `chrono::DateTime::parse_from_rfc3339`, carried through
/// as it is.
#[verifier::external_type_specification]
#[verifier::external_body]
pub struct ExParseError(chrono::ParseError);

/// The absolute second that `chrono::DateTime::parse_from_rfc3339` reads
/// from a text, if it reads one.
pub uninterp spec fn rfc3339_value(text: Seq<char>) -> Option<i64>;

/// Calls `chrono::DateTime::parse_from_rfc3339` and, where it succeeds,
/// `chrono::DateTime::timestamp` on what it gives. The contract only gives
/// the outcome its name: it is a function of the text alone.
#[verifier::external_body]
fn rfc3339_seconds(text: &str) -> (r: Result<i64, chrono::ParseError>)
    ensures
        r matches Ok(v) ==> rfc3339_value(text@) == Some(v),
        r is Err ==> rfc3339_value(text@) is None,
{
    match chrono::DateTime::parse_from_rfc3339(text) {
        Ok(d) => Ok(d.timestamp()),
        Err(e) => Err(e),
    }
}

/// Why recurrences could not be generated.
#[derive(Clone, Copy, Debug, PartialEq, Eq, Structural)]
pub enum RecurrenceGeneratorError {
    /// The rules or one of the two dates could not be read.
    Parsing,
}

/// Generation of recurrences from text.
pub struct RecurrenceGenerator;

/// A list of texts, one for each recurrence.
pub struct StringArray {
    pub strings: Vec<String>,
}

/// The instant that a text in RFC 3339 form stands for, shown in UTC, if
/// the text is of that form. The instant may lie outside the years in which
/// rules are expanded: it serves as a bound, and bounds are compared by
/// their second alone.
pub open spec fn date_of_text(text: Seq<char>) -> Option<Instant> {
    match rfc3339_value(text) {
        Some(v) => Some(Instant { ts: v, tz: Tz::Utc }),
        None => None,
    }
}

/// The texts are the RFC 3339 forms of the instants, one for one.
pub open spec fn texts_of(strings: Seq<String>, dates: Seq<Instant>) -> bool {
    &&& strings.len() == dates.len()
    &&& forall|i: int| 0 <= i < dates.len() ==> shown_as(dates[i], (#[trigger] strings[i])@)
}

/// The rule as it is generated for a request with the given count: with
/// that count where one is given, else with its own count cut down to
/// `MAX_OCCURRENCES_COUNT`.
pub open spec fn count_limited(rule: RuleSpec, count: Option<u32>) -> RuleSpec {
    RuleSpec {
        count: match count {
            Some(c) => Some(c),
            None => match rule.count {
                Some(n) => if n > 730 {
                    Some(730u32)
                } else {
                    Some(n)
                },
                None => Some(730u32),
            },
        },
        ..rule
    }
}

/// The set as it is generated for a request with the given count: each
/// inclusion rule with the count that the request asks for.
pub open spec fn request_of(spec: SetSpec, count: Option<u32>) -> SetSpec {
    SetSpec {
        rrule: Seq::new(spec.rrule.len(), |i: int| count_limited(spec.rrule[i], count)),
        ..spec
    }
}

/// The texts are those of some instants that collecting from the set
/// within the bounds gives.
pub open spec fn texts_result(
    spec: SetSpec,
    after: Option<Instant>,
    before: Option<Instant>,
    cap: int,
    texts: Seq<String>,
) -> bool {
    exists|dates: Seq<Instant>| #[trigger]
        texts_of(texts, dates) && spec.window_result(after, before, cap, 100000, dates)
}

/// The texts are those of instants of a request for the set, whatever the
/// zone of its anchor: the instants ascend, lie within the bounds, are at no
/// explicit excluded second of the set, and are shown as a source of the set
/// has them. Where the one source of the set is a rule, they are no more
/// than the count with which the rule is generated for the request.
pub open spec fn texts_fit(
    set: RRuleSet,
    count: Option<u32>,
    after: Option<Instant>,
    before: Option<Instant>,
    texts: Seq<String>,
) -> bool {
    &&& texts.len() <= 1000
    &&& (set.rrule@.len() == 1 && set.rdate@.len() == 0 ==> texts.len() <= count_limited(
        set.rrule@[0]@,
        count,
    ).count->0)
    &&& exists|dates: Seq<Instant>| #[trigger]
        texts_of(texts, dates) && ascending(dates) && forall|k: int|
            0 <= k < dates.len() ==> (#[trigger] dates[k]).wf() && in_bounds(
                after,
                before,
                dates[k].ts,
            ) && !has_ts(set.exdate@, dates[k].ts) && set.content().from_source(dates[k])
}

/// What a request for the recurrences of a text gives, whatever the zone
/// of its anchor. Texts are given only for a set that the text is read as
/// and for bounds that are read, and they fit the request. A refusal is one
/// of the reading of the text, or it is `BadDate` for a bound that cannot be
/// read, and then the text was read as a set: the text comes first.
pub open spec fn request_read(
    rules: &str,
    after: &str,
    before: &str,
    count: Option<u32>,
    r: Result<Vec<String>, RRuleError>,
) -> bool {
    let bounds = date_of_text(after@) is Some && date_of_text(before@) is Some;
    match r {
        Ok(texts) => bounds && exists|set: RRuleSet| #[trigger]
            set_read(rules, Ok(set)) && texts_fit(
                set,
                count,
                date_of_text(after@),
                date_of_text(before@),
                texts@,
            ),
        Err(e) => set_read(rules, Err(e)) || (!bounds && e == RRuleError::ParserError(
            SyntaxError::BadDate,
        ) && exists|set: RRuleSet| #[trigger] set_read(rules, Ok(set))),
    }
}

/// The text comes first: where a text cannot be read as a set, a request
/// is refused with an error of the reading of the text, whatever its bounds
/// are.
pub proof fn lemma_text_comes_first(
    rules: &str,
    after: &str,
    before: &str,
    count: Option<u32>,
    r: Result<Vec<String>, RRuleError>,
)
    requires
        request_read(rules, after, before, count, r),
        forall|set: RRuleSet| !#[trigger] set_read(rules, Ok(set)),
    ensures
        r matches Err(e) && set_read(rules, Err(e)),
{
}

impl StringArray {
    /// The number of texts.
    pub fn len(&self) -> (r: usize)
        ensures
            r == self.strings@.len(),
    {
        self.strings.len()
    }
}

/// Writes each instant in RFC 3339 form.
pub fn dates_to_string_array(dates: &Vec<Instant>) -> (r: StringArray)
    requires
        forall|i: int| 0 <= i < dates@.len() ==> (#[trigger] dates@[i]).wf(),
    ensures
        texts_of(r.strings@, dates@),
{
    let mut strings: Vec<String> = Vec::new();
    let mut i: usize = 0;
    while i < dates.len()
        invariant
            i <= dates@.len(),
            forall|k: int| 0 <= k < dates@.len() ==> (#[trigger] dates@[k]).wf(),
            texts_of(strings@, dates@.subrange(0, i as int)),
        decreases dates@.len() - i,
    {
        let text = dates[i].to_rfc3339();
        strings.push(text);
        proof {
            let more = dates@.subrange(0, i + 1);
            assert forall|k: int| 0 <= k < more.len() implies shown_as(
                more[k],
                (#[trigger] strings@[k])@,
            ) by {}
        }
        i = i + 1;
    }
    StringArray { strings }
}

/// Gives every rule the count that a request with the given count asks for.
pub fn limit_counts(rules: &Vec<RRule>, count: Option<u32>) -> (r: Vec<RRule>)
    ensures
        r@.len() == rules@.len(),
        forall|i: int| 0 <= i < r@.len() ==> (#[trigger] r@[i])@ == count_limited(rules@[i]@, count),
        all_ready(rules@) ==> all_ready(r@),
{
    let mut out: Vec<RRule> = Vec::new();
    let mut i: usize = 0;
    while i < rules.len()
        invariant
            i <= rules@.len(),
            out@.len() == i,
            forall|k: int|
                0 <= k < i ==> (#[trigger] out@[k])@ == count_limited(rules@[k]@, count),
            all_ready(rules@) ==> all_ready(out@),
        decreases rules@.len() - i,
    {
        let mut rule = rules[i].duplicate();
        let max: u32 = 730;
        match count {
            Some(c) => {
                rule.count = Some(c);
            },
            None => {
                let over: bool = match rule.count {
                    Some(n) => n > max,
                    None => true,
                };
                if over {
                    rule.count = Some(max);
                }
            },
        }
        out.push(rule);
        proof {
            if all_ready(rules@) {
                assert forall|k: int| 0 <= k < out@.len() implies (#[trigger] out@[k]).ready() by {}
            }
        }
        i = i + 1;
    }
    out
}

/// The texts are those of ascending instants within the window of the
/// set that are at no explicit excluded second of it and are shown as a
/// source of the set has them.
pub open spec fn texts_fit_set(set: RRuleSet, texts: Seq<String>) -> bool {
    exists|dates: Seq<Instant>| #[trigger]
        texts_of(texts, dates) && ascending(dates) && forall|k: int|
            0 <= k < dates.len() ==> (#[trigger] dates[k]).wf() && set.in_window(dates[k].ts)
                && !has_ts(set.exdate@, dates[k].ts) && set.content().from_source(dates[k])
}

/// Collects up to `MAX_RESULT_LIMIT` recurrences of a set, in RFC 3339 form.
pub fn get_all_recurrences_for(set: RRuleSet) -> (r: Vec<String>)
    requires
        set.wf(),
    ensures
        r@.len() <= 1000,
        set.lone_count() matches Some(c) ==> r@.len() <= c,
        texts_fit_set(set, r@),
        set.dt_start.tz.is_fixed() ==> texts_result(
            set.content(),
            set.after,
            set.before,
            1000,
            r@,
        ),
{
    let found = set.all(MAX_RESULT_LIMIT);
    let texts = dates_to_string_array(&found.dates);
    texts.strings
}

impl RecurrenceGenerator {
    /// Reads a date in RFC 3339 form as an instant shown in UTC.
    pub fn parse_date(string: &str) -> (r: Result<Instant, RecurrenceGeneratorError>)
        ensures
            r == (match date_of_text(string@) {
                Some(i) => Ok::<Instant, RecurrenceGeneratorError>(i),
                None => Err(RecurrenceGeneratorError::Parsing),
            }),
    {
        match rfc3339_seconds(string) {
            Ok(ts) => Ok(Instant { ts, tz: Tz::Utc }),
            Err(_) => Err(RecurrenceGeneratorError::Parsing),
        }
    }

    /// Collects up to `MAX_OCCURRENCES_COUNT` recurrences of a set from
    /// `after` on and before `before`, both given in RFC 3339 form.
    pub fn dates_between(set: RRuleSet, after: &str, before: &str) -> (r: Result<
        Vec<Instant>,
        RecurrenceGeneratorError,
    >)
        requires
            set.wf(),
        ensures
            r is Ok <==> date_of_text(after@) is Some && date_of_text(before@) is Some,
            r matches Ok(dates) ==> {
                &&& dates@.len() <= 730
                &&& ascending(dates@)
                &&& forall|k: int|
                    0 <= k < dates@.len() ==> (#[trigger] dates@[k]).wf() && date_of_text(
                        after@,
                    )->0.ts <= dates@[k].ts < date_of_text(before@)->0.ts && !has_ts(
                        set.exdate@,
                        dates@[k].ts,
                    ) && set.content().from_source(dates@[k])
                &&& (set.lone_count() matches Some(c) ==> dates@.len() <= c)
                &&& (set.dt_start.tz.is_fixed() ==> set.content().window_result(
                    date_of_text(after@),
                    date_of_text(before@),
                    730,
                    100000,
                    dates@,
                ))
            },
    {
        let a = match Self::parse_date(after) {
            Ok(i) => i,
            Err(e) => {
                return Err(e);
            },
        };
        let b = match Self::parse_date(before) {
            Ok(i) => i,
            Err(e) => {
                return Err(e);
            },
        };
        let window = set.after(a).before(b);
        let found = window.all(MAX_OCCURRENCES_COUNT);
        Ok(found.dates)
    }

    /// Reads a set from `rules` and collects up to `MAX_OCCURRENCES_COUNT`
    /// of its recurrences from `after` on and before `before`. Any text
    /// that cannot be read gives the one error.
    pub fn recurrence_dates_between(rules: &str, after: &str, before: &str) -> (r: Result<
        Vec<Instant>,
        RecurrenceGeneratorError,
    >)
        ensures
            r is Ok ==> rules.is_ascii() && start_zone(rules.spec_bytes(), rules@) is Ok
                && date_of_text(after@) is Some && date_of_text(before@) is Some,
            r matches Ok(dates) ==> {
                &&& dates@.len() <= 730
                &&& ascending(dates@)
                &&& forall|k: int|
                    0 <= k < dates@.len() ==> (#[trigger] dates@[k]).wf() && date_of_text(
                        after@,
                    )->0.ts <= dates@[k].ts < date_of_text(before@)->0.ts
                &&& exists|set: RRuleSet| #[trigger]
                    set_read(rules, Ok(set)) && (set.lone_count() matches Some(c) ==> dates@.len()
                        <= c) && forall|k: int|
                        0 <= k < dates@.len() ==> !has_ts(set.exdate@, (#[trigger] dates@[k]).ts)
                            && set.content().from_source(dates@[k])
            },
            r is Err ==> (exists|e: RRuleError| #[trigger] set_read(rules, Err(e))) || !(
            date_of_text(after@) is Some && date_of_text(before@) is Some),
            !(date_of_text(after@) is Some && date_of_text(before@) is Some) ==> r is Err,
            rules.is_ascii() ==> (start_zone(rules.spec_bytes(), rules@) matches Ok(tz)
                && tz.is_fixed() ==> (match set_of(rules.spec_bytes(), rules@) {
                Err(_) => r is Err,
                Ok(spec) => (r is Ok <==> date_of_text(after@) is Some && date_of_text(before@)
                    is Some) && (r matches Ok(dates) ==> spec.window_result(
                    date_of_text(after@),
                    date_of_text(before@),
                    730,
                    100000,
                    dates@,
                )),
            })),
    {
        match parse_set(rules) {
            Ok(set) => Self::dates_between(set, after, before),
            Err(_) => Err(RecurrenceGeneratorError::Parsing),
        }
    }
}

/// The contents of the rules once each has the count that a request asks
/// for are the contents with that count.
pub proof fn lemma_request_of(set: RRuleSet, limited: Seq<RRule>, count: Option<u32>)
    requires
        limited.len() == set.rrule@.len(),
        forall|i: int|
            0 <= i < limited.len() ==> (#[trigger] limited[i])@ == count_limited(
                set.rrule@[i]@,
                count,
            ),
    ensures
        views(limited) == request_of(set.content(), count).rrule,
{
}

/// A request with a count of `c` for a set whose one source is a rule gets
/// no more than `c` texts.
pub proof fn lemma_request_count(
    spec: SetSpec,
    c: u32,
    after: Option<Instant>,
    before: Option<Instant>,
    cap: int,
    texts: Seq<String>,
)
    requires
        spec.rrule.len() == 1,
        spec.rdate.len() == 0,
        texts_result(request_of(spec, Some(c)), after, before, cap, texts),
    ensures
        texts.len() <= c,
{
    let asked = request_of(spec, Some(c));
    let dates = choose|dates: Seq<Instant>| #[trigger]
        texts_of(texts, dates) && asked.window_result(after, before, cap, 100000, dates);
    asked.lemma_count_bounds_collected(after, before, cap, 100000, dates, c);
}

/// Gives the inclusion rules of a set the count that the request asks
/// for and collects its recurrences from `after` on and before `before`,
/// in RFC 3339 form.
pub fn recurrences_between(set: RRuleSet, after: &str, before: &str, count: Option<u32>) -> (r:
    Result<Vec<String>, RRuleError>)
    requires
        set.wf(),
    ensures
        r is Ok <==> date_of_text(after@) is Some && date_of_text(before@) is Some,
        r matches Err(e) ==> e == RRuleError::ParserError(SyntaxError::BadDate),
        r matches Ok(texts) ==> texts_fit(
            set,
            count,
            date_of_text(after@),
            date_of_text(before@),
            texts@,
        ),
        r matches Ok(texts) ==> texts@.len() <= 1000 && (set.dt_start.tz.is_fixed()
            ==> texts_result(
            request_of(set.content(), count),
            date_of_text(after@),
            date_of_text(before@),
            1000,
            texts@,
        )),
{
    let a = match RecurrenceGenerator::parse_date(after) {
        Ok(i) => i,
        Err(_) => {
            return Err(RRuleError::ParserError(SyntaxError::BadDate));
        },
    };
    let b = match RecurrenceGenerator::parse_date(before) {
        Ok(i) => i,
        Err(_) => {
            return Err(RRuleError::ParserError(SyntaxError::BadDate));
        },
    };
    let limited = limit_counts(set.get_rrule(), count);
    proof {
        lemma_request_of(set, limited@, count);
    }
    let window = set.set_rrules(limited).after(a).before(b);
    Ok(get_all_recurrences_for(window))
}

/// Reads a set from `rules`, gives its inclusion rules the count that
/// the request asks for, and collects its recurrences from `after` on and
/// before `before`, in RFC 3339 form. Rules that cannot be read give their
/// error, whatever the dates; dates that cannot be read give `BadDate`.
pub fn get_all_recurrences_between(rules: &str, after: &str, before: &str, count: Option<u32>) -> (r:
    Result<Vec<String>, RRuleError>)
    ensures
        request_read(rules, after, before, count, r),
        r matches Ok(texts) ==> texts@.len() <= 1000 && rules.is_ascii() && date_of_text(after@)
            is Some && date_of_text(before@) is Some,
        r matches Err(e) ==> e !is IterError,
        !rules.is_ascii() ==> (r matches Err(e) && e == RRuleError::ParserError(
            SyntaxError::NotAscii,
        )),
        rules.is_ascii() ==> (match start_zone(rules.spec_bytes(), rules@) {
            Err(e) => r matches Err(x) && x == RRuleError::ParserError(e),
            Ok(tz) => tz.is_fixed() ==> (match set_of(rules.spec_bytes(), rules@) {
                Err(e) => r matches Err(x) && x == e,
                Ok(spec) => if date_of_text(after@) is Some && date_of_text(before@) is Some {
                    r matches Ok(texts) && texts_result(
                        request_of(spec, count),
                        date_of_text(after@),
                        date_of_text(before@),
                        1000,
                        texts@,
                    )
                } else {
                    r matches Err(x) && x == RRuleError::ParserError(SyntaxError::BadDate)
                },
            }),
        }),
{
    match parse_set(rules) {
        Ok(set) => recurrences_between(set, after, before, count),
        Err(e) => Err(e),
    }
}

} // verus!
