//! The generator of a single rule: a cursor that walks the rule's periods
//! and hands out, one at a time, the instants of their candidates.

use vstd::prelude::*;

use crate::calendar::{
    date_of, date_on, days_before_month, days_before_year, days_in_month, lemma_day_of_in_range,
    month_len, month_start, valid_secs, year_start, DAY_LIMIT,
};
use crate::expand::{
    bounded, combine, cross, days_in, listed_in, matching_days, matching_listed, pick_positions,
    row, select,
};
use crate::instant::Instant;
use crate::rule::{Frequency, RRule, RuleSpec};
use crate::sequence::{
    after, emits, gathered, lemma_gather_end, lemma_gather_start, lemma_gather_step,
    lemma_pull_step, pull, rule_config, rule_start,
};
use crate::zone::{Tz, MAX_TS, MIN_TS};

verus! {

/// The number of excluded candidates in a row at which a source of a merge
/// gives up, unless another bound is asked for.
pub const MAX_ITER_LOOP: u32 = 100000;

/// Why a generator hands out nothing more.
#[derive(Clone, Copy, Debug, PartialEq, Eq, Structural)]
pub enum End {
    /// It still hands out instants.
    Running,
    /// The count of the rule is used up.
    Count,
    /// A candidate later than the until bound came up.
    Until,
    /// The periods left the supported years.
    Range,
}

/// The ranges of days, hours, minutes and seconds that make up a period,
/// each from its first member up to but excluding its bound.
pub struct SpanSpec {
    pub day_lo: int,
    pub day_hi: int,
    pub hour_lo: int,
    pub hour_hi: int,
    pub min_lo: int,
    pub min_hi: int,
    pub sec_lo: int,
    pub sec_hi: int,
}

/// The ranges that make up a period, as numbers of a program.
pub struct Span {
    pub day_lo: i64,
    pub day_hi: i64,
    pub hour_lo: i64,
    pub hour_hi: i64,
    pub min_lo: i64,
    pub min_hi: i64,
    pub sec_lo: i64,
    pub sec_hi: i64,
}

impl View for Span {
    type V = SpanSpec;

    open spec fn view(&self) -> SpanSpec {
        SpanSpec {
            day_lo: self.day_lo as int,
            day_hi: self.day_hi as int,
            hour_lo: self.hour_lo as int,
            hour_hi: self.hour_hi as int,
            min_lo: self.min_lo as int,
            min_hi: self.min_hi as int,
            sec_lo: self.sec_lo as int,
            sec_hi: self.sec_hi as int,
        }
    }
}

/// A period is named by a unit: the year for yearly rules, the count of
/// months since year 0 for monthly rules, the day number of the week's first
/// day for weekly rules, the day number for daily rules, and the count of
/// hours, minutes or seconds since day 0 for the finer frequencies.
/// Units from this bound on lie past the supported years.
pub open spec fn unit_limit(freq: Frequency) -> int {
    match freq {
        Frequency::Yearly => 10000,
        Frequency::Monthly => 120000,
        Frequency::Weekly => 3652059,
        Frequency::Daily => 3652059,
        Frequency::Hourly => 87649416,
        Frequency::Minutely => 5258964960,
        Frequency::Secondly => 315537897600,
    }
}

/// The smallest unit of a frequency.
pub open spec fn unit_floor(freq: Frequency) -> int {
    match freq {
        Frequency::Yearly => 1,
        Frequency::Monthly => 12,
        Frequency::Weekly => -6,
        _ => 0,
    }
}

/// The unit names a period that begins in the supported years.
pub open spec fn unit_ok(freq: Frequency, unit: int) -> bool {
    unit_floor(freq) <= unit < unit_limit(freq)
}

/// The distance in units from one period of a rule to the next.
pub open spec fn stride(r: RuleSpec) -> int {
    let k = if r.interval == 0 {
        1
    } else {
        r.interval as int
    };
    if r.freq == Frequency::Weekly {
        7 * k
    } else {
        k
    }
}

/// The ranges of the period that a unit names.
pub open spec fn span_of(freq: Frequency, unit: int) -> SpanSpec {
    let whole = SpanSpec {
        day_lo: 0,
        day_hi: 0,
        hour_lo: 0,
        hour_hi: 24,
        min_lo: 0,
        min_hi: 60,
        sec_lo: 0,
        sec_hi: 60,
    };
    match freq {
        Frequency::Yearly => SpanSpec {
            day_lo: days_before_year(unit),
            day_hi: days_before_year(unit + 1),
            ..whole
        },
        Frequency::Monthly => {
            let y = unit / 12;
            let m = unit % 12 + 1;
            let lo = days_before_year(y) + days_before_month(y, m);
            SpanSpec { day_lo: lo, day_hi: lo + month_len(y, m), ..whole }
        },
        Frequency::Weekly => SpanSpec {
            day_lo: if unit < 0 {
                0
            } else {
                unit
            },
            day_hi: if unit + 7 > 3652059 {
                3652059
            } else {
                unit + 7
            },
            ..whole
        },
        Frequency::Daily => SpanSpec { day_lo: unit, day_hi: unit + 1, ..whole },
        Frequency::Hourly => SpanSpec {
            day_lo: unit / 24,
            day_hi: unit / 24 + 1,
            hour_lo: unit % 24,
            hour_hi: unit % 24 + 1,
            ..whole
        },
        Frequency::Minutely => SpanSpec {
            day_lo: unit / 1440,
            day_hi: unit / 1440 + 1,
            hour_lo: (unit / 60) % 24,
            hour_hi: (unit / 60) % 24 + 1,
            min_lo: unit % 60,
            min_hi: unit % 60 + 1,
            ..whole
        },
        Frequency::Secondly => SpanSpec {
            day_lo: unit / 86400,
            day_hi: unit / 86400 + 1,
            hour_lo: (unit / 3600) % 24,
            hour_hi: (unit / 3600) % 24 + 1,
            min_lo: (unit / 60) % 60,
            min_hi: (unit / 60) % 60 + 1,
            sec_lo: unit % 60,
            sec_hi: unit % 60 + 1,
        },
    }
}

/// The times of day, in seconds, that the time filters admit in a period.
pub open spec fn times_of(r: RuleSpec, sp: SpanSpec) -> Seq<i64> {
    cross(
        listed_in(r.by_hour, sp.hour_lo, sp.hour_hi),
        cross(
            listed_in(r.by_minute, sp.min_lo, sp.min_hi),
            listed_in(r.by_second, sp.sec_lo, sp.sec_hi),
            60,
        ),
        3600,
    )
}

/// The candidates of the period that a unit names, as local seconds in
/// the order in which they are tried.
pub open spec fn candidates(r: RuleSpec, unit: int) -> Seq<i64> {
    let sp = span_of(r.freq, unit);
    pick_positions(cross(days_in(r, sp.day_lo, sp.day_hi), times_of(r, sp), 86400), r.by_set_pos)
}

/// The period in which the wall-clock second `local` lies.
pub open spec fn unit_at(freq: Frequency, wkst: int, local: int) -> int {
    let day = local / 86400;
    let date = date_of(day);
    match freq {
        Frequency::Yearly => date.year as int,
        Frequency::Monthly => date.year * 12 + date.month - 1,
        Frequency::Weekly => day - (day - wkst) % 7,
        Frequency::Daily => day,
        Frequency::Hourly => local / 3600,
        Frequency::Minutely => local / 60,
        Frequency::Secondly => local,
    }
}

/// What a generator is set up with and never changes.
pub struct IterConfig {
    pub rule: RuleSpec,
    pub tz: Tz,
}

/// Where a generator stands.
pub struct IterState {
    /// The period being tried.
    pub unit: int,
    /// The position of the next candidate of that period.
    pub index: int,
    /// Only instants later than this one are handed out.
    pub floor: int,
    /// How many instants may still be handed out, if the rule has a count.
    pub left: Option<u32>,
    pub end: End,
}

/// What trying the candidate at the cursor does, given the absolute second
/// `t` that the candidate resolved to, if it resolved to one. A candidate
/// that resolves to nothing, or to a second not later than the floor, is
/// passed over. One later than the until bound ends the sequence. Any
/// other is handed out: it becomes the floor and uses up one of the count.
pub open spec fn offered(c: IterConfig, s: IterState, t: Option<int>) -> (IterState, Option<int>) {
    let skip = IterState { index: s.index + 1, ..s };
    match t {
        Some(t) => if t <= s.floor {
            (skip, None)
        } else if c.rule.until matches Some(u) && t > u.ts {
            (IterState { end: End::Until, ..skip }, None)
        } else {
            (
                IterState {
                    floor: t,
                    left: match s.left {
                        Some(n) => Some((n - 1) as u32),
                        None => None,
                    },
                    ..skip
                },
                Some(t),
            )
        },
        None => (skip, None),
    }
}

/// Where a generator stands once it has left a period whose candidates are
/// all tried: at the start of the next period, or at its end if the next
/// one lies past the supported years. A period without an instant is passed
/// over like any other.
pub open spec fn advanced(c: IterConfig, s: IterState) -> IterState {
    if s.unit + stride(c.rule) >= unit_limit(c.rule.freq) {
        IterState { end: End::Range, ..s }
    } else {
        IterState { unit: s.unit + stride(c.rule), index: 0, ..s }
    }
}

/// One pull on a generator over a fixed zone: the state it is left in and
/// the absolute second it hands out, if any. The candidates of a period are
/// tried in order, period after period, until one is handed out or the
/// sequence ends.
#[verifier::opaque]
pub open spec fn scan(c: IterConfig, s: IterState) -> (IterState, Option<int>)
    decreases unit_limit(c.rule.freq) - s.unit, candidates(c.rule, s.unit).len() - s.index,
{
    let cands = candidates(c.rule, s.unit);
    if s.end != End::Running {
        (s, None)
    } else if s.left == Some(0u32) {
        (IterState { end: End::Count, ..s }, None)
    } else if s.index < cands.len() {
        let tried = offered(c, s, c.tz.resolved(cands[s.index] as int));
        if tried.1 is Some || tried.0.end != End::Running {
            tried
        } else {
            scan(c, tried.0)
        }
    } else {
        let next = advanced(c, s);
        if next.end != End::Running {
            (next, None)
        } else {
            scan(c, next)
        }
    }
}

/// How many periods of a frequency finer than daily make up a day; zero
/// for the other frequencies.
pub open spec fn units_per_day(freq: Frequency) -> int {
    match freq {
        Frequency::Hourly => 24,
        Frequency::Minutely => 1440,
        Frequency::Secondly => 86400,
        _ => 0,
    }
}

/// The first period at or past `bound` that is reached from `unit` in
/// steps of `step`.
pub open spec fn landing(unit: int, step: int, bound: int) -> int
    decreases bound - unit,
{
    if unit >= bound || step <= 0 {
        unit
    } else if unit + step >= bound {
        unit + step
    } else {
        landing(unit + step, step, bound)
    }
}

/// The first period at or past a bound is reached in as many steps as the
/// distance holds, rounded up.
pub proof fn lemma_landing(unit: int, step: int, bound: int)
    requires
        step >= 1,
        unit < bound,
    ensures
        landing(unit, step, bound) == unit + ((bound - unit + step - 1) / step) * step,
        landing(unit, step, bound) >= bound,
    decreases bound - unit,
{
    let gap = bound - unit;
    let k = (gap + step - 1) / step;
    if unit + step >= bound {
        assert(k == 1) by (nonlinear_arith)
            requires
                k == (gap + step - 1) / step,
                1 <= gap <= step,
        ;
    } else {
        lemma_landing(unit + step, step, bound);
        let m = (gap - 1) / step;
        assert(k == m + 1 && m * step + step == k * step) by (nonlinear_arith)
            requires
                k == (gap + step - 1) / step,
                m == (gap - 1) / step,
                step >= 1,
                gap > step,
        ;
    }
}

/// No period within a day that the day filters of a rule refuse has a
/// candidate.
pub proof fn lemma_refused_day_is_empty(r: RuleSpec, unit: int, day: int)
    requires
        units_per_day(r.freq) > 0,
        day * units_per_day(r.freq) <= unit < (day + 1) * units_per_day(r.freq),
        days_in(r, day, day + 1).len() == 0,
    ensures
        candidates(r, unit).len() == 0,
{
    let sp = span_of(r.freq, unit);
}

/// A generator that stands at the start of a period passes over periods
/// without candidates: where every period before `bound` has none, one pull
/// gives what it gives from the first period at or past `bound`.
pub proof fn lemma_pass_empty(c: IterConfig, s: IterState, bound: int)
    requires
        s.end == End::Running,
        s.left != Some(0u32),
        s.index == 0,
        forall|u: int| s.unit <= u < bound ==> (#[trigger] candidates(c.rule, u)).len() == 0,
        landing(s.unit, stride(c.rule), bound) < unit_limit(c.rule.freq),
    ensures
        scan(c, s) == scan(
            c,
            IterState { unit: landing(s.unit, stride(c.rule), bound), ..s },
        ),
    decreases bound - s.unit,
{
    let step = stride(c.rule);
    if s.unit < bound {
        let next = IterState { unit: s.unit + step, ..s };
        if s.unit + step < bound {
            lemma_landing(s.unit + step, step, bound);
            lemma_pass_empty(c, next, bound);
        }
        assert(scan(c, s) == scan(c, next)) by {
            reveal(scan);
        }
    }
}

/// The steps that a distance holds, rounded up, reach no further than one
/// step past it.
pub proof fn lemma_steps_fit(gap: int, step: int)
    requires
        gap >= 1,
        step >= 1,
    ensures
        1 <= (gap + step - 1) / step,
        gap <= ((gap + step - 1) / step) * step <= gap + step - 1,
{
    let k = (gap + step - 1) / step;
    assert(1 <= k && gap <= k * step <= gap + step - 1) by (nonlinear_arith)
        requires
            k == (gap + step - 1) / step,
            gap >= 1,
            step >= 1,
    ;
}

/// Pairs with the members of an empty list are none.
pub proof fn lemma_cross_none(a: Seq<i64>, scale: int)
    ensures
        cross(a, Seq::<i64>::empty(), scale).len() == 0,
    decreases a.len(),
{
    if a.len() > 0 {
        lemma_cross_none(a.drop_last(), scale);
        assert(row(a.last() as int, Seq::<i64>::empty(), scale, 0).len() == 0);
    }
}

/// How many periods of a frequency finer than hourly make up an hour;
/// zero for the other frequencies.
pub open spec fn units_per_hour(freq: Frequency) -> int {
    match freq {
        Frequency::Minutely => 60,
        Frequency::Secondly => 3600,
        _ => 0,
    }
}

/// No period within an hour that the hours of a rule do not list has a
/// candidate. `hour` counts the hours since day 0.
pub proof fn lemma_refused_hour_is_empty(r: RuleSpec, unit: int, hour: int)
    requires
        units_per_hour(r.freq) > 0,
        0 <= hour * units_per_hour(r.freq) <= unit < (hour + 1) * units_per_hour(r.freq),
        listed_in(r.by_hour, hour % 24, hour % 24 + 1).len() == 0,
    ensures
        candidates(r, unit).len() == 0,
{
    let sp = span_of(r.freq, unit);
    assert(sp.hour_lo == hour % 24 && sp.hour_hi == hour % 24 + 1);
    assert(times_of(r, sp).len() == 0);
    lemma_cross_none(days_in(r, sp.day_lo, sp.day_hi), 86400);
    assert(times_of(r, sp) =~= Seq::<i64>::empty());
}

/// No second within a minute that the minutes of a rule do not list is a
/// candidate of a rule of every second. `minute` counts the minutes since
/// day 0.
pub proof fn lemma_refused_minute_is_empty(r: RuleSpec, unit: int, minute: int)
    requires
        r.freq == Frequency::Secondly,
        0 <= minute * 60 <= unit < (minute + 1) * 60,
        listed_in(r.by_minute, minute % 60, minute % 60 + 1).len() == 0,
    ensures
        candidates(r, unit).len() == 0,
{
    let sp = span_of(r.freq, unit);
    assert(sp.min_lo == minute % 60 && sp.min_hi == minute % 60 + 1);
    let in_hour = cross(
        listed_in(r.by_minute, sp.min_lo, sp.min_hi),
        listed_in(r.by_second, sp.sec_lo, sp.sec_hi),
        60,
    );
    assert(in_hour =~= Seq::<i64>::empty());
    lemma_cross_none(listed_in(r.by_hour, sp.hour_lo, sp.hour_hi), 3600);
    assert(times_of(r, sp) =~= Seq::<i64>::empty());
    lemma_cross_none(days_in(r, sp.day_lo, sp.day_hi), 86400);
}

/// A generator that stands at the start of a period, with no candidate in
/// any period before `bound`, hands out what it hands out from its first
/// period at or past `bound`, which is as many steps ahead as the distance
/// holds, rounded up.
pub proof fn lemma_leap(c: IterConfig, s: IterState, bound: int)
    requires
        s.end == End::Running,
        s.left != Some(0u32),
        s.index == 0,
        c.rule.interval >= 1,
        s.unit < bound,
        forall|u: int| s.unit <= u < bound ==> (#[trigger] candidates(c.rule, u)).len() == 0,
        s.unit + ((bound - s.unit + stride(c.rule) - 1) / stride(c.rule)) * stride(c.rule)
            < unit_limit(c.rule.freq),
    ensures
        scan(c, s) == scan(
            c,
            IterState {
                unit: s.unit + ((bound - s.unit + stride(c.rule) - 1) / stride(c.rule)) * stride(
                    c.rule,
                ),
                ..s
            },
        ),
{
    lemma_landing(s.unit, stride(c.rule), bound);
    lemma_pass_empty(c, s, bound);
}

/// Computes the ranges of the period that a unit names.
pub fn span_at(freq: Frequency, unit: i64) -> (r: Span)
    requires
        unit_ok(freq, unit as int),
    ensures
        r@ == span_of(freq, unit as int),
        0 <= r.day_lo,
        r.day_hi <= 3652059,
        0 <= r.hour_lo,
        r.hour_hi <= 24,
        0 <= r.min_lo,
        r.min_hi <= 60,
        0 <= r.sec_lo,
        r.sec_hi <= 60,
{
    let mut sp = Span {
        day_lo: 0,
        day_hi: 0,
        hour_lo: 0,
        hour_hi: 24,
        min_lo: 0,
        min_hi: 60,
        sec_lo: 0,
        sec_hi: 60,
    };
    match freq {
        Frequency::Yearly => {
            sp.day_lo = year_start(unit);
            sp.day_hi = year_start(unit + 1);
        },
        Frequency::Monthly => {
            let y: i64 = unit / 12;
            let m: i64 = unit % 12 + 1;
            let len: i64 = days_in_month(y, m);
            proof {
                lemma_day_of_in_range(y as int, m as int, len as int);
            }
            sp.day_lo = year_start(y) + month_start(y, m);
            sp.day_hi = sp.day_lo + len;
        },
        Frequency::Weekly => {
            sp.day_lo = if unit < 0 {
                0
            } else {
                unit
            };
            sp.day_hi = if unit + 7 > DAY_LIMIT {
                DAY_LIMIT
            } else {
                unit + 7
            };
        },
        Frequency::Daily => {
            sp.day_lo = unit;
            sp.day_hi = unit + 1;
        },
        Frequency::Hourly => {
            sp.day_lo = unit / 24;
            sp.day_hi = unit / 24 + 1;
            sp.hour_lo = unit % 24;
            sp.hour_hi = unit % 24 + 1;
        },
        Frequency::Minutely => {
            sp.day_lo = unit / 1440;
            sp.day_hi = unit / 1440 + 1;
            sp.hour_lo = (unit / 60) % 24;
            sp.hour_hi = (unit / 60) % 24 + 1;
            sp.min_lo = unit % 60;
            sp.min_hi = unit % 60 + 1;
        },
        Frequency::Secondly => {
            sp.day_lo = unit / 86400;
            sp.day_hi = unit / 86400 + 1;
            sp.hour_lo = (unit / 3600) % 24;
            sp.hour_hi = (unit / 3600) % 24 + 1;
            sp.min_lo = (unit / 60) % 60;
            sp.min_hi = (unit / 60) % 60 + 1;
            sp.sec_lo = unit % 60;
            sp.sec_hi = unit % 60 + 1;
        },
    }
    sp
}

/// Computes the candidates of the period that a unit names.
pub fn period_candidates(rule: &RRule, unit: i64) -> (r: Vec<i64>)
    requires
        unit_ok(rule.freq, unit as int),
    ensures
        r@ == candidates(rule@, unit as int),
        bounded(r@, 0, 315537897600),
{
    let sp = span_at(rule.freq, unit);
    let days = matching_days(rule, sp.day_lo, sp.day_hi);
    let hours = matching_listed(&rule.by_hour, sp.hour_lo, sp.hour_hi);
    let minutes = matching_listed(&rule.by_minute, sp.min_lo, sp.min_hi);
    let seconds = matching_listed(&rule.by_second, sp.sec_lo, sp.sec_hi);
    let in_hour = combine(&minutes, &seconds, 60, 60);
    let times = combine(&hours, &in_hour, 3600, 24);
    let all = combine(&days, &times, 86400, 3652059);
    select(all, &rule.by_set_pos)
}

/// Computes the period in which a wall-clock second lies.
pub fn first_unit(freq: Frequency, wkst: i64, local: i64) -> (r: i64)
    requires
        valid_secs(local as int),
        0 <= wkst < 7,
    ensures
        r == unit_at(freq, wkst as int, local as int),
        unit_ok(freq, r as int),
{
    let day: i64 = local / 86400;
    match freq {
        Frequency::Yearly => date_on(day).year,
        Frequency::Monthly => {
            let d = date_on(day);
            d.year * 12 + d.month - 1
        },
        Frequency::Weekly => day - (day + 7 - wkst) % 7,
        Frequency::Daily => day,
        Frequency::Hourly => local / 3600,
        Frequency::Minutely => local / 60,
        Frequency::Secondly => local,
    }
}

/// The generator of one rule.
#[derive(Clone, Debug)]
pub struct RRuleIter<'a> {
    pub rule: &'a RRule,
    pub tz: Tz,
    pub unit: i64,
    pub buf: Vec<i64>,
    pub index: usize,
    pub floor: i64,
    pub left: Option<u32>,
    pub end: End,
}

impl<'a> RRuleIter<'a> {
    /// What the generator is set up with.
    pub open spec fn config(&self) -> IterConfig {
        IterConfig { rule: self.rule@, tz: self.tz }
    }

    /// Where the generator stands.
    pub open spec fn state(&self) -> IterState {
        IterState {
            unit: self.unit as int,
            index: self.index as int,
            floor: self.floor as int,
            left: self.left,
            end: self.end,
        }
    }

    /// The buffer holds the candidates of the current period, the cursor
    /// lies within it, and the floor is an instant in range.
    pub open spec fn wf(&self) -> bool {
        &&& self.rule@.interval >= 1
        &&& (self.rule@.until matches Some(u) ==> u.wf())
        &&& unit_ok(self.rule.freq, self.unit as int)
        &&& self.buf@ == candidates(self.rule@, self.unit as int)
        &&& bounded(self.buf@, 0, 315537897600)
        &&& self.index <= self.buf@.len()
        &&& MIN_TS - 1 <= self.floor <= MAX_TS
    }

    /// A generator for `rule` that starts in the period of the wall-clock
    /// second `local` and hands out instants from `start` on.
    pub fn begin(rule: &'a RRule, tz: Tz, local: i64, start: i64) -> (r: RRuleIter<'a>)
        requires
            rule@.interval >= 1,
            rule@.until matches Some(u) ==> u.wf(),
            valid_secs(local as int),
            MIN_TS <= start <= MAX_TS,
        ensures
            r.wf(),
            r.rule == rule,
            r.config() == (IterConfig { rule: rule@, tz }),
            r.state() == (IterState {
                unit: unit_at(rule.freq, rule.week_start.index(), local as int),
                index: 0,
                floor: start - 1,
                left: rule.count,
                end: End::Running,
            }),
    {
        let unit: i64 = first_unit(rule.freq, rule.week_start.number(), local);
        let buf = period_candidates(rule, unit);
        RRuleIter {
            rule,
            tz,
            unit,
            buf,
            index: 0,
            floor: start - 1,
            left: rule.count,
            end: End::Running,
        }
    }

    /// The distance in units from one period to the next.
    pub fn pace(&self) -> (r: i64)
        requires
            self.rule@.interval >= 1,
        ensures
            r == stride(self.rule@),
            1 <= r <= 7 * 65535,
    {
        let k: i64 = self.rule.interval as i64;
        if self.rule.freq == Frequency::Weekly {
            7 * k
        } else {
            k
        }
    }

    /// Computes the bound past which units lie outside the supported years.
    pub fn limit(&self) -> (r: i64)
        ensures
            r == unit_limit(self.rule.freq),
    {
        match self.rule.freq {
            Frequency::Yearly => 10000,
            Frequency::Monthly => 120000,
            Frequency::Weekly => 3652059,
            Frequency::Daily => 3652059,
            Frequency::Hourly => 87649416,
            Frequency::Minutely => 5258964960,
            Frequency::Secondly => 315537897600,
        }
    }

    /// Tries the candidate at the cursor, given the absolute second that it
    /// resolved to, if it resolved to one.
    pub fn offer(&mut self, t: Option<i64>) -> (r: Option<Instant>)
        requires
            old(self).wf(),
            old(self).end == End::Running,
            old(self).left != Some(0u32),
            old(self).index < old(self).buf@.len(),
            t matches Some(x) ==> MIN_TS <= x <= MAX_TS,
        ensures
            final(self).wf(),
            final(self).rule == old(self).rule,
            final(self).config() == old(self).config(),
            (final(self).state(), match r {
                Some(i) => Some(i.ts as int),
                None => None,
            }) == offered(
                old(self).config(),
                old(self).state(),
                match t {
                    Some(x) => Some(x as int),
                    None => None,
                },
            ),
            r matches Some(i) ==> i.tz == old(self).tz,
    {
        assert(self.index < self.buf.len());
        self.index = self.index + 1;
        match t {
            Some(t) => {
                if t <= self.floor {
                    return None;
                }
                let past: bool = match self.rule.until {
                    Some(u) => t > u.ts,
                    None => false,
                };
                if past {
                    self.end = End::Until;
                    return None;
                }
                self.floor = t;
                self.left = match self.left {
                    Some(n) => Some(n - 1),
                    None => None,
                };
                Some(Instant { ts: t, tz: self.tz })
            },
            None => None,
        }
    }

    /// Leaves a period whose candidates are all tried for the next one.
    pub fn advance(&mut self)
        requires
            old(self).wf(),
            old(self).end == End::Running,
        ensures
            final(self).wf(),
            final(self).rule == old(self).rule,
            final(self).config() == old(self).config(),
            final(self).state() == advanced(old(self).config(), old(self).state()),
    {
        let step: i64 = self.pace();
        let limit: i64 = self.limit();
        if self.unit + step >= limit {
            self.end = End::Range;
        } else {
            self.unit = self.unit + step;
            self.buf = period_candidates(self.rule, self.unit);
            self.index = 0;
        }
    }

    /// Steps over the rest of a day that the day filters refuse, where the
    /// periods of the rule are finer than a day: the generator comes to
    /// stand at the first of its periods past that day, unless that one
    /// lies past the supported years. What it hands out is the same.
    pub fn skip_day(&mut self)
        requires
            old(self).wf(),
            old(self).left != Some(0u32),
        ensures
            final(self).wf(),
            final(self).rule == old(self).rule,
            final(self).config() == old(self).config(),
            final(self).floor == old(self).floor,
            final(self).left == old(self).left,
            final(self).end == old(self).end,
            final(self).unit >= old(self).unit,
            final(self).unit != old(self).unit ==> final(self).index == 0,
            final(self).unit == old(self).unit ==> final(self).index == old(self).index,
            scan(final(self).config(), final(self).state()) == scan(
                old(self).config(),
                old(self).state(),
            ),
    {
        let per_day: i64 = match self.rule.freq {
            Frequency::Hourly => 24,
            Frequency::Minutely => 1440,
            Frequency::Secondly => 86400,
            _ => {
                return ;
            },
        };
        if self.end != End::Running || self.index != 0 || self.buf.len() != 0 {
            return ;
        }
        let day: i64 = self.unit / per_day;
        if matching_days(self.rule, day, day + 1).len() != 0 {
            return ;
        }
        proof {
            assert forall|u: int| self.unit <= u < (day + 1) * per_day implies (
            #[trigger] candidates(self.rule@, u)).len() == 0 by {
                lemma_refused_day_is_empty(self.rule@, u, day as int);
            }
        }
        self.leap((day + 1) * per_day);
    }

    /// Steps over the rest of an hour that the hours of the rule do not
    /// list, where the periods of the rule are finer than an hour, or else
    /// over the rest of a minute that its minutes do not list, where the
    /// periods are seconds. What the generator hands out is the same.
    pub fn skip_time(&mut self)
        requires
            old(self).wf(),
            old(self).left != Some(0u32),
        ensures
            final(self).wf(),
            final(self).rule == old(self).rule,
            final(self).config() == old(self).config(),
            final(self).floor == old(self).floor,
            final(self).left == old(self).left,
            final(self).end == old(self).end,
            final(self).unit >= old(self).unit,
            final(self).unit != old(self).unit ==> final(self).index == 0,
            final(self).unit == old(self).unit ==> final(self).index == old(self).index,
            scan(final(self).config(), final(self).state()) == scan(
                old(self).config(),
                old(self).state(),
            ),
    {
        let per_hour: i64 = match self.rule.freq {
            Frequency::Minutely => 60,
            Frequency::Secondly => 3600,
            _ => {
                return ;
            },
        };
        if self.end != End::Running || self.index != 0 || self.buf.len() != 0 {
            return ;
        }
        let hour: i64 = self.unit / per_hour;
        let of_day: i64 = hour % 24;
        if matching_listed(&self.rule.by_hour, of_day, of_day + 1).len() == 0 {
            proof {
                assert forall|u: int| self.unit <= u < (hour + 1) * per_hour implies (
                #[trigger] candidates(self.rule@, u)).len() == 0 by {
                    lemma_refused_hour_is_empty(self.rule@, u, hour as int);
                }
            }
            self.leap((hour + 1) * per_hour);
            return ;
        }
        if per_hour != 3600 {
            return ;
        }
        let minute: i64 = self.unit / 60;
        let of_hour: i64 = minute % 60;
        if matching_listed(&self.rule.by_minute, of_hour, of_hour + 1).len() == 0 {
            proof {
                assert forall|u: int| self.unit <= u < (minute + 1) * 60 implies (
                #[trigger] candidates(self.rule@, u)).len() == 0 by {
                    lemma_refused_minute_is_empty(self.rule@, u, minute as int);
                }
            }
            self.leap((minute + 1) * 60);
        }
    }

    /// Steps over periods that have no candidate: the generator comes to
    /// stand at the first of its periods at or past `bound`, unless that one
    /// lies past the supported years. What it hands out is the same.
    pub fn leap(&mut self, bound: i64)
        requires
            old(self).wf(),
            old(self).left != Some(0u32),
            old(self).end == End::Running,
            old(self).index == 0,
            old(self).unit < bound <= old(self).unit + 86400,
            forall|u: int|
                old(self).unit <= u < bound ==> (#[trigger] candidates(old(self).rule@, u)).len()
                    == 0,
        ensures
            final(self).wf(),
            final(self).rule == old(self).rule,
            final(self).config() == old(self).config(),
            final(self).floor == old(self).floor,
            final(self).left == old(self).left,
            final(self).end == old(self).end,
            final(self).unit >= old(self).unit,
            final(self).index == 0,
            final(self).unit == old(self).unit || final(self).unit >= bound,
            scan(final(self).config(), final(self).state()) == scan(
                old(self).config(),
                old(self).state(),
            ),
    {
        let step: i64 = self.pace();
        let gap: i64 = bound - self.unit;
        let steps: i64 = (gap + step - 1) / step;
        proof {
            lemma_steps_fit(gap as int, step as int);
        }
        let target: i64 = self.unit + steps * step;
        if target >= self.limit() {
            return ;
        }
        proof {
            lemma_leap(self.config(), self.state(), bound as int);
        }
        self.unit = target;
        self.buf = period_candidates(self.rule, target);
    }

    /// Hands out the next instant of the rule, or nothing once the sequence
    /// has ended. After an end, every further pull gives nothing.
    pub fn next(&mut self) -> (r: Option<Instant>)
        requires
            old(self).wf(),
        ensures
            final(self).wf(),
            final(self).rule == old(self).rule,
            final(self).config() == old(self).config(),
            old(self).tz.is_fixed() ==> (final(self).state(), match r {
                Some(i) => Some(i.ts as int),
                None => None,
            }) == scan(old(self).config(), old(self).state()),
            r matches Some(i) ==> {
                &&& i.wf()
                &&& i.tz == old(self).tz
                &&& i.ts > old(self).floor
                &&& final(self).floor == i.ts
                &&& (old(self).rule.until matches Some(u) ==> i.ts <= u.ts)
                &&& old(self).end == End::Running
                &&& final(self).end == End::Running
                &&& (old(self).left matches Some(n) ==> n > 0 && final(self).left == Some(
                    (n - 1) as u32,
                ))
                &&& (old(self).left is None ==> final(self).left is None)
            },
            r is None ==> {
                &&& final(self).end != End::Running
                &&& final(self).floor == old(self).floor
                &&& final(self).left == old(self).left
            },
            old(self).end != End::Running ==> r is None && final(self).end == old(self).end,
            final(self).end == End::Count ==> final(self).left == Some(0u32) || old(self).end
                == End::Count,
    {
        let ghost cfg = self.config();
        let ghost start = self.state();
        loop
            invariant
                self.wf(),
                self.rule == old(self).rule,
                self.config() == cfg,
                cfg == old(self).config(),
                start == old(self).state(),
                self.tz.is_fixed() ==> scan(cfg, self.state()) == scan(cfg, start),
                self.floor == old(self).floor,
                self.left == old(self).left,
                self.end != End::Running ==> old(self).end == self.end || (self.end != End::Count
                    && old(self).end == End::Running),
                self.end == End::Running ==> old(self).end == End::Running,
            decreases
                    if self.end == End::Running {
                        1int
                    } else {
                        0int
                    },
                    unit_limit(self.rule.freq) - self.unit,
                    self.buf@.len() - self.index,
        {
            reveal(scan);
            if self.end != End::Running {
                return None;
            }
            if self.left == Some(0u32) {
                self.end = End::Count;
                return None;
            }
            if self.index < self.buf.len() {
                let local: i64 = self.buf[self.index];
                let t: Option<i64> = self.tz.resolve(local);
                match self.offer(t) {
                    Some(d) => {
                        return Some(d);
                    },
                    None => {},
                }
            } else {
                self.advance();
                self.skip_day();
                self.skip_time();
            }
        }
    }
}

impl<'a> RRuleIter<'a> {
    /// Collects the instants from `lo` to `hi`, both included, that the
    /// generator hands out from where it stands.
    pub fn all_between(self, lo: i64, hi: i64) -> (r: Vec<i64>)
        requires
            self.wf(),
        ensures
            forall|i: int| 0 <= i < r@.len() ==> lo <= #[trigger] r@[i] <= hi,
            self.tz.is_fixed() ==> forall|x: i64| #[trigger]
                r@.contains(x) <==> lo <= x <= hi && emits(self.config(), self.state(), x as int),
    {
        let mut it = self;
        let mut out: Vec<i64> = Vec::new();
        let ghost c = self.config();
        let ghost s0 = self.state();
        let ghost mut k: nat = 0;
        let mut done: bool = false;
        proof {
            lemma_gather_start(c, s0, lo as int, hi as int);
        }
        while !done
            invariant
                it.wf(),
                it.config() == c,
                c.tz == it.tz,
                !done && it.tz.is_fixed() ==> it.state() == after(c, s0, k),
                forall|i: int| 0 <= i < out@.len() ==> lo <= #[trigger] out@[i] <= hi,
                it.tz.is_fixed() ==> gathered(out@, c, s0, k, lo as int, hi as int),
                !done ==> it.floor <= hi || k == 0,
                done && it.tz.is_fixed() ==> pull(c, s0, k) is None || pull(c, s0, k)->0 > hi,
            decreases
                    if done {
                        0int
                    } else if k == 0 {
                        2int
                    } else {
                        1int
                    },
                    if k == 0 || done {
                        0
                    } else {
                        hi - it.floor
                    },
        {
            let ghost before = out@;
            let ghost s_before = it.state();
            match it.next() {
                None => {
                    proof {
                        if it.tz.is_fixed() {
                            lemma_pull_step(c, s0, k, s_before);
                        }
                    }
                    done = true;
                },
                Some(d) => {
                    if d.ts > hi {
                        proof {
                            if it.tz.is_fixed() {
                                lemma_pull_step(c, s0, k, s_before);
                            }
                        }
                        done = true;
                    } else {
                        if d.ts >= lo {
                            out.push(d.ts);
                        }
                        proof {
                            if it.tz.is_fixed() {
                                lemma_pull_step(c, s0, k, s_before);
                                lemma_gather_step(
                                    before,
                                    c,
                                    s0,
                                    k,
                                    lo as int,
                                    hi as int,
                                    d.ts,
                                );
                            }
                            k = k + 1;
                        }
                    }
                },
            }
        }
        proof {
            if it.tz.is_fixed() {
                lemma_gather_end(out@, c, s0, k, lo as int, hi as int);
            }
        }
        out
    }
}

impl RRule {
    /// What the generator relies on in a rule: a positive interval and an
    /// until bound, if any, in the supported range.
    pub open spec fn ready(&self) -> bool {
        self@.interval >= 1 && (self@.until matches Some(u) ==> u.wf())
    }

    /// The generator of this rule for a set anchored at `dt_start`.
    pub fn iter_with_ctx<'a>(&'a self, dt_start: Instant) -> (r: RRuleIter<'a>)
        requires
            self.ready(),
            dt_start.wf(),
        ensures
            r.wf(),
            r.rule == self,
            r.config() == rule_config(self@, dt_start.tz),
            r.floor == dt_start.ts - 1,
            r.left == self.count,
            r.end == End::Running,
            dt_start.tz.is_fixed() ==> r.state() == rule_start(self@, dt_start),
    {
        let local: i64 = dt_start.local_secs();
        RRuleIter::begin(self, dt_start.tz, local, dt_start.ts)
    }
}

} // verus!
