//! Recurrence rules: their fields, their validity, and their normal form.

use vstd::prelude::*;

use crate::calendar::weekday_of;
use crate::error::RRuleError;
use crate::instant::{wall_at, wall_clock, Instant, WallClock};
use crate::sequence::anchor_local;
use crate::zone::{MAX_TS, MIN_TS};

verus! {

/// How often a rule recurs.
#[derive(Clone, Copy, Debug, PartialEq, Eq, Structural)]
pub enum Frequency {
    Yearly,
    Monthly,
    Weekly,
    Daily,
    Hourly,
    Minutely,
    Secondly,
}

/// A day of the week.
#[derive(Clone, Copy, Debug, PartialEq, Eq, Structural)]
pub enum Weekday {
    Mon,
    Tue,
    Wed,
    Thu,
    Fri,
    Sat,
    Sun,
}

/// A weekday filter: every such weekday, or only the n-th one of the
/// enclosing month or year (counted from the end when n is negative).
#[derive(Clone, Copy, Debug, PartialEq, Eq, Structural)]
pub enum NWeekday {
    Every(Weekday),
    Nth(i64, Weekday),
}

/// Why a rule was refused.
#[derive(Clone, Copy, Debug, PartialEq, Eq, Structural)]
pub enum ValidationError {
    /// The interval is zero.
    ZeroInterval,
    /// Both a count and an until bound are given.
    CountAndUntil,
    /// The until bound lies outside the supported years.
    BadUntil,
    /// A set position is zero or beyond 366 in either direction.
    BadSetPos,
    /// Set positions are given without any other by-field.
    SetPosAlone,
    /// A month is outside 1..=12.
    BadMonth,
    /// A month day is zero or beyond 31 in either direction.
    BadMonthDay,
    /// A year day is zero or beyond 366 in either direction.
    BadYearDay,
    /// A week number is zero or beyond 53 in either direction.
    BadWeekNo,
    /// Week numbers are given for a frequency other than yearly.
    WeekNoNeedsYearly,
    /// A weekday ordinal is zero, too large, or given for a frequency that
    /// is neither yearly nor monthly.
    BadWeekdayOrdinal,
    /// An hour is outside 0..=23.
    BadHour,
    /// A minute is outside 0..=59.
    BadMinute,
    /// A second is outside 0..=59.
    BadSecond,
}

impl Frequency {
    /// Position from coarsest (0, yearly) to finest (6, secondly).
    pub open spec fn rank(self) -> int {
        match self {
            Frequency::Yearly => 0,
            Frequency::Monthly => 1,
            Frequency::Weekly => 2,
            Frequency::Daily => 3,
            Frequency::Hourly => 4,
            Frequency::Minutely => 5,
            Frequency::Secondly => 6,
        }
    }

    /// Position from coarsest (0, yearly) to finest (6, secondly).
    pub fn order(self) -> (r: i64)
        ensures
            r == self.rank(),
    {
        match self {
            Frequency::Yearly => 0,
            Frequency::Monthly => 1,
            Frequency::Weekly => 2,
            Frequency::Daily => 3,
            Frequency::Hourly => 4,
            Frequency::Minutely => 5,
            Frequency::Secondly => 6,
        }
    }
}

impl Weekday {
    /// 0 for Monday up to 6 for Sunday.
    pub open spec fn index(self) -> int {
        match self {
            Weekday::Mon => 0,
            Weekday::Tue => 1,
            Weekday::Wed => 2,
            Weekday::Thu => 3,
            Weekday::Fri => 4,
            Weekday::Sat => 5,
            Weekday::Sun => 6,
        }
    }

    /// The weekday with the given index, taken modulo 7.
    pub open spec fn at(i: int) -> Weekday {
        let k = i % 7;
        if k == 0 {
            Weekday::Mon
        } else if k == 1 {
            Weekday::Tue
        } else if k == 2 {
            Weekday::Wed
        } else if k == 3 {
            Weekday::Thu
        } else if k == 4 {
            Weekday::Fri
        } else if k == 5 {
            Weekday::Sat
        } else {
            Weekday::Sun
        }
    }

    /// 0 for Monday up to 6 for Sunday.
    pub fn number(self) -> (r: i64)
        ensures
            r == self.index(),
            0 <= r < 7,
    {
        match self {
            Weekday::Mon => 0,
            Weekday::Tue => 1,
            Weekday::Wed => 2,
            Weekday::Thu => 3,
            Weekday::Fri => 4,
            Weekday::Sat => 5,
            Weekday::Sun => 6,
        }
    }

    /// The weekday with the given index, taken modulo 7.
    pub fn from_number(i: i64) -> (r: Weekday)
        requires
            0 <= i,
        ensures
            r == Weekday::at(i as int),
            r.index() == i % 7,
    {
        let k: i64 = i % 7;
        if k == 0 {
            Weekday::Mon
        } else if k == 1 {
            Weekday::Tue
        } else if k == 2 {
            Weekday::Wed
        } else if k == 3 {
            Weekday::Thu
        } else if k == 4 {
            Weekday::Fri
        } else if k == 5 {
            Weekday::Sat
        } else {
            Weekday::Sun
        }
    }
}

/// The mathematical content of a rule: its fields with sequences for lists.
pub struct RuleSpec {
    pub freq: Frequency,
    pub interval: u16,
    pub count: Option<u32>,
    pub until: Option<Instant>,
    pub week_start: Weekday,
    pub by_set_pos: Seq<i64>,
    pub by_month: Seq<i64>,
    pub by_month_day: Seq<i64>,
    pub by_year_day: Seq<i64>,
    pub by_week_no: Seq<i64>,
    pub by_weekday: Seq<NWeekday>,
    pub by_hour: Seq<i64>,
    pub by_minute: Seq<i64>,
    pub by_second: Seq<i64>,
}

/// One recurrence rule.
#[derive(Debug)]
pub struct RRule {
    pub freq: Frequency,
    pub interval: u16,
    pub count: Option<u32>,
    pub until: Option<Instant>,
    pub week_start: Weekday,
    pub by_set_pos: Vec<i64>,
    pub by_month: Vec<i64>,
    pub by_month_day: Vec<i64>,
    pub by_year_day: Vec<i64>,
    pub by_week_no: Vec<i64>,
    pub by_weekday: Vec<NWeekday>,
    pub by_hour: Vec<i64>,
    pub by_minute: Vec<i64>,
    pub by_second: Vec<i64>,
}

impl View for RRule {
    type V = RuleSpec;

    open spec fn view(&self) -> RuleSpec {
        RuleSpec {
            freq: self.freq,
            interval: self.interval,
            count: self.count,
            until: self.until,
            week_start: self.week_start,
            by_set_pos: self.by_set_pos@,
            by_month: self.by_month@,
            by_month_day: self.by_month_day@,
            by_year_day: self.by_year_day@,
            by_week_no: self.by_week_no@,
            by_weekday: self.by_weekday@,
            by_hour: self.by_hour@,
            by_minute: self.by_minute@,
            by_second: self.by_second@,
        }
    }
}

/// Every member lies in `lo..=hi`, and is not zero where `nonzero` is set.
pub open spec fn all_within(s: Seq<i64>, lo: int, hi: int, nonzero: bool) -> bool {
    forall|i: int| 0 <= i < s.len() ==> lo <= #[trigger] s[i] <= hi && (nonzero ==> s[i] != 0)
}

/// Every ordinal of the weekday list is acceptable for the frequency:
/// none but for yearly and monthly rules, there up to 366 and 5.
pub open spec fn ordinals_ok(s: Seq<NWeekday>, freq: Frequency) -> bool {
    forall|i: int|
        0 <= i < s.len() ==> (#[trigger] s[i] matches NWeekday::Nth(n, _) ==> n != 0 && (match freq {
            Frequency::Yearly => -366 <= n <= 366,
            Frequency::Monthly => -5 <= n <= 5,
            _ => false,
        }))
}

impl RuleSpec {
    /// True when some by-field other than the set positions is given.
    pub open spec fn has_by_field(self) -> bool {
        self.by_month.len() > 0 || self.by_month_day.len() > 0 || self.by_year_day.len() > 0
            || self.by_week_no.len() > 0 || self.by_weekday.len() > 0 || self.by_hour.len() > 0
            || self.by_minute.len() > 0 || self.by_second.len() > 0
    }

    /// The first reason, in a fixed order, for which the rule is refused.
    pub open spec fn first_violation(self) -> Option<ValidationError> {
        if self.interval == 0 {
            Some(ValidationError::ZeroInterval)
        } else if self.count is Some && self.until is Some {
            Some(ValidationError::CountAndUntil)
        } else if self.until matches Some(u) && !u.wf() {
            Some(ValidationError::BadUntil)
        } else if !all_within(self.by_set_pos, -366, 366, true) {
            Some(ValidationError::BadSetPos)
        } else if self.by_set_pos.len() > 0 && !self.has_by_field() {
            Some(ValidationError::SetPosAlone)
        } else if !all_within(self.by_month, 1, 12, false) {
            Some(ValidationError::BadMonth)
        } else if !all_within(self.by_month_day, -31, 31, true) {
            Some(ValidationError::BadMonthDay)
        } else if !all_within(self.by_year_day, -366, 366, true) {
            Some(ValidationError::BadYearDay)
        } else if !all_within(self.by_week_no, -53, 53, true) {
            Some(ValidationError::BadWeekNo)
        } else if self.by_week_no.len() > 0 && self.freq != Frequency::Yearly {
            Some(ValidationError::WeekNoNeedsYearly)
        } else if !ordinals_ok(self.by_weekday, self.freq) {
            Some(ValidationError::BadWeekdayOrdinal)
        } else if !all_within(self.by_hour, 0, 23, false) {
            Some(ValidationError::BadHour)
        } else if !all_within(self.by_minute, 0, 59, false) {
            Some(ValidationError::BadMinute)
        } else if !all_within(self.by_second, 0, 59, false) {
            Some(ValidationError::BadSecond)
        } else {
            None
        }
    }

    /// The by-fields that mean nothing for the frequency are emptied: month
    /// days for weekly rules, year days for monthly, weekly and daily rules.
    pub open spec fn clear_inapplicable(self) -> RuleSpec {
        RuleSpec {
            by_month_day: if self.freq == Frequency::Weekly {
                Seq::empty()
            } else {
                self.by_month_day
            },
            by_year_day: if self.freq == Frequency::Monthly || self.freq == Frequency::Weekly
                || self.freq == Frequency::Daily {
                Seq::empty()
            } else {
                self.by_year_day
            },
            ..self
        }
    }

    /// True when no by-field selects days.
    pub open spec fn no_day_field(self) -> bool {
        self.by_week_no.len() == 0 && self.by_year_day.len() == 0 && self.by_month_day.len() == 0
            && self.by_weekday.len() == 0
    }

    /// Absent by-fields take the value that the anchor's wall clock implies.
    pub open spec fn fill_defaults(self, a: WallClock) -> RuleSpec {
        let bare = self.no_day_field();
        RuleSpec {
            by_month: if bare && self.freq == Frequency::Yearly && self.by_month.len() == 0 {
                seq![a.date.month]
            } else {
                self.by_month
            },
            by_month_day: if bare && (self.freq == Frequency::Yearly || self.freq
                == Frequency::Monthly) {
                seq![a.date.day]
            } else {
                self.by_month_day
            },
            by_weekday: if bare && self.freq == Frequency::Weekly {
                seq![NWeekday::Every(Weekday::at(weekday_of(a.date.number())))]
            } else {
                self.by_weekday
            },
            by_hour: if self.by_hour.len() == 0 && self.freq.rank() < 4 {
                seq![a.hour]
            } else {
                self.by_hour
            },
            by_minute: if self.by_minute.len() == 0 && self.freq.rank() < 5 {
                seq![a.minute]
            } else {
                self.by_minute
            },
            by_second: if self.by_second.len() == 0 && self.freq.rank() < 6 {
                seq![a.second]
            } else {
                self.by_second
            },
            ..self
        }
    }

    /// The normal form of a rule for an anchor: inapplicable by-fields
    /// emptied, then absent ones filled from the anchor.
    pub open spec fn normalize(self, a: WallClock) -> RuleSpec {
        self.clear_inapplicable().fill_defaults(a)
    }

    /// What the generator relies on: a positive interval and by-fields
    /// within their ranges.
    pub open spec fn wf(self) -> bool {
        &&& self.interval >= 1
        &&& all_within(self.by_set_pos, -366, 366, true)
        &&& all_within(self.by_month, 1, 12, false)
        &&& all_within(self.by_month_day, -31, 31, true)
        &&& all_within(self.by_year_day, -366, 366, true)
        &&& all_within(self.by_week_no, -53, 53, true)
        &&& all_within(self.by_hour, 0, 23, false)
        &&& all_within(self.by_minute, 0, 59, false)
        &&& all_within(self.by_second, 0, 59, false)
        &&& (self.until matches Some(u) ==> u.wf())
    }
}

/// Normalizing a rule that is already normal changes nothing.
pub proof fn lemma_normalize_idempotent(r: RuleSpec, a: WallClock)
    ensures
        r.normalize(a).normalize(a) == r.normalize(a),
{
}

/// The normal form of a weekly rule has no month days and is that of the
/// rule without them; the normal form of a monthly, weekly or daily rule
/// has no year days.
pub proof fn lemma_normalize_clears(r: RuleSpec, a: WallClock)
    ensures
        r.freq == Frequency::Weekly ==> r.normalize(a).by_month_day.len() == 0 && r.normalize(a) == (
        RuleSpec { by_month_day: Seq::empty(), ..r }).normalize(a),
        r.freq == Frequency::Monthly || r.freq == Frequency::Weekly || r.freq == Frequency::Daily
            ==> r.normalize(a).by_year_day.len() == 0,
{
}

/// Normalizing keeps a rule within the ranges the generator relies on.
pub proof fn lemma_normalize_keeps_wf(r: RuleSpec, a: WallClock)
    requires
        r.wf(),
        a.wf(),
    ensures
        r.normalize(a).wf(),
{
}

/// Tests whether every member of `v` lies in `lo..=hi` and, where
/// `nonzero` is set, is not zero.
pub fn list_within(v: &Vec<i64>, lo: i64, hi: i64, nonzero: bool) -> (r: bool)
    ensures
        r == all_within(v@, lo as int, hi as int, nonzero),
{
    let mut i: usize = 0;
    while i < v.len()
        invariant
            i <= v.len(),
            forall|k: int| 0 <= k < i ==> lo <= #[trigger] v@[k] <= hi && (nonzero ==> v@[k] != 0),
        decreases v.len() - i,
    {
        let x: i64 = v[i];
        if x < lo || x > hi || (nonzero && x == 0) {
            return false;
        }
        i = i + 1;
    }
    true
}

/// Tests whether every weekday ordinal is acceptable for the frequency.
pub fn weekdays_fit(v: &Vec<NWeekday>, freq: Frequency) -> (r: bool)
    ensures
        r == ordinals_ok(v@, freq),
{
    let mut i: usize = 0;
    while i < v.len()
        invariant
            i <= v.len(),
            ordinals_ok(v@.subrange(0, i as int), freq),
        decreases v.len() - i,
    {
        let ok: bool = match v[i] {
            NWeekday::Every(_) => true,
            NWeekday::Nth(n, _) => n != 0 && (match freq {
                Frequency::Yearly => -366 <= n && n <= 366,
                Frequency::Monthly => -5 <= n && n <= 5,
                _ => false,
            }),
        };
        if !ok {
            return false;
        }
        assert forall|k: int| 0 <= k < i + 1 implies (#[trigger] v@.subrange(0, i + 1)[k]
            matches NWeekday::Nth(n, _) ==> n != 0 && (match freq {
            Frequency::Yearly => -366 <= n <= 366,
            Frequency::Monthly => -5 <= n <= 5,
            _ => false,
        })) by {}
        i = i + 1;
    }
    assert(v@.subrange(0, i as int) =~= v@);
    true
}

impl RRule {
    /// A rule of the given frequency with interval 1, Monday as the start of
    /// the week, no bound and no by-field.
    pub fn new(freq: Frequency) -> (r: RRule)
        ensures
            r@ == (RuleSpec {
                freq,
                interval: 1,
                count: None,
                until: None,
                week_start: Weekday::Mon,
                by_set_pos: Seq::empty(),
                by_month: Seq::empty(),
                by_month_day: Seq::empty(),
                by_year_day: Seq::empty(),
                by_week_no: Seq::empty(),
                by_weekday: Seq::empty(),
                by_hour: Seq::empty(),
                by_minute: Seq::empty(),
                by_second: Seq::empty(),
            }),
    {
        RRule {
            freq,
            interval: 1,
            count: None,
            until: None,
            week_start: Weekday::Mon,
            by_set_pos: Vec::new(),
            by_month: Vec::new(),
            by_month_day: Vec::new(),
            by_year_day: Vec::new(),
            by_week_no: Vec::new(),
            by_weekday: Vec::new(),
            by_hour: Vec::new(),
            by_minute: Vec::new(),
            by_second: Vec::new(),
        }
    }

    /// A copy of this rule.
    pub fn duplicate(&self) -> (r: RRule)
        ensures
            r@ == self@,
    {
        RRule {
            freq: self.freq,
            interval: self.interval,
            count: self.count,
            until: self.until,
            week_start: self.week_start,
            by_set_pos: self.by_set_pos.clone(),
            by_month: self.by_month.clone(),
            by_month_day: self.by_month_day.clone(),
            by_year_day: self.by_year_day.clone(),
            by_week_no: self.by_week_no.clone(),
            by_weekday: copy_weekdays(&self.by_weekday),
            by_hour: self.by_hour.clone(),
            by_minute: self.by_minute.clone(),
            by_second: self.by_second.clone(),
        }
    }

    /// Checks the rule's fields and reports the first violation, in the
    /// order of the variants of `ValidationError`.
    pub fn check(&self) -> (r: Result<(), ValidationError>)
        ensures
            r == (match self@.first_violation() {
                Some(e) => Err::<(), ValidationError>(e),
                None => Ok(()),
            }),
            r is Ok ==> self@.wf(),
    {
        if self.interval == 0 {
            return Err(ValidationError::ZeroInterval);
        }
        if self.count.is_some() && self.until.is_some() {
            return Err(ValidationError::CountAndUntil);
        }
        match self.until {
            Some(u) => {
                if u.ts < MIN_TS || u.ts > MAX_TS {
                    return Err(ValidationError::BadUntil);
                }
            },
            None => {},
        }
        if !list_within(&self.by_set_pos, -366, 366, true) {
            return Err(ValidationError::BadSetPos);
        }
        let has_by: bool = self.by_month.len() > 0 || self.by_month_day.len() > 0
            || self.by_year_day.len() > 0 || self.by_week_no.len() > 0 || self.by_weekday.len()
            > 0 || self.by_hour.len() > 0 || self.by_minute.len() > 0 || self.by_second.len() > 0;
        if self.by_set_pos.len() > 0 && !has_by {
            return Err(ValidationError::SetPosAlone);
        }
        if !list_within(&self.by_month, 1, 12, false) {
            return Err(ValidationError::BadMonth);
        }
        if !list_within(&self.by_month_day, -31, 31, true) {
            return Err(ValidationError::BadMonthDay);
        }
        if !list_within(&self.by_year_day, -366, 366, true) {
            return Err(ValidationError::BadYearDay);
        }
        if !list_within(&self.by_week_no, -53, 53, true) {
            return Err(ValidationError::BadWeekNo);
        }
        if self.by_week_no.len() > 0 && self.freq != Frequency::Yearly {
            return Err(ValidationError::WeekNoNeedsYearly);
        }
        if !weekdays_fit(&self.by_weekday, self.freq) {
            return Err(ValidationError::BadWeekdayOrdinal);
        }
        if !list_within(&self.by_hour, 0, 23, false) {
            return Err(ValidationError::BadHour);
        }
        if !list_within(&self.by_minute, 0, 59, false) {
            return Err(ValidationError::BadMinute);
        }
        if !list_within(&self.by_second, 0, 59, false) {
            return Err(ValidationError::BadSecond);
        }
        Ok(())
    }

    /// Brings the rule into normal form for an anchor with the given wall clock.
    pub fn normalize(self, a: &WallClock) -> (r: RRule)
        requires
            a.wf(),
        ensures
            r@ == self@.normalize(*a),
    {
        let mut r = self;
        if r.freq == Frequency::Weekly {
            r.by_month_day = Vec::new();
        }
        if r.freq == Frequency::Monthly || r.freq == Frequency::Weekly || r.freq
            == Frequency::Daily {
            r.by_year_day = Vec::new();
        }
        let bare: bool = r.by_week_no.len() == 0 && r.by_year_day.len() == 0
            && r.by_month_day.len() == 0 && r.by_weekday.len() == 0;
        if bare {
            match r.freq {
                Frequency::Yearly => {
                    if r.by_month.len() == 0 {
                        r.by_month = vec![a.date.month];
                    }
                    r.by_month_day = vec![a.date.day];
                },
                Frequency::Monthly => {
                    r.by_month_day = vec![a.date.day];
                },
                Frequency::Weekly => {
                    proof {
                        crate::calendar::lemma_day_of_in_range(
                            a.date.year as int,
                            a.date.month as int,
                            a.date.day as int,
                        );
                    }
                    let n: i64 = crate::calendar::days_from_civil(
                        a.date.year,
                        a.date.month,
                        a.date.day,
                    );
                    r.by_weekday = vec![NWeekday::Every(Weekday::from_number(n))];
                },
                _ => {},
            }
        }
        let rank: i64 = r.freq.order();
        if r.by_hour.len() == 0 && rank < 4 {
            r.by_hour = vec![a.hour];
        }
        if r.by_minute.len() == 0 && rank < 5 {
            r.by_minute = vec![a.minute];
        }
        if r.by_second.len() == 0 && rank < 6 {
            r.by_second = vec![a.second];
        }
        proof {
            let want = self@.normalize(*a);
            assert(r@.by_month =~= want.by_month);
            assert(r@.by_month_day =~= want.by_month_day);
            assert(r@.by_weekday =~= want.by_weekday);
            assert(r@.by_hour =~= want.by_hour);
            assert(r@.by_minute =~= want.by_minute);
            assert(r@.by_second =~= want.by_second);
        }
        r
    }
}

/// The rule `got` is the normal form of `raw` for the anchor: for some
/// wall clock, which is the one that the zone of the anchor shows where that
/// is a fixed zone.
pub open spec fn normal_for(raw: RuleSpec, got: RuleSpec, dt_start: Instant) -> bool {
    &&& exists|a: WallClock| a.wf() && got == #[trigger] raw.normalize(a)
    &&& (dt_start.tz.is_fixed() ==> got == raw.normalize(wall_at(anchor_local(dt_start))))
}

impl RRule {
    /// Checks the rule and brings it into normal form for a set anchored
    /// at `dt_start`. A rule that is refused comes back as the error that
    /// names the first violation.
    pub fn validate(self, dt_start: Instant) -> (r: Result<RRule, RRuleError>)
        requires
            dt_start.wf(),
        ensures
            match self@.first_violation() {
                Some(e) => r == Err::<RRule, RRuleError>(RRuleError::ValidationError(e)),
                None => r matches Ok(n) && n@.wf() && n@.interval >= 1 && normal_for(
                    self@,
                    n@,
                    dt_start,
                ),
            },
    {
        match self.check() {
            Err(e) => Err(RRuleError::ValidationError(e)),
            Ok(()) => {
                let local: i64 = dt_start.local_secs();
                let a = wall_clock(local);
                proof {
                    lemma_normalize_keeps_wf(self@, a);
                }
                Ok(self.normalize(&a))
            },
        }
    }
}

/// A copy of a list of weekday filters.
pub fn copy_weekdays(v: &Vec<NWeekday>) -> (r: Vec<NWeekday>)
    ensures
        r@ == v@,
{
    let mut out: Vec<NWeekday> = Vec::new();
    let mut i: usize = 0;
    while i < v.len()
        invariant
            i <= v.len(),
            out@ == v@.subrange(0, i as int),
        decreases v.len() - i,
    {
        out.push(v[i]);
        i = i + 1;
    }
    out
}

} // verus!
