//! Writing rules as text.

use vstd::prelude::*;
use vstd::string::StringExecFns;

use crate::calendar::EPOCH_SECS;
use crate::instant::{wall_at, wall_clock, Instant};
use crate::error::{RRuleError, SyntaxError};
use crate::rule::{Frequency, NWeekday, RRule, RuleSpec, ValidationError, Weekday};

verus! {

/// The character of a decimal digit.
pub open spec fn digit_char(d: int) -> char {
    if d == 0 {
        '0'
    } else if d == 1 {
        '1'
    } else if d == 2 {
        '2'
    } else if d == 3 {
        '3'
    } else if d == 4 {
        '4'
    } else if d == 5 {
        '5'
    } else if d == 6 {
        '6'
    } else if d == 7 {
        '7'
    } else if d == 8 {
        '8'
    } else {
        '9'
    }
}

/// The decimal digits of a number that is not negative, without leading
/// zeros.
pub open spec fn digits(n: int) -> Seq<char>
    decreases n,
{
    if n < 10 {
        seq![digit_char(n)]
    } else {
        digits(n / 10).push(digit_char(n % 10))
    }
}

/// A number in decimal, with a minus sign in front where it is negative.
pub open spec fn decimal(n: int) -> Seq<char> {
    if n < 0 {
        seq!['-'] + digits(-n)
    } else {
        digits(n)
    }
}

/// The last `width` decimal digits of a number, with zeros in front.
pub open spec fn padded(n: int, width: int) -> Seq<char>
    decreases width,
{
    if width <= 0 {
        Seq::empty()
    } else {
        padded(n / 10, width - 1).push(digit_char(n % 10))
    }
}

/// The numbers of a list in decimal, separated by commas.
pub open spec fn list_text(s: Seq<i64>) -> Seq<char>
    decreases s.len(),
{
    if s.len() == 0 {
        Seq::empty()
    } else if s.len() == 1 {
        decimal(s[0] as int)
    } else {
        list_text(s.drop_last()) + seq![','] + decimal(s.last() as int)
    }
}

/// The two-letter code of a weekday.
pub open spec fn weekday_code(d: Weekday) -> Seq<char> {
    match d {
        Weekday::Mon => seq!['M', 'O'],
        Weekday::Tue => seq!['T', 'U'],
        Weekday::Wed => seq!['W', 'E'],
        Weekday::Thu => seq!['T', 'H'],
        Weekday::Fri => seq!['F', 'R'],
        Weekday::Sat => seq!['S', 'A'],
        Weekday::Sun => seq!['S', 'U'],
    }
}

/// A weekday filter as text: its ordinal, if it has one, and its code.
pub open spec fn nweekday_text(w: NWeekday) -> Seq<char> {
    match w {
        NWeekday::Every(d) => weekday_code(d),
        NWeekday::Nth(n, d) => decimal(n as int) + weekday_code(d),
    }
}

/// The weekday filters of a list, separated by commas.
pub open spec fn weekday_list_text(s: Seq<NWeekday>) -> Seq<char>
    decreases s.len(),
{
    if s.len() == 0 {
        Seq::empty()
    } else if s.len() == 1 {
        nweekday_text(s[0])
    } else {
        weekday_list_text(s.drop_last()) + seq![','] + nweekday_text(s.last())
    }
}

/// The name of a frequency.
pub open spec fn frequency_name(f: Frequency) -> Seq<char> {
    match f {
        Frequency::Yearly => "YEARLY"@,
        Frequency::Monthly => "MONTHLY"@,
        Frequency::Weekly => "WEEKLY"@,
        Frequency::Daily => "DAILY"@,
        Frequency::Hourly => "HOURLY"@,
        Frequency::Minutely => "MINUTELY"@,
        Frequency::Secondly => "SECONDLY"@,
    }
}

/// An instant in the basic form with a `Z`: its wall clock in UTC as
/// `YYYYMMDDTHHMMSSZ`.
pub open spec fn stamp_text(ts: int) -> Seq<char> {
    let w = wall_at(ts + EPOCH_SECS);
    padded(w.date.year as int, 4) + padded(w.date.month as int, 2) + padded(w.date.day as int, 2)
        + seq!['T'] + padded(w.hour as int, 2) + padded(w.minute as int, 2) + padded(
        w.second as int,
        2,
    ) + seq!['Z']
}

/// A by-list as a part of a rule's text: nothing where the list is empty,
/// else a semicolon, the name with its equals sign, and the numbers.
pub open spec fn part_text(name: Seq<char>, s: Seq<i64>) -> Seq<char> {
    if s.len() == 0 {
        Seq::empty()
    } else {
        seq![';'] + name + list_text(s)
    }
}

/// The bounds of a rule as text: its until bound and its count.
pub open spec fn bounds_text(r: RuleSpec) -> Seq<char> {
    (match r.until {
        Some(u) => ";UNTIL="@ + stamp_text(u.ts as int),
        None => Seq::empty(),
    }) + (match r.count {
        Some(n) => ";COUNT="@ + decimal(n as int),
        None => Seq::empty(),
    })
}

/// The interval and the start of the week as text, each only where it
/// differs from its default.
pub open spec fn pace_text(r: RuleSpec) -> Seq<char> {
    (if r.interval != 1 {
        ";INTERVAL="@ + decimal(r.interval as int)
    } else {
        Seq::empty()
    }) + (if r.week_start != Weekday::Mon {
        ";WKST="@ + weekday_code(r.week_start)
    } else {
        Seq::empty()
    })
}

/// The by-fields that select days, as text.
pub open spec fn day_fields_text(r: RuleSpec) -> Seq<char> {
    part_text("BYSETPOS="@, r.by_set_pos) + part_text("BYMONTH="@, r.by_month) + part_text(
        "BYMONTHDAY="@,
        r.by_month_day,
    ) + part_text("BYYEARDAY="@, r.by_year_day) + part_text("BYWEEKNO="@, r.by_week_no) + (
    if r.by_weekday.len() > 0 {
        ";BYDAY="@ + weekday_list_text(r.by_weekday)
    } else {
        Seq::empty()
    })
}

/// The by-fields that select times of day, as text.
pub open spec fn time_fields_text(r: RuleSpec) -> Seq<char> {
    part_text("BYHOUR="@, r.by_hour) + part_text("BYMINUTE="@, r.by_minute) + part_text(
        "BYSECOND="@,
        r.by_second,
    )
}

/// The text of a rule: its frequency first, then the parts that differ
/// from their defaults, in a fixed order.
pub open spec fn rule_text(r: RuleSpec) -> Seq<char> {
    "FREQ="@ + frequency_name(r.freq) + bounds_text(r) + pace_text(r) + day_fields_text(r)
        + time_fields_text(r)
}

/// The text of one decimal digit.
pub fn digit_str(d: i64) -> (r: &'static str)
    requires
        0 <= d <= 9,
    ensures
        r@ == seq![digit_char(d as int)],
{
    proof {
        reveal_strlit("0");
        reveal_strlit("1");
        reveal_strlit("2");
        reveal_strlit("3");
        reveal_strlit("4");
        reveal_strlit("5");
        reveal_strlit("6");
        reveal_strlit("7");
        reveal_strlit("8");
        reveal_strlit("9");
    }
    let r = if d == 0 {
        "0"
    } else if d == 1 {
        "1"
    } else if d == 2 {
        "2"
    } else if d == 3 {
        "3"
    } else if d == 4 {
        "4"
    } else if d == 5 {
        "5"
    } else if d == 6 {
        "6"
    } else if d == 7 {
        "7"
    } else if d == 8 {
        "8"
    } else {
        "9"
    };
    r
}

/// Appends the decimal digits of a number that is not negative.
pub fn push_digits(out: &mut String, n: i64)
    requires
        0 <= n,
    ensures
        final(out)@ == old(out)@ + digits(n as int),
    decreases n,
{
    if n >= 10 {
        push_digits(out, n / 10);
    }
    out.append(digit_str(n % 10));
}

/// Appends a number in decimal.
pub fn push_decimal(out: &mut String, n: i64)
    requires
        i64::MIN < n,
    ensures
        final(out)@ == old(out)@ + decimal(n as int),
{
    if n < 0 {
        proof {
            reveal_strlit("-");
        }
        out.append("-");
        push_digits(out, -n);
    } else {
        push_digits(out, n);
    }
}

/// Appends the last `width` digits of a number, with zeros in front.
pub fn push_padded(out: &mut String, n: i64, width: u8)
    requires
        0 <= n,
    ensures
        final(out)@ == old(out)@ + padded(n as int, width as int),
    decreases width,
{
    if width > 0 {
        push_padded(out, n / 10, width - 1);
        out.append(digit_str(n % 10));
    }
}

/// Appends the numbers of a list, separated by commas.
pub fn push_list(out: &mut String, list: &Vec<i64>)
    requires
        forall|i: int| 0 <= i < list@.len() ==> i64::MIN < #[trigger] list@[i],
    ensures
        final(out)@ == old(out)@ + list_text(list@),
{
    let mut i: usize = 0;
    while i < list.len()
        invariant
            i <= list@.len(),
            forall|k: int| 0 <= k < list@.len() ==> i64::MIN < #[trigger] list@[k],
            out@ == old(out)@ + list_text(list@.subrange(0, i as int)),
        decreases list@.len() - i,
    {
        if i > 0 {
            proof {
                reveal_strlit(",");
            }
            out.append(",");
        }
        push_decimal(out, list[i]);
        proof {
            let part = list@.subrange(0, i as int);
            let more = list@.subrange(0, i + 1);
            assert(more.drop_last() == part);
        }
        i = i + 1;
    }
    assert(list@.subrange(0, i as int) == list@);
}

/// Appends a by-list as a part of a rule's text.
pub fn push_part(out: &mut String, name: &str, list: &Vec<i64>)
    requires
        forall|i: int| 0 <= i < list@.len() ==> i64::MIN < #[trigger] list@[i],
    ensures
        final(out)@ == old(out)@ + part_text(name@, list@),
{
    if list.len() > 0 {
        proof {
            reveal_strlit(";");
        }
        out.append(";");
        out.append(name);
        push_list(out, list);
    }
}

/// The two-letter code of a weekday.
pub fn weekday_str(d: Weekday) -> (r: &'static str)
    ensures
        r@ == weekday_code(d),
{
    proof {
        reveal_strlit("MO");
        reveal_strlit("TU");
        reveal_strlit("WE");
        reveal_strlit("TH");
        reveal_strlit("FR");
        reveal_strlit("SA");
        reveal_strlit("SU");
    }
    let r = match d {
        Weekday::Mon => "MO",
        Weekday::Tue => "TU",
        Weekday::Wed => "WE",
        Weekday::Thu => "TH",
        Weekday::Fri => "FR",
        Weekday::Sat => "SA",
        Weekday::Sun => "SU",
    };
    r
}

/// The name of a frequency.
pub fn frequency_str(f: Frequency) -> (r: &'static str)
    ensures
        r@ == frequency_name(f),
{
    match f {
        Frequency::Yearly => "YEARLY",
        Frequency::Monthly => "MONTHLY",
        Frequency::Weekly => "WEEKLY",
        Frequency::Daily => "DAILY",
        Frequency::Hourly => "HOURLY",
        Frequency::Minutely => "MINUTELY",
        Frequency::Secondly => "SECONDLY",
    }
}

/// Appends one weekday filter.
pub fn push_nweekday(out: &mut String, w: NWeekday)
    requires
        w matches NWeekday::Nth(n, _) ==> i64::MIN < n,
    ensures
        final(out)@ == old(out)@ + nweekday_text(w),
{
    match w {
        NWeekday::Every(d) => {
            out.append(weekday_str(d));
        },
        NWeekday::Nth(n, d) => {
            push_decimal(out, n);
            out.append(weekday_str(d));
        },
    }
}

/// Appends the weekday filters of a list, separated by commas.
pub fn push_weekday_list(out: &mut String, list: &Vec<NWeekday>)
    requires
        forall|i: int|
            0 <= i < list@.len() ==> ((#[trigger] list@[i]) matches NWeekday::Nth(n, _)
                ==> i64::MIN < n),
    ensures
        final(out)@ == old(out)@ + weekday_list_text(list@),
{
    let mut i: usize = 0;
    while i < list.len()
        invariant
            i <= list@.len(),
            forall|k: int|
                0 <= k < list@.len() ==> ((#[trigger] list@[k]) matches NWeekday::Nth(n, _)
                    ==> i64::MIN < n),
            out@ == old(out)@ + weekday_list_text(list@.subrange(0, i as int)),
        decreases list@.len() - i,
    {
        if i > 0 {
            proof {
                reveal_strlit(",");
            }
            out.append(",");
        }
        push_nweekday(out, list[i]);
        proof {
            let part = list@.subrange(0, i as int);
            let more = list@.subrange(0, i + 1);
            assert(more.drop_last() == part);
        }
        i = i + 1;
    }
    assert(list@.subrange(0, i as int) == list@);
}

/// Appends an instant in the basic form with a `Z`.
pub fn push_stamp(out: &mut String, i: &Instant)
    requires
        i.wf(),
    ensures
        final(out)@ == old(out)@ + stamp_text(i.ts as int),
{
    let w = wall_clock(i.ts + EPOCH_SECS);
    proof {
        reveal_strlit("T");
        reveal_strlit("Z");
    }
    push_padded(out, w.date.year, 4);
    push_padded(out, w.date.month, 2);
    push_padded(out, w.date.day, 2);
    out.append("T");
    push_padded(out, w.hour, 2);
    push_padded(out, w.minute, 2);
    push_padded(out, w.second, 2);
    out.append("Z");
}

/// The numbers of the list can be written: none is the least number of
/// its type.
pub open spec fn writable(s: Seq<i64>) -> bool {
    forall|i: int| 0 <= i < s.len() ==> i64::MIN < #[trigger] s[i]
}

impl RRule {
    /// The rule can be written as text: its numbers can be written and its
    /// until bound, if any, lies in the supported range.
    pub open spec fn writable(&self) -> bool {
        &&& writable(self.by_set_pos@)
        &&& writable(self.by_month@)
        &&& writable(self.by_month_day@)
        &&& writable(self.by_year_day@)
        &&& writable(self.by_week_no@)
        &&& writable(self.by_hour@)
        &&& writable(self.by_minute@)
        &&& writable(self.by_second@)
        &&& forall|i: int|
            0 <= i < self.by_weekday@.len() ==> ((#[trigger] self.by_weekday@[i]) matches NWeekday::Nth(
                n,
                _,
            ) ==> i64::MIN < n)
        &&& (self.until matches Some(u) ==> u.wf())
    }

    /// Appends the until bound and the count.
    pub fn push_bounds(&self, out: &mut String)
        requires
            self.writable(),
        ensures
            final(out)@ == old(out)@ + bounds_text(self@),
    {
        match self.until {
            Some(u) => {
                out.append(";UNTIL=");
                push_stamp(out, &u);
            },
            None => {},
        }
        let ghost mid = out@;
        assert(mid =~= old(out)@ + (match self@.until {
            Some(u) => ";UNTIL="@ + stamp_text(u.ts as int),
            None => Seq::empty(),
        }));
        match self.count {
            Some(n) => {
                out.append(";COUNT=");
                push_decimal(out, n as i64);
            },
            None => {},
        }
    }

    /// Appends the interval and the start of the week where they differ
    /// from their defaults.
    pub fn push_pace(&self, out: &mut String)
        ensures
            final(out)@ == old(out)@ + pace_text(self@),
    {
        if self.interval != 1 {
            out.append(";INTERVAL=");
            push_decimal(out, self.interval as i64);
        }
        let ghost mid = out@;
        assert(mid =~= old(out)@ + (if self@.interval != 1 {
            ";INTERVAL="@ + decimal(self@.interval as int)
        } else {
            Seq::empty()
        }));
        if self.week_start != Weekday::Mon {
            out.append(";WKST=");
            out.append(weekday_str(self.week_start));
        }
    }

    /// Appends the by-fields that select days.
    pub fn push_day_fields(&self, out: &mut String)
        requires
            self.writable(),
        ensures
            final(out)@ == old(out)@ + day_fields_text(self@),
    {
        push_part(out, "BYSETPOS=", &self.by_set_pos);
        let ghost s1 = out@;
        push_part(out, "BYMONTH=", &self.by_month);
        let ghost s2 = out@;
        push_part(out, "BYMONTHDAY=", &self.by_month_day);
        let ghost s3 = out@;
        push_part(out, "BYYEARDAY=", &self.by_year_day);
        let ghost s4 = out@;
        push_part(out, "BYWEEKNO=", &self.by_week_no);
        let ghost s5 = out@;
        if self.by_weekday.len() > 0 {
            out.append(";BYDAY=");
            push_weekday_list(out, &self.by_weekday);
        }
        proof {
            let r = self@;
            let a1 = part_text("BYSETPOS="@, r.by_set_pos);
            let a2 = part_text("BYMONTH="@, r.by_month);
            let a3 = part_text("BYMONTHDAY="@, r.by_month_day);
            let a4 = part_text("BYYEARDAY="@, r.by_year_day);
            let a5 = part_text("BYWEEKNO="@, r.by_week_no);
            let a6 = if r.by_weekday.len() > 0 {
                ";BYDAY="@ + weekday_list_text(r.by_weekday)
            } else {
                Seq::<char>::empty()
            };
            assert(s2 =~= old(out)@ + (a1 + a2));
            assert(s3 =~= old(out)@ + (a1 + a2 + a3));
            assert(s4 =~= old(out)@ + (a1 + a2 + a3 + a4));
            assert(s5 =~= old(out)@ + (a1 + a2 + a3 + a4 + a5));
            assert(final(out)@ =~= s5 + a6);
            assert(final(out)@ =~= old(out)@ + (a1 + a2 + a3 + a4 + a5 + a6));
        }
    }

    /// Appends the by-fields that select times of day.
    pub fn push_time_fields(&self, out: &mut String)
        requires
            self.writable(),
        ensures
            final(out)@ == old(out)@ + time_fields_text(self@),
    {
        push_part(out, "BYHOUR=", &self.by_hour);
        let ghost s1 = out@;
        push_part(out, "BYMINUTE=", &self.by_minute);
        let ghost s2 = out@;
        push_part(out, "BYSECOND=", &self.by_second);
        proof {
            let r = self@;
            let a1 = part_text("BYHOUR="@, r.by_hour);
            let a2 = part_text("BYMINUTE="@, r.by_minute);
            let a3 = part_text("BYSECOND="@, r.by_second);
            assert(s2 =~= old(out)@ + (a1 + a2));
            assert(final(out)@ =~= old(out)@ + (a1 + a2 + a3));
        }
    }

    /// The text of the rule.
    pub fn to_string(&self) -> (r: String)
        requires
            self.writable(),
        ensures
            r@ == rule_text(self@),
    {
        let mut out = String::new();
        out.append("FREQ=");
        out.append(frequency_str(self.freq));
        let ghost s1 = out@;
        self.push_bounds(&mut out);
        let ghost s2 = out@;
        self.push_pace(&mut out);
        let ghost s3 = out@;
        self.push_day_fields(&mut out);
        let ghost s4 = out@;
        self.push_time_fields(&mut out);
        proof {
            let r = self@;
            assert(s1 =~= "FREQ="@ + frequency_name(r.freq));
            assert(s2 =~= "FREQ="@ + frequency_name(r.freq) + bounds_text(r));
            assert(s3 =~= "FREQ="@ + frequency_name(r.freq) + bounds_text(r) + pace_text(r));
            assert(s4 =~= "FREQ="@ + frequency_name(r.freq) + bounds_text(r) + pace_text(r)
                + day_fields_text(r));
            assert(out@ =~= rule_text(r));
        }
        out
    }
}

/// Why a text was refused, in words.
pub open spec fn syntax_text(e: SyntaxError) -> Seq<char> {
    match e {
        SyntaxError::NotAscii => "the text holds a character outside ASCII"@,
        SyntaxError::MissingStart => "no line states the start"@,
        SyntaxError::MissingColon => "a line has no colon"@,
        SyntaxError::UnknownProperty => "a line has an unknown name"@,
        SyntaxError::BadDate => "a date or time cannot be read or does not exist"@,
        SyntaxError::UnknownZone => "a time zone is not known"@,
        SyntaxError::BadRulePart => "a rule part is not a name and a value"@,
        SyntaxError::UnknownRulePart => "a rule part has an unknown name"@,
        SyntaxError::BadFrequency => "the frequency is not known"@,
        SyntaxError::BadNumber => "a number cannot be read"@,
        SyntaxError::BadWeekday => "a weekday is not known"@,
        SyntaxError::MissingFrequency => "a rule states no frequency"@,
    }
}

/// Why a text was refused, in words.
pub fn syntax_str(e: SyntaxError) -> (r: &'static str)
    ensures
        r@ == syntax_text(e),
{
    match e {
        SyntaxError::NotAscii => "the text holds a character outside ASCII",
        SyntaxError::MissingStart => "no line states the start",
        SyntaxError::MissingColon => "a line has no colon",
        SyntaxError::UnknownProperty => "a line has an unknown name",
        SyntaxError::BadDate => "a date or time cannot be read or does not exist",
        SyntaxError::UnknownZone => "a time zone is not known",
        SyntaxError::BadRulePart => "a rule part is not a name and a value",
        SyntaxError::UnknownRulePart => "a rule part has an unknown name",
        SyntaxError::BadFrequency => "the frequency is not known",
        SyntaxError::BadNumber => "a number cannot be read",
        SyntaxError::BadWeekday => "a weekday is not known",
        SyntaxError::MissingFrequency => "a rule states no frequency",
    }
}

/// Why a rule was refused, in words.
pub open spec fn violation_text(e: ValidationError) -> Seq<char> {
    match e {
        ValidationError::ZeroInterval => "the interval is zero"@,
        ValidationError::CountAndUntil => "a count and an until bound are both given"@,
        ValidationError::BadUntil => "the until bound lies outside the supported years"@,
        ValidationError::BadSetPos => "a set position is out of range"@,
        ValidationError::SetPosAlone => "set positions are given without another by-field"@,
        ValidationError::BadMonth => "a month is out of range"@,
        ValidationError::BadMonthDay => "a month day is out of range"@,
        ValidationError::BadYearDay => "a year day is out of range"@,
        ValidationError::BadWeekNo => "a week number is out of range"@,
        ValidationError::WeekNoNeedsYearly => "week numbers need a yearly rule"@,
        ValidationError::BadWeekdayOrdinal => "a weekday ordinal is not acceptable"@,
        ValidationError::BadHour => "an hour is out of range"@,
        ValidationError::BadMinute => "a minute is out of range"@,
        ValidationError::BadSecond => "a second is out of range"@,
    }
}

/// Why a rule was refused, in words.
pub fn violation_str(e: ValidationError) -> (r: &'static str)
    ensures
        r@ == violation_text(e),
{
    match e {
        ValidationError::ZeroInterval => "the interval is zero",
        ValidationError::CountAndUntil => "a count and an until bound are both given",
        ValidationError::BadUntil => "the until bound lies outside the supported years",
        ValidationError::BadSetPos => "a set position is out of range",
        ValidationError::SetPosAlone => "set positions are given without another by-field",
        ValidationError::BadMonth => "a month is out of range",
        ValidationError::BadMonthDay => "a month day is out of range",
        ValidationError::BadYearDay => "a year day is out of range",
        ValidationError::BadWeekNo => "a week number is out of range",
        ValidationError::WeekNoNeedsYearly => "week numbers need a yearly rule",
        ValidationError::BadWeekdayOrdinal => "a weekday ordinal is not acceptable",
        ValidationError::BadHour => "an hour is out of range",
        ValidationError::BadMinute => "a minute is out of range",
        ValidationError::BadSecond => "a second is out of range",
    }
}

/// What an error says: for a text or a rule that was refused, why; for a
/// generation that gave up, the bound that was reached.
pub open spec fn error_text(e: RRuleError) -> Seq<char> {
    match e {
        RRuleError::ParserError(x) => "RRule parser error: "@ + syntax_text(x),
        RRuleError::ValidationError(x) => "RRule validation error: "@ + violation_text(x),
        RRuleError::IterError(n) => "Reached max loop counter (`"@ + decimal(n as int)
            + "`). See 'validator limits' in docs for more info."@,
    }
}

impl RRuleError {
    /// What the error says.
    pub fn message(&self) -> (r: String)
        ensures
            r@ == error_text(*self),
    {
        let mut out = String::new();
        match *self {
            RRuleError::ParserError(x) => {
                out.append("RRule parser error: ");
                out.append(syntax_str(x));
            },
            RRuleError::ValidationError(x) => {
                out.append("RRule validation error: ");
                out.append(violation_str(x));
            },
            RRuleError::IterError(n) => {
                out.append("Reached max loop counter (`");
                push_decimal(&mut out, n as i64);
                out.append("`). See 'validator limits' in docs for more info.");
            },
        }
        out
    }
}

impl Instant {
    /// The text of this instant: its RFC 3339 form.
    pub fn to_string(&self) -> (r: String)
        requires
            self.wf(),
        ensures
            crate::instant::shown_as(*self, r@),
    {
        self.to_rfc3339()
    }
}

} // verus!
