//! Reading recurrence sets and rules from their text.
//!
//! A set is written as lines. Each line has a name, parameters after
//! semicolons, a colon, and a value: `DTSTART;TZID=Europe/Berlin:20240530T200000`
//! states the anchor, `RRULE:FREQ=DAILY;COUNT=3` an inclusion rule, `EXRULE`
//! an exclusion rule, `RDATE` and `EXDATE` explicit instants.

use vstd::prelude::*;
use vstd::string::{StrSliceExecFns, StringSliceAdditionalSpecFns};

use crate::calendar::valid_date;
use crate::error::{RRuleError, SyntaxError};
use crate::instant::{wall_at, Instant, WallClock};
use crate::sequence::anchor_local;
use crate::rruleset_iter::all_wf;
use crate::rule::{Frequency, NWeekday, RRule, RuleSpec, ValidationError, Weekday};
use crate::set::{views, RRuleSet, SetSpec};
use crate::zone::{zone_id, Tz};

verus! {

/// The byte is a decimal digit.
pub open spec fn is_digit(b: u8) -> bool {
    48 <= b <= 57
}

/// Every byte is a decimal digit.
pub open spec fn all_digits(s: Seq<u8>) -> bool {
    forall|i: int| 0 <= i < s.len() ==> is_digit(#[trigger] s[i])
}

/// The number that a run of decimal digits stands for.
pub open spec fn digits_value(s: Seq<u8>) -> int
    decreases s.len(),
{
    if s.len() == 0 {
        0
    } else {
        digits_value(s.drop_last()) * 10 + (s.last() - 48)
    }
}

/// A longer run of digits stands for at least ten times as much.
pub proof fn lemma_digits_grow(s: Seq<u8>, i: int, j: int)
    requires
        0 <= i <= j <= s.len(),
        all_digits(s),
    ensures
        digits_value(s.subrange(0, i)) <= digits_value(s.subrange(0, j)),
        i < j ==> digits_value(s.subrange(0, i)) * 10 <= digits_value(s.subrange(0, j)),
        0 <= digits_value(s.subrange(0, i)),
    decreases j - i, j,
{
    if i < j {
        lemma_digits_grow(s, i, j - 1);
        assert(s.subrange(0, j).drop_last() == s.subrange(0, j - 1));
    } else if i > 0 {
        lemma_digits_grow(s, i - 1, i - 1);
        assert(s.subrange(0, i).drop_last() == s.subrange(0, i - 1));
    }
}

/// The position of the first `c` in `s` from `from` up to `to`, or `to`
/// if there is none.
pub open spec fn first_at(s: Seq<u8>, from: int, to: int, c: u8) -> int
    decreases to - from,
{
    if from >= to {
        to
    } else if s[from] == c {
        from
    } else {
        first_at(s, from + 1, to, c)
    }
}

/// Where the first `c` is found, there is one, and none before it.
pub proof fn lemma_first_at(s: Seq<u8>, from: int, to: int, c: u8)
    requires
        from <= to,
    ensures
        from <= first_at(s, from, to, c) <= to,
        first_at(s, from, to, c) < to ==> s[first_at(s, from, to, c)] == c,
        forall|i: int| from <= i < first_at(s, from, to, c) ==> s[i] != c,
    decreases to - from,
{
    if from < to && s[from] != c {
        lemma_first_at(s, from + 1, to, c);
    }
}

/// The position of the first `c` in `b` from `from` up to `to`, or `to`
/// if there is none.
pub fn find_byte(b: &[u8], from: usize, to: usize, c: u8) -> (r: usize)
    requires
        from <= to <= b@.len(),
    ensures
        r == first_at(b@, from as int, to as int, c),
        from <= r <= to,
        r < to ==> b@[r as int] == c,
        forall|i: int| from <= i < r ==> b@[i] != c,
{
    let mut i: usize = from;
    while i < to
        invariant
            from <= i <= to <= b@.len(),
            forall|k: int| from <= k < i ==> b@[k] != c,
            first_at(b@, from as int, to as int, c) == first_at(b@, i as int, to as int, c),
        decreases to - i,
    {
        if b[i] == c {
            return i;
        }
        i = i + 1;
    }
    to
}

/// Tests whether the bytes of `b` from `from` up to `to` spell `word`.
pub fn range_is(b: &[u8], from: usize, to: usize, word: &str) -> (r: bool)
    requires
        from <= to <= b@.len(),
    ensures
        r == (b@.subrange(from as int, to as int) == word.spec_bytes()),
{
    let w = word.as_bytes();
    if w.len() != to - from {
        return false;
    }
    let mut i: usize = 0;
    while i < w.len()
        invariant
            from <= to <= b@.len(),
            w@.len() == to - from,
            w@ == word.spec_bytes(),
            i <= w@.len(),
            forall|k: int| 0 <= k < i ==> b@[from + k] == w@[k],
        decreases w@.len() - i,
    {
        if b[from + i] != w[i] {
            return false;
        }
        i = i + 1;
    }
    assert(b@.subrange(from as int, to as int) =~= w@);
    true
}

/// Reads a run of decimal digits as a number of at most 999999999.
pub fn parse_uint(b: &[u8], from: usize, to: usize) -> (r: Option<i64>)
    requires
        from <= to <= b@.len(),
    ensures
        r == (match parse_uint_spec(b@.subrange(from as int, to as int)) {
            Some(v) => Some(v as i64),
            None => None,
        }),
        r matches Some(v) ==> 0 <= v <= 999999999,
{
    let ghost s = b@.subrange(from as int, to as int);
    if from >= to {
        return None;
    }
    let mut bad: bool = false;
    let mut k: usize = from;
    while k < to
        invariant
            from <= k <= to <= b@.len(),
            s == b@.subrange(from as int, to as int),
            !bad ==> all_digits(s.subrange(0, k - from)),
            bad ==> !all_digits(s),
        decreases to - k,
    {
        if b[k] < 48 || b[k] > 57 {
            assert(!is_digit(s[k - from]));
            bad = true;
        }
        assert forall|i: int| 0 <= i < k + 1 - from && !bad implies is_digit(
            #[trigger] s.subrange(0, k + 1 - from)[i],
        ) by {}
        k = k + 1;
    }
    if bad {
        return None;
    }
    assert(s.subrange(0, to - from) == s);
    let mut acc: i64 = 0;
    let mut i: usize = from;
    while i < to
        invariant
            from <= i <= to <= b@.len(),
            s == b@.subrange(from as int, to as int),
            all_digits(s),
            acc == digits_value(s.subrange(0, i - from)),
            0 <= acc <= 999999999,
        decreases to - i,
    {
        proof {
            lemma_digits_grow(s, i - from, to - from);
            lemma_digits_grow(s, i + 1 - from, to - from);
            assert(s.subrange(0, to - from) == s);
            assert(s.subrange(0, i + 1 - from).drop_last() == s.subrange(0, i - from));
        }
        if acc > 99999999 {
            return None;
        }
        acc = acc * 10 + (b[i] - 48) as i64;
        i = i + 1;
    }
    Some(acc)
}

/// Reads a number with an optional sign.
pub fn parse_int(b: &[u8], from: usize, to: usize) -> (r: Option<i64>)
    requires
        from <= to <= b@.len(),
    ensures
        r == as_i64(int_of(b@.subrange(from as int, to as int))),
        r matches Some(v) ==> -999999999 <= v <= 999999999,
{
    let ghost s = b@.subrange(from as int, to as int);
    if from < to && b[from] == 45 {
        assert(s.skip(1) == b@.subrange(from + 1, to as int));
        match parse_uint(b, from + 1, to) {
            Some(v) => Some(-v),
            None => None,
        }
    } else if from < to && b[from] == 43 {
        assert(s.skip(1) == b@.subrange(from + 1, to as int));
        parse_uint(b, from + 1, to)
    } else {
        parse_uint(b, from, to)
    }
}

/// A number as a machine number.
pub open spec fn as_i64(o: Option<int>) -> Option<i64> {
    match o {
        Some(v) => Some(v as i64),
        None => None,
    }
}

/// The number that a text of digits with an optional sign in front stands
/// for.
pub open spec fn int_of(s: Seq<u8>) -> Option<int> {
    if s.len() > 0 && s[0] == 45 {
        match parse_uint_spec(s.skip(1)) {
            Some(v) => Some(-v),
            None => None,
        }
    } else if s.len() > 0 && s[0] == 43 {
        parse_uint_spec(s.skip(1))
    } else {
        parse_uint_spec(s)
    }
}

/// What a list gives once `head` is put in front of it.
pub open spec fn with_head<T>(head: Seq<T>, rest: Option<Seq<T>>) -> Option<Seq<T>> {
    match rest {
        Some(l) => Some(head + l),
        None => None,
    }
}

/// The numbers that a comma-separated list in `s` from `from` up to `to`
/// stands for, if each of its members is a number.
pub open spec fn int_list_of(s: Seq<u8>, from: int, to: int) -> Option<Seq<i64>>
    decreases to - from,
{
    let end = first_at(s, from, to, 44);
    match int_of(s.subrange(from, end)) {
        None => None,
        Some(v) => if end >= to || end < from {
            Some(seq![v as i64])
        } else {
            with_head(seq![v as i64], int_list_of(s, end + 1, to))
        },
    }
}

/// The number that a text of digits stands for, if it is one of at most
/// 999999999.
pub open spec fn parse_uint_spec(s: Seq<u8>) -> Option<int> {
    if s.len() > 0 && all_digits(s) && 0 <= digits_value(s) <= 999999999 {
        Some(digits_value(s))
    } else {
        None
    }
}

/// Reads a comma-separated list of numbers.
pub fn parse_int_list(b: &[u8], from: usize, to: usize) -> (r: Option<Vec<i64>>)
    requires
        from <= to <= b@.len(),
    ensures
        match int_list_of(b@, from as int, to as int) {
            Some(l) => r matches Some(v) && v@ == l,
            None => r is None,
        },
        r matches Some(v) ==> v@.len() >= 1 && forall|i: int|
            0 <= i < v@.len() ==> -999999999 <= #[trigger] v@[i] <= 999999999,
{
    let mut out: Vec<i64> = Vec::new();
    let mut at: usize = from;
    loop
        invariant
            from <= at <= to <= b@.len(),
            forall|i: int| 0 <= i < out@.len() ==> -999999999 <= #[trigger] out@[i] <= 999999999,
            int_list_of(b@, from as int, to as int) == with_head(
                out@,
                int_list_of(b@, at as int, to as int),
            ),
        decreases to - at,
    {
        let end: usize = find_byte(b, at, to, 44);
        match parse_int(b, at, end) {
            Some(v) => {
                out.push(v);
            },
            None => {
                return None;
            },
        }
        if end >= to {
            return Some(out);
        }
        at = end + 1;
    }
}

/// The weekday that a two-letter code stands for.
pub open spec fn weekday_of_code(s: Seq<u8>) -> Option<Weekday> {
    if s.len() != 2 {
        None
    } else if s[0] == 77 && s[1] == 79 {
        Some(Weekday::Mon)
    } else if s[0] == 84 && s[1] == 85 {
        Some(Weekday::Tue)
    } else if s[0] == 87 && s[1] == 69 {
        Some(Weekday::Wed)
    } else if s[0] == 84 && s[1] == 72 {
        Some(Weekday::Thu)
    } else if s[0] == 70 && s[1] == 82 {
        Some(Weekday::Fri)
    } else if s[0] == 83 && s[1] == 65 {
        Some(Weekday::Sat)
    } else if s[0] == 83 && s[1] == 85 {
        Some(Weekday::Sun)
    } else {
        None
    }
}

/// The weekday filter that a text stands for: a weekday code, with an
/// ordinal in front or without.
pub open spec fn nweekday_of(s: Seq<u8>) -> Option<NWeekday> {
    if s.len() < 2 {
        None
    } else {
        match weekday_of_code(s.subrange(s.len() - 2, s.len() as int)) {
            None => None,
            Some(d) => if s.len() == 2 {
                Some(NWeekday::Every(d))
            } else {
                match int_of(s.subrange(0, s.len() - 2)) {
                    Some(n) => Some(NWeekday::Nth(n as i64, d)),
                    None => None,
                }
            },
        }
    }
}

/// The weekday filters that a comma-separated list in `s` from `from` up
/// to `to` stands for, if each of its members is one.
pub open spec fn weekday_list_of(s: Seq<u8>, from: int, to: int) -> Option<Seq<NWeekday>>
    decreases to - from,
{
    let end = first_at(s, from, to, 44);
    match nweekday_of(s.subrange(from, end)) {
        None => None,
        Some(w) => if end >= to || end < from {
            Some(seq![w])
        } else {
            with_head(seq![w], weekday_list_of(s, end + 1, to))
        },
    }
}

/// The frequency that a name stands for.
pub open spec fn frequency_of_name(s: Seq<u8>) -> Option<Frequency> {
    if s == "YEARLY".spec_bytes() {
        Some(Frequency::Yearly)
    } else if s == "MONTHLY".spec_bytes() {
        Some(Frequency::Monthly)
    } else if s == "WEEKLY".spec_bytes() {
        Some(Frequency::Weekly)
    } else if s == "DAILY".spec_bytes() {
        Some(Frequency::Daily)
    } else if s == "HOURLY".spec_bytes() {
        Some(Frequency::Hourly)
    } else if s == "MINUTELY".spec_bytes() {
        Some(Frequency::Minutely)
    } else if s == "SECONDLY".spec_bytes() {
        Some(Frequency::Secondly)
    } else {
        None
    }
}

/// The date and time of day that a text names, as it is written.
#[derive(Clone, Copy, Debug, PartialEq, Eq, Structural)]
pub struct Stamp {
    pub year: i64,
    pub month: i64,
    pub day: i64,
    pub hour: i64,
    pub minute: i64,
    pub second: i64,
    /// The text ends in `Z`: the time is one of UTC.
    pub utc: bool,
    /// The text is a date alone.
    pub date_only: bool,
}

/// What a text names that has one of the three forms in which an instant
/// is written: a date (`YYYYMMDD`), or a date with a time
/// (`YYYYMMDDTHHMMSS`), with a `Z` behind it or without.
pub open spec fn stamp_of(s: Seq<u8>) -> Option<Stamp> {
    let n = s.len();
    if n != 8 && n != 15 && n != 16 {
        None
    } else {
        match (
            parse_uint_spec(s.subrange(0, 4)),
            parse_uint_spec(s.subrange(4, 6)),
            parse_uint_spec(s.subrange(6, 8)),
        ) {
            (Some(y), Some(m), Some(d)) => if n == 8 {
                Some(
                    Stamp {
                        year: y as i64,
                        month: m as i64,
                        day: d as i64,
                        hour: 0,
                        minute: 0,
                        second: 0,
                        utc: false,
                        date_only: true,
                    },
                )
            } else if s[8] != 84 {
                None
            } else {
                match (
                    parse_uint_spec(s.subrange(9, 11)),
                    parse_uint_spec(s.subrange(11, 13)),
                    parse_uint_spec(s.subrange(13, 15)),
                ) {
                    (Some(h), Some(mi), Some(sec)) => if n == 16 && s[15] != 90 {
                        None
                    } else {
                        Some(
                            Stamp {
                                year: y as i64,
                                month: m as i64,
                                day: d as i64,
                                hour: h as i64,
                                minute: mi as i64,
                                second: sec as i64,
                                utc: n == 16,
                                date_only: false,
                            },
                        )
                    },
                    _ => None,
                }
            },
            _ => None,
        }
    }
}

impl Stamp {
    /// The fields name a date of a supported year and, unless the stamp is
    /// a date alone, a time of day.
    pub open spec fn valid(self) -> bool {
        valid_date(self.year as int, self.month as int, self.day as int) && (self.date_only || (0
            <= self.hour < 24 && 0 <= self.minute < 60 && 0 <= self.second < 60))
    }

    /// The stamp is read on the wall clock of a zone: it is a date alone,
    /// or has no `Z` behind its time.
    pub open spec fn on_wall_clock(self) -> bool {
        self.date_only || !self.utc
    }

    /// The instant that the stamp stands for. Without a `Z`, the wall clock
    /// is that of the fixed zone `tz`. A date alone stands for its first
    /// second, or for its last where `end_of_day` is set.
    pub open spec fn at(self, tz: Tz, end_of_day: bool) -> Option<Instant> {
        let y = self.year as int;
        let m = self.month as int;
        let d = self.day as int;
        if self.date_only {
            if end_of_day {
                Instant::at_local(tz, y, m, d, 23, 59, 59)
            } else {
                Instant::at_local(tz, y, m, d, 0, 0, 0)
            }
        } else if self.utc {
            Instant::at_local(
                Tz::Utc,
                y,
                m,
                d,
                self.hour as int,
                self.minute as int,
                self.second as int,
            )
        } else {
            Instant::at_local(tz, y, m, d, self.hour as int, self.minute as int, self.second as int)
        }
    }

    /// Finds the instant that the stamp stands for.
    pub fn instant(&self, tz: Tz, end_of_day: bool) -> (r: Option<Instant>)
        ensures
            r matches Some(i) ==> i.wf() && (i.tz == tz || i.tz == Tz::Utc),
            tz.is_fixed() || !self.on_wall_clock() ==> r == self.at(tz, end_of_day),
            !self.valid() ==> r is None,
    {
        if self.date_only {
            if end_of_day {
                Instant::from_local(tz, self.year, self.month, self.day, 23, 59, 59)
            } else {
                Instant::from_local(tz, self.year, self.month, self.day, 0, 0, 0)
            }
        } else if self.utc {
            Instant::from_local(
                Tz::Utc,
                self.year,
                self.month,
                self.day,
                self.hour,
                self.minute,
                self.second,
            )
        } else {
            Instant::from_local(
                tz,
                self.year,
                self.month,
                self.day,
                self.hour,
                self.minute,
                self.second,
            )
        }
    }
}

/// The instant that a text stands for: a date (`YYYYMMDD`) or a date with
/// a time (`YYYYMMDDTHHMMSS`, with a `Z` behind it for UTC). Without the
/// `Z`, the wall clock is that of the fixed zone `tz`. A date alone stands
/// for its first second, or for its last where `end_of_day` is set.
pub open spec fn instant_of(s: Seq<u8>, tz: Tz, end_of_day: bool) -> Option<Instant> {
    match stamp_of(s) {
        Some(stamp) => stamp.at(tz, end_of_day),
        None => None,
    }
}

/// The text names a date, or a date and a time of day, in one of the three
/// forms in which an instant is written. Whether that time occurs in a
/// zone is another matter.
pub open spec fn names_time(s: Seq<u8>) -> bool {
    stamp_of(s) matches Some(stamp) && stamp.valid()
}

/// The text is read on no wall clock, whatever it holds: only a date
/// alone and a date with a time and no `Z` behind it are read on one, and
/// those are eight and fifteen characters long.
pub open spec fn clock_free(s: Seq<u8>) -> bool {
    s.len() != 8 && s.len() != 15
}

/// The instants that a comma-separated list in `s` from `from` up to `to`
/// stands for, if each of its members is one.
pub open spec fn instant_list_of(s: Seq<u8>, from: int, to: int, tz: Tz) -> Option<Seq<Instant>>
    decreases to - from,
{
    let end = first_at(s, from, to, 44);
    match instant_of(s.subrange(from, end), tz, false) {
        None => None,
        Some(i) => if end >= to || end < from {
            Some(seq![i])
        } else {
            with_head(seq![i], instant_list_of(s, end + 1, to, tz))
        },
    }
}

/// Reads the two-letter code of a weekday.
pub fn parse_weekday(b: &[u8], from: usize, to: usize) -> (r: Option<Weekday>)
    requires
        from <= to <= b@.len(),
    ensures
        r == weekday_of_code(b@.subrange(from as int, to as int)),
{
    let ghost s = b@.subrange(from as int, to as int);
    if to - from != 2 {
        return None;
    }
    let a: u8 = b[from];
    let c: u8 = b[from + 1];
    if a == 77 && c == 79 {
        Some(Weekday::Mon)
    } else if a == 84 && c == 85 {
        Some(Weekday::Tue)
    } else if a == 87 && c == 69 {
        Some(Weekday::Wed)
    } else if a == 84 && c == 72 {
        Some(Weekday::Thu)
    } else if a == 70 && c == 82 {
        Some(Weekday::Fri)
    } else if a == 83 && c == 65 {
        Some(Weekday::Sat)
    } else if a == 83 && c == 85 {
        Some(Weekday::Sun)
    } else {
        None
    }
}

/// Reads a weekday code with an optional ordinal in front.
pub fn parse_nweekday(b: &[u8], from: usize, to: usize) -> (r: Option<NWeekday>)
    requires
        from <= to <= b@.len(),
    ensures
        r == nweekday_of(b@.subrange(from as int, to as int)),
{
    let ghost s = b@.subrange(from as int, to as int);
    if to - from < 2 {
        return None;
    }
    assert(s.subrange(0, s.len() - 2) == b@.subrange(from as int, to - 2));
    let day = match parse_weekday(b, to - 2, to) {
        Some(d) => d,
        None => {
            return None;
        },
    };
    if to - from == 2 {
        Some(NWeekday::Every(day))
    } else {
        match parse_int(b, from, to - 2) {
            Some(n) => Some(NWeekday::Nth(n, day)),
            None => None,
        }
    }
}

/// Reads a comma-separated list of weekdays, each with an optional ordinal
/// in front.
pub fn parse_weekday_list(b: &[u8], from: usize, to: usize) -> (r: Option<Vec<NWeekday>>)
    requires
        from <= to <= b@.len(),
    ensures
        match weekday_list_of(b@, from as int, to as int) {
            Some(l) => r matches Some(v) && v@ == l,
            None => r is None,
        },
{
    let mut out: Vec<NWeekday> = Vec::new();
    let mut at: usize = from;
    loop
        invariant
            from <= at <= to <= b@.len(),
            weekday_list_of(b@, from as int, to as int) == with_head(
                out@,
                weekday_list_of(b@, at as int, to as int),
            ),
        decreases to - at,
    {
        let end: usize = find_byte(b, at, to, 44);
        match parse_nweekday(b, at, end) {
            Some(w) => {
                out.push(w);
            },
            None => {
                return None;
            },
        }
        if end >= to {
            return Some(out);
        }
        at = end + 1;
    }
}

/// Reads the name of a frequency.
pub fn parse_frequency(b: &[u8], from: usize, to: usize) -> (r: Option<Frequency>)
    requires
        from <= to <= b@.len(),
    ensures
        r == frequency_of_name(b@.subrange(from as int, to as int)),
{
    if range_is(b, from, to, "YEARLY") {
        Some(Frequency::Yearly)
    } else if range_is(b, from, to, "MONTHLY") {
        Some(Frequency::Monthly)
    } else if range_is(b, from, to, "WEEKLY") {
        Some(Frequency::Weekly)
    } else if range_is(b, from, to, "DAILY") {
        Some(Frequency::Daily)
    } else if range_is(b, from, to, "HOURLY") {
        Some(Frequency::Hourly)
    } else if range_is(b, from, to, "MINUTELY") {
        Some(Frequency::Minutely)
    } else if range_is(b, from, to, "SECONDLY") {
        Some(Frequency::Secondly)
    } else {
        None
    }
}

/// Reads what a text names that has one of the three forms in which an
/// instant is written.
pub fn parse_stamp(b: &[u8], from: usize, to: usize) -> (r: Option<Stamp>)
    requires
        from <= to <= b@.len(),
    ensures
        r == stamp_of(b@.subrange(from as int, to as int)),
{
    let ghost s = b@.subrange(from as int, to as int);
    let len: usize = to - from;
    if len != 8 && len != 15 && len != 16 {
        return None;
    }
    proof {
        assert(s.subrange(0, 4) == b@.subrange(from as int, from + 4));
        assert(s.subrange(4, 6) == b@.subrange(from + 4, from + 6));
        assert(s.subrange(6, 8) == b@.subrange(from + 6, from + 8));
        if len >= 15 {
            assert(s.subrange(9, 11) == b@.subrange(from + 9, from + 11));
            assert(s.subrange(11, 13) == b@.subrange(from + 11, from + 13));
            assert(s.subrange(13, 15) == b@.subrange(from + 13, from + 15));
        }
    }
    let y = parse_uint(b, from, from + 4);
    let m = parse_uint(b, from + 4, from + 6);
    let d = parse_uint(b, from + 6, from + 8);
    let (year, month, day) = match (y, m, d) {
        (Some(y), Some(m), Some(d)) => (y, m, d),
        _ => {
            return None;
        },
    };
    if len == 8 {
        return Some(
            Stamp { year, month, day, hour: 0, minute: 0, second: 0, utc: false, date_only: true },
        );
    }
    if b[from + 8] != 84 {
        return None;
    }
    let h = parse_uint(b, from + 9, from + 11);
    let mi = parse_uint(b, from + 11, from + 13);
    let sec = parse_uint(b, from + 13, from + 15);
    let (hour, minute, second) = match (h, mi, sec) {
        (Some(h), Some(mi), Some(sec)) => (h, mi, sec),
        _ => {
            return None;
        },
    };
    if len == 16 && b[from + 15] != 90 {
        return None;
    }
    Some(Stamp { year, month, day, hour, minute, second, utc: len == 16, date_only: false })
}

/// Reads a date (`YYYYMMDD`) or a date with a time (`YYYYMMDDTHHMMSS`, with
/// a `Z` behind it for UTC) as an instant. Without the `Z`, the wall clock
/// is that of `tz`. A date alone stands for its first second, or for its
/// last where `end_of_day` is set.
pub fn parse_instant(b: &[u8], from: usize, to: usize, tz: Tz, end_of_day: bool) -> (r: Option<
    Instant,
>)
    requires
        from <= to <= b@.len(),
    ensures
        r matches Some(i) ==> i.wf() && (i.tz == tz || i.tz == Tz::Utc),
        tz.is_fixed() || clock_free(b@.subrange(from as int, to as int)) ==> r == instant_of(
            b@.subrange(from as int, to as int),
            tz,
            end_of_day,
        ),
        !names_time(b@.subrange(from as int, to as int)) ==> r is None,
{
    match parse_stamp(b, from, to) {
        Some(stamp) => stamp.instant(tz, end_of_day),
        None => None,
    }
}

/// Where member `k` of a comma-separated list in `s` from `from` up to
/// `to` begins.
pub open spec fn member_at(s: Seq<u8>, from: int, to: int, k: nat) -> int
    decreases k,
{
    if k == 0 {
        from
    } else {
        first_at(s, member_at(s, from, to, (k - 1) as nat), to, 44) + 1
    }
}

/// The text of member `k` of a comma-separated list.
pub open spec fn member_text(s: Seq<u8>, from: int, to: int, k: nat) -> Seq<u8> {
    s.subrange(member_at(s, from, to, k), first_at(s, member_at(s, from, to, k), to, 44))
}

/// The instant is a reading of the text in `tz`: the text names a date,
/// or a date and a time of day, and the instant is the one it stands for
/// where the zone is a fixed one or the text is read on no wall clock.
pub open spec fn member_read(i: Instant, text: Seq<u8>, tz: Tz) -> bool {
    &&& i.wf()
    &&& (i.tz == tz || i.tz == Tz::Utc)
    &&& names_time(text)
    &&& (tz.is_fixed() || clock_free(text) ==> instant_of(text, tz, false) == Some(i))
}

/// The instants are a reading in `tz` of the comma-separated list in `s`
/// from `from` up to `to`: one for each member, in order.
pub open spec fn list_read(l: Seq<Instant>, s: Seq<u8>, from: int, to: int, tz: Tz) -> bool {
    &&& l.len() >= 1
    &&& forall|k: nat| k < l.len() ==> member_read(#[trigger] l[k as int], member_text(s, from, to, k), tz)
    &&& forall|k: nat| k + 1 < l.len() ==> first_at(s, #[trigger] member_at(s, from, to, k), to, 44) < to
    &&& first_at(s, member_at(s, from, to, (l.len() - 1) as nat), to, 44) >= to
}

/// The instants are a reading of the first members of the list, and the
/// next member begins at `at`.
pub open spec fn list_begun(l: Seq<Instant>, s: Seq<u8>, from: int, to: int, tz: Tz, at: int) -> bool {
    &&& at == member_at(s, from, to, l.len())
    &&& forall|k: nat| k < l.len() ==> member_read(#[trigger] l[k as int], member_text(s, from, to, k), tz)
    &&& forall|k: nat| k < l.len() ==> first_at(s, #[trigger] member_at(s, from, to, k), to, 44) < to
}

/// A reading of the first members of a list with a reading of the next
/// member behind it is a reading of the list, if that member is the last,
/// and else one of its first members.
pub proof fn lemma_list_grows(l: Seq<Instant>, i: Instant, s: Seq<u8>, from: int, to: int, tz: Tz, at: int)
    requires
        list_begun(l, s, from, to, tz, at),
        member_read(i, s.subrange(at, first_at(s, at, to, 44)), tz),
    ensures
        first_at(s, at, to, 44) >= to ==> list_read(l.push(i), s, from, to, tz),
        first_at(s, at, to, 44) < to ==> list_begun(
            l.push(i),
            s,
            from,
            to,
            tz,
            first_at(s, at, to, 44) + 1,
        ),
{
    let more = l.push(i);
    assert forall|k: nat| k < more.len() implies member_read(
        #[trigger] more[k as int],
        member_text(s, from, to, k),
        tz,
    ) by {}
}

/// Reads a comma-separated list of instants and appends them to `out`.
/// Where a member is no instant, what came before it is appended all the
/// same.
pub fn parse_instant_list(b: &[u8], from: usize, to: usize, tz: Tz, out: &mut Vec<Instant>) -> (ok:
    bool)
    requires
        from <= to <= b@.len(),
        all_wf(old(out)@),
    ensures
        all_wf(final(out)@),
        tz.is_fixed() ==> (match instant_list_of(b@, from as int, to as int, tz) {
            Some(l) => ok && final(out)@ == old(out)@ + l,
            None => !ok,
        }),
        ok ==> exists|l: Seq<Instant>| #[trigger]
            list_read(l, b@, from as int, to as int, tz) && final(out)@ == old(out)@ + l,
{
    let mut at: usize = from;
    let ghost mut seen: Seq<Instant> = Seq::empty();
    loop
        invariant
            from <= at <= to <= b@.len(),
            all_wf(out@),
            out@ == old(out)@ + seen,
            list_begun(seen, b@, from as int, to as int, tz, at as int),
            tz.is_fixed() ==> instant_list_of(b@, from as int, to as int, tz) == with_head(
                seen,
                instant_list_of(b@, at as int, to as int, tz),
            ),
        decreases to - at,
    {
        let end: usize = find_byte(b, at, to, 44);
        let ghost before = seen;
        match parse_instant(b, at, end, tz, false) {
            Some(i) => {
                out.push(i);
                proof {
                    seen = seen.push(i);
                    lemma_list_grows(before, i, b@, from as int, to as int, tz, at as int);
                }
            },
            None => {
                return false;
            },
        }
        if end >= to {
            return true;
        }
        at = end + 1;
    }
}

/// The zone that the parameters of a line name with `TZID`, if they name
/// one. The parameters are the part of the line from `from` up to `to`,
/// each behind a semicolon; `chars` is the text as characters. Parameters
/// of other names are passed over.
pub open spec fn zone_of_params(s: Seq<u8>, chars: Seq<char>, from: int, to: int) -> Result<
    Option<Tz>,
    SyntaxError,
>
    decreases to - from,
{
    if from >= to {
        Ok(None)
    } else {
        let start = from + 1;
        let end = first_at(s, start, to, 59);
        if end - start >= 5 && s.subrange(start, start + 5) == "TZID=".spec_bytes() {
            if s.subrange(start + 5, end) == "UTC".spec_bytes() {
                Ok(Some(Tz::Utc))
            } else {
                match zone_id(chars.subrange(start + 5, end)) {
                    Some(id) => Ok(Some(Tz::Named(id))),
                    None => Err(SyntaxError::UnknownZone),
                }
            }
        } else if end <= from || end > to {
            Ok(None)
        } else {
            zone_of_params(s, chars, end, to)
        }
    }
}

/// Finds the zone that the parameters of a line name with `TZID`, if
/// they name one.
pub fn parse_zone(text: &str, b: &[u8], from: usize, to: usize) -> (r: Result<
    Option<Tz>,
    SyntaxError,
>)
    requires
        text.is_ascii(),
        b@ == text.spec_bytes(),
        from <= to <= b@.len(),
    ensures
        r == zone_of_params(b@, text@, from as int, to as int),
{
    broadcast use vstd::string::is_ascii_spec_bytes;

    let mut at: usize = from;
    while at < to
        invariant
            text.is_ascii(),
            b@ == text.spec_bytes(),
            from <= at <= to <= b@.len(),
            b@.len() == text@.len(),
            zone_of_params(b@, text@, from as int, to as int) == zone_of_params(
                b@,
                text@,
                at as int,
                to as int,
            ),
        decreases to - at,
    {
        let start: usize = at + 1;
        let end: usize = find_byte(b, start, to, 59);
        if end - start >= 5 && range_is(b, start, start + 5, "TZID=") {
            if range_is(b, start + 5, end, "UTC") {
                return Ok(Some(Tz::Utc));
            }
            let name = text.substring_ascii(start + 5, end);
            return match Tz::named(name) {
                Some(z) => Ok(Some(z)),
                None => Err(SyntaxError::UnknownZone),
            };
        }
        at = end;
    }
    Ok(None)
}

/// A rule that is being read: its fields so far, and whether a frequency
/// was among its parts.
pub struct Draft {
    pub rule: RuleSpec,
    pub seen_freq: bool,
}

/// The rule that a reading starts from.
pub open spec fn blank_rule() -> RuleSpec {
    RuleSpec {
        freq: Frequency::Yearly,
        interval: 1,
        count: None,
        until: None,
        week_start: Weekday::Mon,
        by_set_pos: Seq::empty(),
        by_month: Seq::empty(),
        by_month_day: Seq::empty(),
        by_year_day: Seq::empty(),
        by_week_no: Seq::empty(),
        by_weekday: Seq::empty(),
        by_hour: Seq::empty(),
        by_minute: Seq::empty(),
        by_second: Seq::empty(),
    }
}

/// A by-field that is a list of numbers, set from the part named `name`.
pub open spec fn list_part_applied(r: RuleSpec, name: Seq<u8>, l: Seq<i64>) -> Result<
    RuleSpec,
    SyntaxError,
> {
    if name == "BYSETPOS".spec_bytes() {
        Ok(RuleSpec { by_set_pos: l, ..r })
    } else if name == "BYMONTH".spec_bytes() {
        Ok(RuleSpec { by_month: l, ..r })
    } else if name == "BYMONTHDAY".spec_bytes() {
        Ok(RuleSpec { by_month_day: l, ..r })
    } else if name == "BYYEARDAY".spec_bytes() {
        Ok(RuleSpec { by_year_day: l, ..r })
    } else if name == "BYWEEKNO".spec_bytes() {
        Ok(RuleSpec { by_week_no: l, ..r })
    } else if name == "BYHOUR".spec_bytes() {
        Ok(RuleSpec { by_hour: l, ..r })
    } else if name == "BYMINUTE".spec_bytes() {
        Ok(RuleSpec { by_minute: l, ..r })
    } else if name == "BYSECOND".spec_bytes() {
        Ok(RuleSpec { by_second: l, ..r })
    } else {
        Err(SyntaxError::UnknownRulePart)
    }
}

/// How the until bound of a rule is read.
pub enum Reading {
    /// As an instant, with the wall clock of the given fixed zone for a
    /// bound that has no `Z` behind it.
    On(Tz),
    /// Only as far as the text goes: every bound that names a date or a
    /// date and a time of day is read as one and the same instant, the mark.
    Named,
}

/// The instant that stands for an until bound of which only its text was
/// read.
pub open spec fn mark() -> Instant {
    Instant { ts: 0, tz: Tz::Utc }
}

/// The until bound that a text stands for. A date alone stands for its
/// last second.
pub open spec fn until_of(s: Seq<u8>, how: Reading) -> Option<Instant> {
    match how {
        Reading::On(tz) => instant_of(s, tz, true),
        Reading::Named => if names_time(s) {
            Some(mark())
        } else {
            None
        },
    }
}

/// The rule that is being read with the mark in place of its until bound.
pub open spec fn marked(d: Draft) -> Draft {
    Draft {
        rule: RuleSpec {
            until: if d.rule.until is Some {
                Some(mark())
            } else {
                None
            },
            ..d.rule
        },
        ..d
    }
}

/// The rule once the part of `s` from `from` up to `end` is read into
/// it. A part is a name, an equals sign and a value; it replaces what an
/// earlier part of the same name gave.
#[verifier::opaque]
pub open spec fn part_applied(d: Draft, s: Seq<u8>, from: int, end: int, how: Reading) -> Result<
    Draft,
    SyntaxError,
> {
    let eq = first_at(s, from, end, 61);
    let name = s.subrange(from, eq);
    let value = s.subrange(eq + 1, end);
    if eq >= end {
        Err(SyntaxError::BadRulePart)
    } else if name == "FREQ".spec_bytes() {
        match frequency_of_name(value) {
            Some(f) => Ok(Draft { rule: RuleSpec { freq: f, ..d.rule }, seen_freq: true }),
            None => Err(SyntaxError::BadFrequency),
        }
    } else if name == "INTERVAL".spec_bytes() {
        match parse_uint_spec(value) {
            Some(n) => if n > 65535 {
                Err(SyntaxError::BadNumber)
            } else {
                Ok(Draft { rule: RuleSpec { interval: n as u16, ..d.rule }, ..d })
            },
            None => Err(SyntaxError::BadNumber),
        }
    } else if name == "COUNT".spec_bytes() {
        match parse_uint_spec(value) {
            Some(n) => Ok(Draft { rule: RuleSpec { count: Some(n as u32), ..d.rule }, ..d }),
            None => Err(SyntaxError::BadNumber),
        }
    } else if name == "UNTIL".spec_bytes() {
        match until_of(value, how) {
            Some(i) => Ok(Draft { rule: RuleSpec { until: Some(i), ..d.rule }, ..d }),
            None => Err(SyntaxError::BadDate),
        }
    } else if name == "WKST".spec_bytes() {
        match weekday_of_code(value) {
            Some(w) => Ok(Draft { rule: RuleSpec { week_start: w, ..d.rule }, ..d }),
            None => Err(SyntaxError::BadWeekday),
        }
    } else if name == "BYDAY".spec_bytes() || name == "BYWEEKDAY".spec_bytes() {
        match weekday_list_of(s, eq + 1, end) {
            Some(l) => Ok(Draft { rule: RuleSpec { by_weekday: l, ..d.rule }, ..d }),
            None => Err(SyntaxError::BadWeekday),
        }
    } else {
        match int_list_of(s, eq + 1, end) {
            Some(l) => match list_part_applied(d.rule, name, l) {
                Ok(r) => Ok(Draft { rule: r, ..d }),
                Err(e) => Err(e),
            },
            None => Err(SyntaxError::BadNumber),
        }
    }
}

/// The rule once the parts of `s` from `from` up to `to`, separated by
/// semicolons, are read into it one after the other. Empty parts are
/// passed over.
pub open spec fn parts_applied(d: Draft, s: Seq<u8>, from: int, to: int, how: Reading) -> Result<
    Draft,
    SyntaxError,
>
    decreases to - from,
{
    let end = first_at(s, from, to, 59);
    let next = if end > from {
        part_applied(d, s, from, end, how)
    } else {
        Ok(d)
    };
    match next {
        Err(e) => Err(e),
        Ok(d2) => if end >= to || end < from {
            Ok(d2)
        } else {
            parts_applied(d2, s, end + 1, to, how)
        },
    }
}

/// What the parts of `s` from `from` up to `to` stand for, the until
/// bound read as said. A rule has to state its frequency.
pub open spec fn rule_by(s: Seq<u8>, from: int, to: int, how: Reading) -> Result<
    RuleSpec,
    SyntaxError,
> {
    match parts_applied(Draft { rule: blank_rule(), seen_freq: false }, s, from, to, how) {
        Err(e) => Err(e),
        Ok(d) => if d.seen_freq {
            Ok(d.rule)
        } else {
            Err(SyntaxError::MissingFrequency)
        },
    }
}

/// The rule that the parts of `s` from `from` up to `to` stand for in a
/// fixed zone.
pub open spec fn rule_of(s: Seq<u8>, from: int, to: int, tz: Tz) -> Result<RuleSpec, SyntaxError> {
    rule_by(s, from, to, Reading::On(tz))
}

/// The rule has the shape, or the reading was refused as the shape is, or
/// it was refused because an until bound names a time that does not occur
/// on the wall clock it is read on. The shape of a rule is the rule with
/// the mark in place of its until bound.
pub open spec fn shaped_as(r: Result<Draft, SyntaxError>, want: Result<Draft, SyntaxError>) -> bool {
    r == Err::<Draft, SyntaxError>(SyntaxError::BadDate) || (match want {
        Ok(d) => r matches Ok(got) && marked(got) == d,
        Err(e) => r == Err::<Draft, SyntaxError>(e),
    })
}

/// The part of `s` from `from` up to `end` is an until bound on the wall
/// clock: its name is `UNTIL` and its value has no `Z` behind it.
pub open spec fn floating_until(s: Seq<u8>, from: int, end: int) -> bool {
    let eq = first_at(s, from, end, 61);
    eq < end && s.subrange(from, eq) == "UNTIL".spec_bytes() && !clock_free(
        s.subrange(eq + 1, end),
    )
}

/// None of the parts of `s` from `from` up to `to` is an until bound on
/// the wall clock, so that what the parts stand for is the same in every
/// zone.
pub open spec fn no_floating(s: Seq<u8>, from: int, to: int) -> bool
    decreases to - from,
{
    let end = first_at(s, from, to, 59);
    &&& (end > from ==> !floating_until(s, from, end))
    &&& (end >= to || end < from || no_floating(s, end + 1, to))
}

/// Reads one part of a rule into it.
pub fn apply_part(
    rule: &mut RRule,
    seen_freq: &mut bool,
    b: &[u8],
    at: usize,
    end: usize,
    tz: Tz,
) -> (r: Result<(), SyntaxError>)
    requires
        at <= end <= b@.len(),
    ensures
        tz.is_fixed() || !floating_until(b@, at as int, end as int) ==> (match part_applied(
            Draft { rule: old(rule)@, seen_freq: *old(seen_freq) },
            b@,
            at as int,
            end as int,
            Reading::On(tz),
        ) {
            Ok(d) => r is Ok && final(rule)@ == d.rule && *final(seen_freq) == d.seen_freq,
            Err(e) => r == Err::<(), SyntaxError>(e),
        }),
        (old(rule).until matches Some(u) ==> u.wf()) ==> (final(rule).until matches Some(u)
            ==> u.wf()),
        shaped_as(
            match r {
                Ok(_) => Ok(Draft { rule: final(rule)@, seen_freq: *final(seen_freq) }),
                Err(e) => Err(e),
            },
            part_applied(
                marked(Draft { rule: old(rule)@, seen_freq: *old(seen_freq) }),
                b@,
                at as int,
                end as int,
                Reading::Named,
            ),
        ),
{
    reveal(part_applied);
    let eq: usize = find_byte(b, at, end, 61);
    if eq >= end {
        return Err(SyntaxError::BadRulePart);
    }
    let v: usize = eq + 1;
    if range_is(b, at, eq, "FREQ") {
        match parse_frequency(b, v, end) {
            Some(f) => {
                rule.freq = f;
                *seen_freq = true;
            },
            None => {
                return Err(SyntaxError::BadFrequency);
            },
        }
    } else if range_is(b, at, eq, "INTERVAL") {
        match parse_uint(b, v, end) {
            Some(n) => {
                if n > 65535 {
                    return Err(SyntaxError::BadNumber);
                }
                rule.interval = n as u16;
            },
            None => {
                return Err(SyntaxError::BadNumber);
            },
        }
    } else if range_is(b, at, eq, "COUNT") {
        match parse_uint(b, v, end) {
            Some(n) => {
                rule.count = Some(n as u32);
            },
            None => {
                return Err(SyntaxError::BadNumber);
            },
        }
    } else if range_is(b, at, eq, "UNTIL") {
        match parse_instant(b, v, end, tz, true) {
            Some(i) => {
                rule.until = Some(i);
            },
            None => {
                return Err(SyntaxError::BadDate);
            },
        }
    } else if range_is(b, at, eq, "WKST") {
        match parse_weekday(b, v, end) {
            Some(d) => {
                rule.week_start = d;
            },
            None => {
                return Err(SyntaxError::BadWeekday);
            },
        }
    } else if range_is(b, at, eq, "BYDAY") || range_is(b, at, eq, "BYWEEKDAY") {
        match parse_weekday_list(b, v, end) {
            Some(l) => {
                rule.by_weekday = l;
            },
            None => {
                return Err(SyntaxError::BadWeekday);
            },
        }
    } else {
        let list = match parse_int_list(b, v, end) {
            Some(l) => l,
            None => {
                return Err(SyntaxError::BadNumber);
            },
        };
        if range_is(b, at, eq, "BYSETPOS") {
            rule.by_set_pos = list;
        } else if range_is(b, at, eq, "BYMONTH") {
            rule.by_month = list;
        } else if range_is(b, at, eq, "BYMONTHDAY") {
            rule.by_month_day = list;
        } else if range_is(b, at, eq, "BYYEARDAY") {
            rule.by_year_day = list;
        } else if range_is(b, at, eq, "BYWEEKNO") {
            rule.by_week_no = list;
        } else if range_is(b, at, eq, "BYHOUR") {
            rule.by_hour = list;
        } else if range_is(b, at, eq, "BYMINUTE") {
            rule.by_minute = list;
        } else if range_is(b, at, eq, "BYSECOND") {
            rule.by_second = list;
        } else {
            return Err(SyntaxError::UnknownRulePart);
        }
    }
    Ok(())
}

/// Reads the parts of a rule, `NAME=VALUE` separated by semicolons. A part
/// that comes again replaces what came before. Instants without a `Z` are
/// on the wall clock of `tz`.
pub fn parse_rule_parts(b: &[u8], from: usize, to: usize, tz: Tz) -> (r: Result<RRule, SyntaxError>)
    requires
        from <= to <= b@.len(),
    ensures
        tz.is_fixed() || no_floating(b@, from as int, to as int) ==> (match rule_of(
            b@,
            from as int,
            to as int,
            tz,
        ) {
            Ok(spec) => r matches Ok(rule) && rule@ == spec,
            Err(e) => r matches Err(x) && x == e,
        }),
        r matches Ok(rule) ==> (rule.until matches Some(u) ==> u.wf()),
        shaped_as(
            match r {
                Ok(rule) => Ok(Draft { rule: rule@, seen_freq: true }),
                Err(e) => Err(e),
            },
            match rule_by(b@, from as int, to as int, Reading::Named) {
                Ok(shape) => Ok(Draft { rule: shape, seen_freq: true }),
                Err(e) => Err(e),
            },
        ),
{
    let mut rule = RRule::new(Frequency::Yearly);
    let mut seen_freq: bool = false;
    let mut at: usize = from;
    let ghost d0 = Draft { rule: blank_rule(), seen_freq: false };
    let ghost exact = tz.is_fixed() || no_floating(b@, from as int, to as int);
    loop
        invariant_except_break
            exact ==> parts_applied(d0, b@, from as int, to as int, Reading::On(tz))
                == parts_applied(
                Draft { rule: rule@, seen_freq },
                b@,
                at as int,
                to as int,
                Reading::On(tz),
            ),
            exact ==> tz.is_fixed() || no_floating(b@, at as int, to as int),
            parts_applied(d0, b@, from as int, to as int, Reading::Named) == parts_applied(
                marked(Draft { rule: rule@, seen_freq }),
                b@,
                at as int,
                to as int,
                Reading::Named,
            ),
        invariant
            from <= at <= to <= b@.len(),
            d0 == (Draft { rule: blank_rule(), seen_freq: false }),
            exact == (tz.is_fixed() || no_floating(b@, from as int, to as int)),
            rule.until matches Some(u) ==> u.wf(),
        ensures
            exact ==> parts_applied(d0, b@, from as int, to as int, Reading::On(tz)) == Ok::<
                Draft,
                SyntaxError,
            >(Draft { rule: rule@, seen_freq }),
            parts_applied(d0, b@, from as int, to as int, Reading::Named) == Ok::<
                Draft,
                SyntaxError,
            >(marked(Draft { rule: rule@, seen_freq })),
        decreases to - at,
    {
        let end: usize = find_byte(b, at, to, 59);
        if end > at {
            match apply_part(&mut rule, &mut seen_freq, b, at, end, tz) {
                Ok(()) => {},
                Err(e) => {
                    return Err(e);
                },
            }
        }
        if end >= to {
            break ;
        }
        at = end + 1;
    }
    if !seen_freq {
        return Err(SyntaxError::MissingFrequency);
    }
    Ok(rule)
}

/// The end of the line that starts at `from`: the position of its line
/// feed, or the end of the text.
pub fn line_end(b: &[u8], from: usize) -> (r: usize)
    requires
        from <= b@.len(),
    ensures
        r == first_at(b@, from as int, b@.len() as int, 10),
        from <= r <= b@.len(),
{
    find_byte(b, from, b.len(), 10)
}

/// The end of the content of a line that ends at `end`: a carriage return
/// in front of the line feed is not part of it.
pub open spec fn content_end_at(s: Seq<u8>, from: int, end: int) -> int {
    if end > from && s[end - 1] == 13 {
        end - 1
    } else {
        end
    }
}

/// The end of the content of a line that ends at `end`: a carriage return
/// in front of the line feed is not part of it.
pub fn content_end(b: &[u8], from: usize, end: usize) -> (r: usize)
    requires
        from <= end <= b@.len(),
    ensures
        r == content_end_at(b@, from as int, end as int),
        from <= r <= end,
{
    if end > from && b[end - 1] == 13 {
        end - 1
    } else {
        end
    }
}

/// Where the parts of a rule that stands alone lie in its text: on its
/// first line, behind the first colon of the line if it has one.
pub open spec fn lone_span(s: Seq<u8>) -> (int, int) {
    let end = content_end_at(s, 0, first_at(s, 0, s.len() as int, 10));
    let colon = first_at(s, 0, end, 58);
    (
        if colon < end {
            colon + 1
        } else {
            0
        },
        end,
    )
}

/// What reading a rule that stands alone gives. A text outside ASCII is
/// refused as such, and every refusal is one of the parser. A rule that is
/// read has an until bound in the supported range, if it has one. Where no
/// part of the text is an until bound on the wall clock, the rule or the
/// refusal is what the parts stand for. An until bound on the wall clock is
/// resolved in the zone of the machine: then the rule is what the parts
/// stand for but for the instant of its until bound, unless the reading is
/// refused because that time does not occur there.
pub open spec fn rule_read(text: &str, r: Result<RRule, RRuleError>) -> bool {
    let s = text.spec_bytes();
    let span = lone_span(s);
    &&& (!text.is_ascii() ==> (r matches Err(e) && e == RRuleError::ParserError(
        SyntaxError::NotAscii,
    )))
    &&& (r matches Err(e) ==> e is ParserError)
    &&& (r matches Ok(rule) ==> (rule.until matches Some(u) ==> u.wf()))
    &&& (text.is_ascii() && no_floating(s, span.0, span.1) ==> (match rule_of(
        s,
        span.0,
        span.1,
        Tz::Local,
    ) {
        Ok(spec) => r matches Ok(rule) && rule@ == spec,
        Err(e) => r matches Err(x) && x == RRuleError::ParserError(e),
    }))
    &&& (text.is_ascii() ==> shaped_as(
        match r {
            Ok(rule) => Ok(Draft { rule: rule@, seen_freq: true }),
            Err(RRuleError::ParserError(e)) => Err(e),
            Err(_) => Err(SyntaxError::NotAscii),
        },
        match rule_by(s, span.0, span.1, Reading::Named) {
            Ok(shape) => Ok(Draft { rule: shape, seen_freq: true }),
            Err(e) => Err(e),
        },
    ))
}

/// Reads a rule from its text, with or without `RRULE:` in front. The rule
/// is neither checked nor brought into normal form. Instants without a `Z`
/// are on the wall clock of the machine.
pub fn parse_rule(text: &str) -> (r: Result<RRule, RRuleError>)
    ensures
        rule_read(text, r),
{
    if !text.is_ascii() {
        return Err(RRuleError::ParserError(SyntaxError::NotAscii));
    }
    let b = text.as_bytes();
    let end: usize = content_end(b, 0, line_end(b, 0));
    let colon: usize = find_byte(b, 0, end, 58);
    let from: usize = if colon < end {
        colon + 1
    } else {
        0
    };
    match parse_rule_parts(b, from, end, Tz::Local) {
        Ok(rule) => Ok(rule),
        Err(e) => Err(RRuleError::ParserError(e)),
    }
}

/// Where the line that states the anchor lies: the first line from `at`
/// on that is named `DTSTART` and has a colon. Given are the end of its
/// name, the position of its colon and the end of its content.
pub open spec fn start_line(s: Seq<u8>, at: int) -> Option<(int, int, int)>
    decreases s.len() - at,
{
    if at >= s.len() {
        None
    } else {
        let stop = first_at(s, at, s.len() as int, 10);
        let end = content_end_at(s, at, stop);
        let colon = first_at(s, at, end, 58);
        let name_end = first_at(s, at, colon, 59);
        if colon < end && s.subrange(at, name_end) == "DTSTART".spec_bytes() {
            Some((name_end, colon, end))
        } else if stop >= s.len() || stop < at {
            None
        } else {
            start_line(s, stop + 1)
        }
    }
}

/// The zone in which the anchor is read: the one that the parameters of
/// its line name. If they name none, it is the zone of the machine where
/// the anchor is written as a date or as a time without a `Z`, and UTC
/// else: then the anchor is read on no wall clock.
pub open spec fn start_zone(s: Seq<u8>, chars: Seq<char>) -> Result<Tz, SyntaxError> {
    match start_line(s, 0) {
        None => Err(SyntaxError::MissingStart),
        Some((name_end, colon, end)) => match zone_of_params(s, chars, name_end, colon) {
            Err(e) => Err(e),
            Ok(Some(tz)) => Ok(tz),
            Ok(None) => if clock_free(s.subrange(colon + 1, end)) {
                Ok(Tz::Utc)
            } else {
                Ok(Tz::Local)
            },
        },
    }
}

/// The anchor that a text states, where its zone is a fixed one.
pub open spec fn start_of(s: Seq<u8>, chars: Seq<char>) -> Result<Instant, SyntaxError> {
    match start_line(s, 0) {
        None => Err(SyntaxError::MissingStart),
        Some((name_end, colon, end)) => match start_zone(s, chars) {
            Err(e) => Err(e),
            Ok(tz) => match instant_of(s.subrange(colon + 1, end), tz, false) {
                Some(i) => Ok(i),
                None => Err(SyntaxError::BadDate),
            },
        },
    }
}

/// Reads the anchor of a set from the first line named `DTSTART`.
pub fn parse_start(text: &str, b: &[u8]) -> (r: Result<Instant, SyntaxError>)
    requires
        text.is_ascii(),
        b@ == text.spec_bytes(),
    ensures
        r matches Ok(i) ==> i.wf(),
        match start_zone(b@, text@) {
            Err(e) => r == Err::<Instant, SyntaxError>(e),
            Ok(tz) => (r matches Ok(i) ==> i.tz == tz || i.tz == Tz::Utc) && (tz.is_fixed() ==> r
                == start_of(b@, text@)),
        },
        r matches Ok(i) ==> anchor_read(i, b@, text@),
        start_zone(b@, text@) is Ok ==> (r matches Err(e) ==> e == SyntaxError::BadDate),
{
    let mut at: usize = 0;
    while at < b.len()
        invariant
            text.is_ascii(),
            b@ == text.spec_bytes(),
            at <= b@.len(),
            start_line(b@, 0) == start_line(b@, at as int),
        decreases b@.len() - at,
    {
        let stop: usize = line_end(b, at);
        let end: usize = content_end(b, at, stop);
        let colon: usize = find_byte(b, at, end, 58);
        let name_end: usize = find_byte(b, at, colon, 59);
        if colon < end && range_is(b, at, name_end, "DTSTART") {
            let zone = match parse_zone(text, b, name_end, colon) {
                Ok(z) => z,
                Err(e) => {
                    return Err(e);
                },
            };
            let tz: Tz = match zone {
                Some(z) => z,
                None => Tz::Local,
            };
            proof {
                let value = b@.subrange(colon + 1, end as int);
            }
            return match parse_instant(b, colon + 1, end, tz, false) {
                Some(i) => Ok(i),
                None => Err(SyntaxError::BadDate),
            };
        }
        if stop >= b.len() {
            return Err(SyntaxError::MissingStart);
        }
        at = stop + 1;
    }
    Err(SyntaxError::MissingStart)
}

/// The set once the line of `s` from `at` up to `end` is read into it.
/// A rule is checked and brought into normal form for the anchor; its
/// instants without a `Z`, and those of a list of instants that names no
/// zone, are on the wall clock of the anchor's zone.
#[verifier::opaque]
pub open spec fn line_applied(set: SetSpec, s: Seq<u8>, chars: Seq<char>, at: int, end: int) -> Result<
    SetSpec,
    RRuleError,
> {
    let colon = first_at(s, at, end, 58);
    let name_end = first_at(s, at, colon, 59);
    let name = s.subrange(at, name_end);
    if colon >= end {
        Err(RRuleError::ParserError(SyntaxError::MissingColon))
    } else if name == "DTSTART".spec_bytes() {
        Ok(set)
    } else if name == "RRULE".spec_bytes() || name == "EXRULE".spec_bytes() {
        match rule_of(s, colon + 1, end, set.dt_start.tz) {
            Err(e) => Err(RRuleError::ParserError(e)),
            Ok(raw) => match raw.first_violation() {
                Some(e) => Err(RRuleError::ValidationError(e)),
                None => {
                    let rule = raw.normalize(wall_at(anchor_local(set.dt_start)));
                    if name == "RRULE".spec_bytes() {
                        Ok(SetSpec { rrule: set.rrule.push(rule), ..set })
                    } else {
                        Ok(SetSpec { exrule: set.exrule.push(rule), ..set })
                    }
                },
            },
        }
    } else if name == "RDATE".spec_bytes() || name == "EXDATE".spec_bytes() {
        match zone_of_params(s, chars, name_end, colon) {
            Err(e) => Err(RRuleError::ParserError(e)),
            Ok(z) => {
                let tz = match z {
                    Some(t) => t,
                    None => set.dt_start.tz,
                };
                match instant_list_of(s, colon + 1, end, tz) {
                    None => Err(RRuleError::ParserError(SyntaxError::BadDate)),
                    Some(l) => if name == "RDATE".spec_bytes() {
                        Ok(SetSpec { rdate: set.rdate + l, ..set })
                    } else {
                        Ok(SetSpec { exdate: set.exdate + l, ..set })
                    },
                }
            },
        }
    } else {
        Err(RRuleError::ParserError(SyntaxError::UnknownProperty))
    }
}

/// The set once the lines of `s` from `at` on are read into it one after
/// the other. Empty lines are passed over.
pub open spec fn lines_applied(set: SetSpec, s: Seq<u8>, chars: Seq<char>, at: int) -> Result<
    SetSpec,
    RRuleError,
>
    decreases s.len() - at,
{
    if at >= s.len() {
        Ok(set)
    } else {
        let stop = first_at(s, at, s.len() as int, 10);
        let end = content_end_at(s, at, stop);
        let next = if end > at {
            line_applied(set, s, chars, at, end)
        } else {
            Ok(set)
        };
        match next {
            Err(e) => Err(e),
            Ok(set2) => if stop >= s.len() || stop < at {
                Ok(set2)
            } else {
                lines_applied(set2, s, chars, stop + 1)
            },
        }
    }
}

/// The set that a text over a fixed zone stands for.
pub open spec fn set_of(s: Seq<u8>, chars: Seq<char>) -> Result<SetSpec, RRuleError> {
    match start_of(s, chars) {
        Err(e) => Err(RRuleError::ParserError(e)),
        Ok(start) => lines_applied(
            SetSpec {
                rrule: Seq::empty(),
                rdate: Seq::empty(),
                exrule: Seq::empty(),
                exdate: Seq::empty(),
                dt_start: start,
            },
            s,
            chars,
            0,
        ),
    }
}

/// The set once a rule that was read is checked and added to it: a
/// refusal for the first violation of the rule, else the set with the normal
/// form of the rule for some wall clock behind its inclusion rules, or
/// behind its exclusion rules.
pub open spec fn rule_added(set: SetSpec, raw: RuleSpec, inclusion: bool, got: Result<
    SetSpec,
    RRuleError,
>) -> bool {
    match raw.first_violation() {
        Some(e) => got == Err::<SetSpec, RRuleError>(RRuleError::ValidationError(e)),
        None => exists|a: WallClock|
            a.wf() && got == Ok::<SetSpec, RRuleError>(
                if inclusion {
                    SetSpec { rrule: set.rrule.push(#[trigger] raw.normalize(a)), ..set }
                } else {
                    SetSpec { exrule: set.exrule.push(raw.normalize(a)), ..set }
                },
            ),
    }
}

/// A rule that has both a count and an until bound is refused for that,
/// whatever else it holds, unless its interval is zero.
pub proof fn lemma_count_and_until_refused(
    set: SetSpec,
    raw: RuleSpec,
    inclusion: bool,
    got: Result<SetSpec, RRuleError>,
)
    requires
        raw.interval != 0,
        raw.count is Some,
        raw.until is Some,
        rule_added(set, raw, inclusion, got),
    ensures
        got == Err::<SetSpec, RRuleError>(
            RRuleError::ValidationError(ValidationError::CountAndUntil),
        ),
{
}

/// The rule with the mark in place of its until bound.
pub open spec fn with_mark(r: RuleSpec) -> RuleSpec {
    marked(Draft { rule: r, seen_freq: true }).rule
}

/// What reading a rule of a line into a set may give. Where the zone of
/// the anchor is a fixed one, or the rule has no until bound on the wall
/// clock, the rule is what the text stands for. Else the line may be refused
/// with `BadDate`, for a time that does not occur on the wall clock of the
/// machine, or the rule has the shape of the text. The rule is checked and
/// brought into normal form for some wall clock.
#[verifier::opaque]
pub open spec fn rule_line_shaped(
    set: SetSpec,
    s: Seq<u8>,
    from: int,
    end: int,
    inclusion: bool,
    got: Result<SetSpec, RRuleError>,
) -> bool {
    if set.dt_start.tz.is_fixed() || no_floating(s, from, end) {
        match rule_of(s, from, end, set.dt_start.tz) {
            Err(e) => got == Err::<SetSpec, RRuleError>(RRuleError::ParserError(e)),
            Ok(raw) => rule_added(set, raw, inclusion, got),
        }
    } else {
        got == Err::<SetSpec, RRuleError>(RRuleError::ParserError(SyntaxError::BadDate)) || (
        match rule_by(s, from, end, Reading::Named) {
            Err(e) => got == Err::<SetSpec, RRuleError>(RRuleError::ParserError(e)),
            Ok(shape) => exists|raw: RuleSpec|
                with_mark(raw) == shape && (raw.until matches Some(u) ==> u.wf())
                    && #[trigger] rule_added(set, raw, inclusion, got),
        })
    }
}

/// What reading a list of instants of a line into a set may give, read
/// in `tz`: a refusal with `BadDate`, which in a fixed zone comes just when
/// the list is none, or the set with a reading of the list behind its
/// explicit instants, or behind its explicit excluded instants.
#[verifier::opaque]
pub open spec fn list_line_shaped(
    set: SetSpec,
    s: Seq<u8>,
    from: int,
    end: int,
    tz: Tz,
    inclusion: bool,
    got: Result<SetSpec, RRuleError>,
) -> bool {
    (got == Err::<SetSpec, RRuleError>(RRuleError::ParserError(SyntaxError::BadDate)) && (
    tz.is_fixed() ==> instant_list_of(s, from, end, tz) is None)) || exists|l: Seq<Instant>| #[trigger]
        list_read(l, s, from, end, tz) && got == Ok::<SetSpec, RRuleError>(
            if inclusion {
                SetSpec { rdate: set.rdate + l, ..set }
            } else {
                SetSpec { exdate: set.exdate + l, ..set }
            },
        )
}

/// What reading the line of `s` from `at` up to `end` into a set may
/// give, whatever the zone of the anchor: what its rule or its list of
/// instants may give, or the refusal of a line that has no colon, an unknown
/// name or an unknown zone. A list that names no zone is read in the zone of
/// the anchor.
#[verifier::opaque]
pub open spec fn line_shaped(
    set: SetSpec,
    s: Seq<u8>,
    chars: Seq<char>,
    at: int,
    end: int,
    got: Result<SetSpec, RRuleError>,
) -> bool {
    let colon = first_at(s, at, end, 58);
    let name_end = first_at(s, at, colon, 59);
    let name = s.subrange(at, name_end);
    if colon >= end {
        got == Err::<SetSpec, RRuleError>(RRuleError::ParserError(SyntaxError::MissingColon))
    } else if name == "DTSTART".spec_bytes() {
        got == Ok::<SetSpec, RRuleError>(set)
    } else if name == "RRULE".spec_bytes() || name == "EXRULE".spec_bytes() {
        rule_line_shaped(set, s, colon + 1, end, name == "RRULE".spec_bytes(), got)
    } else if name == "RDATE".spec_bytes() || name == "EXDATE".spec_bytes() {
        match zone_of_params(s, chars, name_end, colon) {
            Err(e) => got == Err::<SetSpec, RRuleError>(RRuleError::ParserError(e)),
            Ok(z) => list_line_shaped(
                set,
                s,
                colon + 1,
                end,
                match z {
                    Some(t) => t,
                    None => set.dt_start.tz,
                },
                name == "RDATE".spec_bytes(),
                got,
            ),
        }
    } else {
        got == Err::<SetSpec, RRuleError>(RRuleError::ParserError(SyntaxError::UnknownProperty))
    }
}

/// A rule that was read as the reading of rules promises, and then
/// checked and added, gives what reading the rule of a line may give.
pub proof fn lemma_rule_line(
    set: SetSpec,
    s: Seq<u8>,
    from: int,
    end: int,
    inclusion: bool,
    read: Result<RuleSpec, SyntaxError>,
    got: Result<SetSpec, RRuleError>,
)
    requires
        set.dt_start.tz.is_fixed() || no_floating(s, from, end) ==> read == rule_of(
            s,
            from,
            end,
            set.dt_start.tz,
        ),
        shaped_as(
            match read {
                Ok(rule) => Ok(Draft { rule, seen_freq: true }),
                Err(e) => Err(e),
            },
            match rule_by(s, from, end, Reading::Named) {
                Ok(shape) => Ok(Draft { rule: shape, seen_freq: true }),
                Err(e) => Err(e),
            },
        ),
        match read {
            Ok(rule) => (rule.until matches Some(u) ==> u.wf()) && rule_added(
                set,
                rule,
                inclusion,
                got,
            ),
            Err(e) => got == Err::<SetSpec, RRuleError>(RRuleError::ParserError(e)),
        },
    ensures
        rule_line_shaped(set, s, from, end, inclusion, got),
{
    reveal(rule_line_shaped);
    if !(set.dt_start.tz.is_fixed() || no_floating(s, from, end)) {
        match read {
            Ok(rule) => {
            },
            Err(e) => {},
        }
    }
}

/// A reading of a list that is put behind the explicit instants of a set
/// gives what reading the list of a line may give.
pub proof fn lemma_list_line(
    set: SetSpec,
    s: Seq<u8>,
    from: int,
    end: int,
    tz: Tz,
    inclusion: bool,
    l: Seq<Instant>,
)
    requires
        list_read(l, s, from, end, tz),
    ensures
        list_line_shaped(
            set,
            s,
            from,
            end,
            tz,
            inclusion,
            Ok(
                if inclusion {
                    SetSpec { rdate: set.rdate + l, ..set }
                } else {
                    SetSpec { exdate: set.exdate + l, ..set }
                },
            ),
        ),
{
    reveal(list_line_shaped);
}

/// What reading the line of `s` from `at` up to `end` into a set may
/// give, where an empty line gives the set as it is.
pub open spec fn line_step(
    set: SetSpec,
    s: Seq<u8>,
    chars: Seq<char>,
    at: int,
    end: int,
    next: Result<SetSpec, RRuleError>,
) -> bool {
    if end > at {
        line_shaped(set, s, chars, at, end, next)
    } else {
        next == Ok::<SetSpec, RRuleError>(set)
    }
}

/// What reading the lines of `s` from `at` on into a set may give,
/// whatever the zone of the anchor: each line gives what it may give, one
/// after the other, the first refusal ends the reading, and empty lines are
/// passed over.
pub open spec fn lines_shaped(
    set: SetSpec,
    s: Seq<u8>,
    chars: Seq<char>,
    at: int,
    got: Result<SetSpec, RRuleError>,
) -> bool
    decreases s.len() - at,
{
    if at >= s.len() {
        got == Ok::<SetSpec, RRuleError>(set)
    } else {
        let stop = first_at(s, at, s.len() as int, 10);
        let end = content_end_at(s, at, stop);
        exists|next: Result<SetSpec, RRuleError>| #[trigger]
            line_step(set, s, chars, at, end, next) && (match next {
                Err(e) => got == Err::<SetSpec, RRuleError>(e),
                Ok(set2) => if stop >= s.len() || stop < at {
                    got == Ok::<SetSpec, RRuleError>(set2)
                } else {
                    lines_shaped(set2, s, chars, stop + 1, got)
                },
            })
    }
}

/// A step of a reading makes a reading: where the line from `at` on may
/// give `next`, and the lines behind it may then give `got`, the lines from
/// `at` on may give `got`.
pub proof fn lemma_lines_step(
    set: SetSpec,
    s: Seq<u8>,
    chars: Seq<char>,
    at: int,
    next: Result<SetSpec, RRuleError>,
    got: Result<SetSpec, RRuleError>,
)
    requires
        0 <= at < s.len(),
        ({
            let stop = first_at(s, at, s.len() as int, 10);
            let end = content_end_at(s, at, stop);
            &&& line_step(set, s, chars, at, end, next)
            &&& (match next {
                Err(e) => got == Err::<SetSpec, RRuleError>(e),
                Ok(set2) => if stop >= s.len() || stop < at {
                    got == Ok::<SetSpec, RRuleError>(set2)
                } else {
                    lines_shaped(set2, s, chars, stop + 1, got)
                },
            })
        }),
    ensures
        lines_shaped(set, s, chars, at, got),
{
}

/// The set that a reading starts from: the anchor and nothing else.
pub open spec fn blank_set(start: Instant) -> SetSpec {
    SetSpec {
        rrule: Seq::empty(),
        rdate: Seq::empty(),
        exrule: Seq::empty(),
        exdate: Seq::empty(),
        dt_start: start,
    }
}

/// The instant is a reading of the anchor that the text states, in the
/// zone in which the anchor is read.
pub open spec fn anchor_read(start: Instant, s: Seq<u8>, chars: Seq<char>) -> bool {
    match (start_line(s, 0), start_zone(s, chars)) {
        (Some((name_end, colon, end)), Ok(tz)) => member_read(start, s.subrange(colon + 1, end), tz),
        _ => false,
    }
}

/// What reading a text that states an anchor in a known zone may give,
/// whatever that zone: a refusal with `BadDate` for the anchor, which in a
/// fixed zone comes just when the anchor is no instant; or what reading its
/// lines may give, one after the other, into the set that holds a reading of
/// the anchor and nothing else.
pub open spec fn set_shaped(s: Seq<u8>, chars: Seq<char>, got: Result<SetSpec, RRuleError>) -> bool {
    (got == Err::<SetSpec, RRuleError>(RRuleError::ParserError(SyntaxError::BadDate)) && (
    start_zone(s, chars) matches Ok(tz) && tz.is_fixed() ==> start_of(s, chars) is Err))
        || exists|start: Instant| #[trigger]
        anchor_read(start, s, chars) && lines_shaped(blank_set(start), s, chars, 0, got) && (
        got matches Ok(set) ==> set.dt_start == start)
}

/// The result of a reading by the content of the set that was read.
pub open spec fn content_of(r: Result<RRuleSet, RRuleError>) -> Result<SetSpec, RRuleError> {
    match r {
        Ok(set) => Ok(set.content()),
        Err(e) => Err(e),
    }
}

/// What reading a line or a text gave is what the grammar says.
pub open spec fn reads_as(r: Result<RRuleSet, RRuleError>, want: Result<SetSpec, RRuleError>) -> bool {
    match want {
        Ok(spec) => r matches Ok(set) && set.content() == spec,
        Err(e) => r matches Err(x) && x == e,
    }
}

/// Reads one line into a set.
pub fn apply_line(set: RRuleSet, text: &str, b: &[u8], at: usize, end: usize) -> (r: Result<
    RRuleSet,
    RRuleError,
>)
    requires
        text.is_ascii(),
        b@ == text.spec_bytes(),
        at <= end <= b@.len(),
        set.wf(),
    ensures
        r matches Ok(next) ==> next.wf() && next.dt_start == set.dt_start && next.after
            == set.after && next.before == set.before,
        r matches Err(e) ==> e !is IterError,
        set.dt_start.tz.is_fixed() ==> reads_as(
            r,
            line_applied(set.content(), b@, text@, at as int, end as int),
        ),
        line_shaped(set.content(), b@, text@, at as int, end as int, content_of(r)),
{
    reveal(line_applied);
    reveal(line_shaped);
    let dt_start: Instant = set.dt_start;
    let colon: usize = find_byte(b, at, end, 58);
    if colon >= end {
        return Err(RRuleError::ParserError(SyntaxError::MissingColon));
    }
    let name_end: usize = find_byte(b, at, colon, 59);
    let v: usize = colon + 1;
    let mut set = set;
    let ghost was = set;
    if range_is(b, at, name_end, "DTSTART") {
        Ok(set)
    } else if range_is(b, at, name_end, "RRULE") || range_is(b, at, name_end, "EXRULE") {
        let ghost inclusion = b@.subrange(at as int, name_end as int) == "RRULE".spec_bytes();
        let raw = match parse_rule_parts(b, v, end, dt_start.tz) {
            Ok(rule) => rule,
            Err(e) => {
                proof {
                    lemma_rule_line(
                        was.content(),
                        b@,
                        v as int,
                        end as int,
                        inclusion,
                        Err(e),
                        Err(RRuleError::ParserError(e)),
                    );
                }
                return Err(RRuleError::ParserError(e));
            },
        };
        let ghost read = raw@;

        let rule = match raw.validate(dt_start) {
            Ok(rule) => rule,
            Err(e) => {
                proof {
                    lemma_rule_line(
                        was.content(),
                        b@,
                        v as int,
                        end as int,
                        inclusion,
                        Ok(read),
                        Err(e),
                    );
                }
                return Err(e);
            },
        };
        let ghost a = choose|a: WallClock| a.wf() && rule@ == #[trigger] read.normalize(a);
        if range_is(b, at, name_end, "RRULE") {
            let next = set.rrule(rule);
            assert(views(next.rrule@) == views(was.rrule@).push(rule@));
            proof {
                assert(next.content() == (SetSpec {
                    rrule: was.content().rrule.push(read.normalize(a)),
                    ..was.content()
                }));
                lemma_rule_line(
                    was.content(),
                    b@,
                    v as int,
                    end as int,
                    inclusion,
                    Ok(read),
                    Ok(next.content()),
                );
            }
            Ok(next)
        } else {
            let next = set.exrule(rule);
            assert(views(next.exrule@) == views(was.exrule@).push(rule@));
            proof {
                assert(next.content() == (SetSpec {
                    exrule: was.content().exrule.push(read.normalize(a)),
                    ..was.content()
                }));
                lemma_rule_line(
                    was.content(),
                    b@,
                    v as int,
                    end as int,
                    inclusion,
                    Ok(read),
                    Ok(next.content()),
                );
            }
            Ok(next)
        }
    } else if range_is(b, at, name_end, "RDATE") || range_is(b, at, name_end, "EXDATE") {
        let zone = match parse_zone(text, b, name_end, colon) {
            Ok(z) => z,
            Err(e) => {
                return Err(RRuleError::ParserError(e));
            },
        };
        let tz: Tz = match zone {
            Some(z) => z,
            None => dt_start.tz,
        };
        proof {
            lemma_param_zone_fixed(b@, text@, name_end as int, colon as int);
        }
        if range_is(b, at, name_end, "RDATE") {
            if !parse_instant_list(b, v, end, tz, &mut set.rdate) {
                proof {
                    reveal(list_line_shaped);
                }
                return Err(RRuleError::ParserError(SyntaxError::BadDate));
            }
            proof {
                let l = choose|l: Seq<Instant>| #[trigger]
                    list_read(l, b@, v as int, end as int, tz) && set.rdate@ == was.rdate@ + l;
                assert(set.content() == (SetSpec {
                    rdate: was.content().rdate + l,
                    ..was.content()
                }));
                lemma_list_line(was.content(), b@, v as int, end as int, tz, true, l);
            }
        } else {
            if !parse_instant_list(b, v, end, tz, &mut set.exdate) {
                proof {
                    reveal(list_line_shaped);
                }
                return Err(RRuleError::ParserError(SyntaxError::BadDate));
            }
            proof {
                let l = choose|l: Seq<Instant>| #[trigger]
                    list_read(l, b@, v as int, end as int, tz) && set.exdate@ == was.exdate@ + l;
                assert(set.content() == (SetSpec {
                    exdate: was.content().exdate + l,
                    ..was.content()
                }));
                lemma_list_line(was.content(), b@, v as int, end as int, tz, false, l);
            }
        }
        Ok(set)
    } else {
        Err(RRuleError::ParserError(SyntaxError::UnknownProperty))
    }
}

/// A zone that parameters name is a fixed one.
pub proof fn lemma_param_zone_fixed(s: Seq<u8>, chars: Seq<char>, from: int, to: int)
    ensures
        zone_of_params(s, chars, from, to) matches Ok(Some(tz)) ==> tz.is_fixed(),
    decreases to - from,
{
    if from < to {
        let start = from + 1;
        let end = first_at(s, start, to, 59);
        if !(end - start >= 5 && s.subrange(start, start + 5) == "TZID=".spec_bytes()) && (!(end <= from || end > to)) {
            lemma_param_zone_fixed(s, chars, end, to);
        }
    }
}

/// What reading a set gives. A set that is read is fit for generation and
/// has no window. A text outside ASCII is refused as such, and a text whose
/// anchor names no known zone or has no anchor is refused for that. Where
/// the anchor is read in a fixed zone, which it is unless it names no zone
/// and is written without a `Z`, the set or the refusal is what the grammar
/// says.
pub open spec fn set_read(text: &str, r: Result<RRuleSet, RRuleError>) -> bool {
    &&& (r matches Ok(set) ==> set.wf() && set.after is None && set.before is None)
    &&& (r matches Err(e) ==> e !is IterError)
    &&& (!text.is_ascii() ==> (r matches Err(e) && e == RRuleError::ParserError(
        SyntaxError::NotAscii,
    )))
    &&& (text.is_ascii() ==> (match start_zone(text.spec_bytes(), text@) {
        Err(e) => r matches Err(x) && x == RRuleError::ParserError(e),
        Ok(tz) => tz.is_fixed() ==> reads_as(r, set_of(text.spec_bytes(), text@)) && (
        r matches Ok(set) ==> set.dt_start.tz.is_fixed()),
    }))
    &&& (text.is_ascii() && start_zone(text.spec_bytes(), text@) is Ok ==> set_shaped(
        text.spec_bytes(),
        text@,
        content_of(r),
    ))
}

/// Reads a recurrence set from its text. Every rule is checked and brought
/// into normal form for the anchor of the set.
pub fn parse_set(text: &str) -> (r: Result<RRuleSet, RRuleError>)
    ensures
        set_read(text, r),
{
    if !text.is_ascii() {
        return Err(RRuleError::ParserError(SyntaxError::NotAscii));
    }
    let b = text.as_bytes();
    let dt_start = match parse_start(text, b) {
        Ok(i) => i,
        Err(e) => {
            return Err(RRuleError::ParserError(e));
        },
    };
    let mut set = RRuleSet::new(dt_start);
    let ghost first = set.content();
    let ghost fixed = start_zone(b@, text@) matches Ok(tz) && tz.is_fixed();
    proof {
        assert(views(set.rrule@) == Seq::<RuleSpec>::empty());
        assert(views(set.exrule@) == Seq::<RuleSpec>::empty());
        assert(set.rdate@ == Seq::<Instant>::empty());
        assert(set.exdate@ == Seq::<Instant>::empty());
    }
    let mut at: usize = 0;
    while at < b.len()
        invariant
            text.is_ascii(),
            first == blank_set(dt_start),
            anchor_read(dt_start, b@, text@),
            forall|got: Result<SetSpec, RRuleError>| #[trigger]
                lines_shaped(set.content(), b@, text@, at as int, got) ==> lines_shaped(
                    first,
                    b@,
                    text@,
                    0,
                    got,
                ),
            b@ == text.spec_bytes(),
            at <= b@.len(),
            set.wf(),
            set.dt_start == dt_start,
            set.after is None,
            set.before is None,
            fixed == (start_zone(b@, text@) matches Ok(tz) && tz.is_fixed()),
            start_zone(b@, text@) is Ok,
            fixed ==> dt_start.tz.is_fixed(),
            fixed ==> set_of(b@, text@) == lines_applied(first, b@, text@, 0),
            fixed ==> lines_applied(first, b@, text@, 0) == lines_applied(
                set.content(),
                b@,
                text@,
                at as int,
            ),
        decreases b@.len() - at,
    {
        let stop: usize = line_end(b, at);
        let end: usize = content_end(b, at, stop);
        let ghost here = set.content();
        if end > at {
            set = match apply_line(set, text, b, at, end) {
                Ok(next) => next,
                Err(e) => {
                    proof {
                        lemma_lines_step(here, b@, text@, at as int, Err(e), Err(e));
                    }
                    return Err(e);
                },
            };
        }
        if stop >= b.len() {
            proof {
                lemma_lines_step(
                    here,
                    b@,
                    text@,
                    at as int,
                    Ok(set.content()),
                    Ok(set.content()),
                );
            }
            return Ok(set);
        }
        proof {
            assert forall|got: Result<SetSpec, RRuleError>| #[trigger]
                lines_shaped(set.content(), b@, text@, stop + 1, got) implies lines_shaped(
                first,
                b@,
                text@,
                0,
                got,
            ) by {
                lemma_lines_step(here, b@, text@, at as int, Ok(set.content()), got);
            }
        }
        at = stop + 1;
    }
    proof {
        assert(lines_shaped(set.content(), b@, text@, at as int, Ok(set.content())));
    }
    Ok(set)
}

impl std::str::FromStr for RRuleSet {
    type Err = RRuleError;

    fn from_str(s: &str) -> (r: Result<RRuleSet, RRuleError>)
        ensures
            set_read(s, r),
    {
        parse_set(s)
    }
}

impl std::str::FromStr for RRule {
    type Err = RRuleError;

    fn from_str(s: &str) -> (r: Result<RRule, RRuleError>)
        ensures
            rule_read(s, r),
    {
        parse_rule(s)
    }
}

} // verus!
