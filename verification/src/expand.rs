//! The candidates of one period of a rule.
//!
//! A rule walks through periods of its frequency. Within a period, the days
//! that pass the day filters are combined with the times of day that pass
//! the time filters, and the set positions select among the result. All of
//! this happens on the wall clock, as local seconds.

use vstd::prelude::*;

use crate::calendar::{
    date_of, date_on, days_before_year, days_in_month, days_in_year, lemma_day_of_in_range,
    lemma_months_of_year, month_len, month_start, valid_day, week_number, week_of, year_len, Date,
};
use crate::rule::{Frequency, NWeekday, RRule, RuleSpec};

verus! {

/// `x` occurs in `s`.
pub open spec fn has(s: Seq<i64>, x: int) -> bool {
    exists|i: int| 0 <= i < s.len() && #[trigger] s[i] == x
}

/// A by-list admits `x`: it is empty, or `x` occurs in it.
pub open spec fn listed(s: Seq<i64>, x: int) -> bool {
    s.len() == 0 || has(s, x)
}

/// Ordinals of weekdays count within the month for monthly rules and for
/// yearly rules restricted to months, and within the year otherwise.
pub open spec fn ordinal_in_month(r: RuleSpec) -> bool {
    r.freq == Frequency::Monthly || (r.freq == Frequency::Yearly && r.by_month.len() > 0)
}

/// One weekday filter admits the date.
pub open spec fn weekday_hit(w: NWeekday, r: RuleSpec, t: Date) -> bool {
    let n = t.number();
    let mlen = month_len(t.year as int, t.month as int);
    let ylen = year_len(t.year as int);
    let yd = t.year_day();
    match w {
        NWeekday::Every(d) => d.index() == n % 7,
        NWeekday::Nth(k, d) => d.index() == n % 7 && (if ordinal_in_month(r) {
            if k > 0 {
                (t.day - 1) / 7 + 1 == k
            } else {
                (mlen - t.day) / 7 + 1 == -k
            }
        } else {
            if k > 0 {
                yd / 7 + 1 == k
            } else {
                (ylen - 1 - yd) / 7 + 1 == -k
            }
        }),
    }
}

/// The date passes every day filter of the rule. Negative month days, year
/// days and week numbers count from the end of the month, year and week-year.
pub open spec fn day_ok(r: RuleSpec, t: Date) -> bool {
    let mlen = month_len(t.year as int, t.month as int);
    let ylen = year_len(t.year as int);
    let yd = t.year_day();
    let wk = week_of(t.number(), t.year as int, r.week_start.index());
    &&& listed(r.by_month, t.month as int)
    &&& (r.by_month_day.len() == 0 || has(r.by_month_day, t.day as int) || has(
        r.by_month_day,
        t.day - mlen - 1,
    ))
    &&& (r.by_year_day.len() == 0 || has(r.by_year_day, yd + 1) || has(r.by_year_day, yd - ylen))
    &&& (r.by_week_no.len() == 0 || has(r.by_week_no, wk.0) || has(r.by_week_no, wk.0 - wk.1 - 1))
    &&& (r.by_weekday.len() == 0 || exists|i: int|
        0 <= i < r.by_weekday.len() && weekday_hit(#[trigger] r.by_weekday[i], r, t))
}

/// The days of `lo..hi` that pass the day filters, ascending.
pub open spec fn days_in(r: RuleSpec, lo: int, hi: int) -> Seq<i64>
    decreases hi - lo,
{
    if hi <= lo {
        Seq::empty()
    } else {
        let rest = days_in(r, lo, hi - 1);
        if day_ok(r, date_of(hi - 1)) {
            rest.push((hi - 1) as i64)
        } else {
            rest
        }
    }
}

/// The numbers of `lo..hi` that a by-list admits, ascending.
pub open spec fn listed_in(s: Seq<i64>, lo: int, hi: int) -> Seq<i64>
    decreases hi - lo,
{
    if hi <= lo {
        Seq::empty()
    } else {
        let rest = listed_in(s, lo, hi - 1);
        if listed(s, hi - 1) {
            rest.push((hi - 1) as i64)
        } else {
            rest
        }
    }
}

/// Every pair of a member of `a` and a member of `b`, as `a * scale + b`,
/// in the order of `a` first and `b` second.
pub open spec fn cross(a: Seq<i64>, b: Seq<i64>, scale: int) -> Seq<i64>
    decreases a.len(),
{
    if a.len() == 0 {
        Seq::empty()
    } else {
        cross(a.drop_last(), b, scale) + row(a.last() as int, b, scale, b.len() as int)
    }
}

/// The first `n` pairs of `x` with the members of `b`.
pub open spec fn row(x: int, b: Seq<i64>, scale: int, n: int) -> Seq<i64>
    decreases n,
{
    if n <= 0 {
        Seq::empty()
    } else {
        row(x, b, scale, n - 1).push((x * scale + b[n - 1]) as i64)
    }
}

/// Position `i` of `len` candidates is selected: it is named from the front
/// (1 is the first) or from the back (-1 is the last).
pub open spec fn picked(pos: Seq<i64>, i: int, len: int) -> bool {
    has(pos, i + 1) || has(pos, i - len)
}

/// The selected ones among the first `n` candidates, in their order.
pub open spec fn pick_prefix(c: Seq<i64>, pos: Seq<i64>, n: int) -> Seq<i64>
    decreases n,
{
    if n <= 0 {
        Seq::empty()
    } else {
        let rest = pick_prefix(c, pos, n - 1);
        if picked(pos, n - 1, c.len() as int) {
            rest.push(c[n - 1])
        } else {
            rest
        }
    }
}

/// The candidates that the set positions select; all of them if there are
/// no set positions.
pub open spec fn pick_positions(c: Seq<i64>, pos: Seq<i64>) -> Seq<i64> {
    if pos.len() == 0 {
        c
    } else {
        pick_prefix(c, pos, c.len() as int)
    }
}

/// All members lie in `lo..hi`.
pub open spec fn bounded(s: Seq<i64>, lo: int, hi: int) -> bool {
    forall|i: int| 0 <= i < s.len() ==> lo <= #[trigger] s[i] < hi
}

/// The days found in a range lie in the range.
pub proof fn lemma_days_in_bounded(r: RuleSpec, lo: int, hi: int)
    requires
        i64::MIN <= lo,
        hi <= i64::MAX,
    ensures
        bounded(days_in(r, lo, hi), lo, hi),
        days_in(r, lo, hi).len() <= if hi <= lo { 0 } else { hi - lo },
    decreases hi - lo,
{
    if hi > lo {
        lemma_days_in_bounded(r, lo, hi - 1);
    }
}

/// The numbers found in a range lie in the range.
pub proof fn lemma_listed_in_bounded(s: Seq<i64>, lo: int, hi: int)
    requires
        i64::MIN <= lo,
        hi <= i64::MAX,
    ensures
        bounded(listed_in(s, lo, hi), lo, hi),
        listed_in(s, lo, hi).len() <= if hi <= lo { 0 } else { hi - lo },
    decreases hi - lo,
{
    if hi > lo {
        lemma_listed_in_bounded(s, lo, hi - 1);
    }
}

/// Tests whether `x` occurs in `v`.
pub fn occurs(v: &Vec<i64>, x: i64) -> (r: bool)
    ensures
        r == has(v@, x as int),
{
    let mut i: usize = 0;
    while i < v.len()
        invariant
            i <= v.len(),
            forall|k: int| 0 <= k < i ==> v@[k] != x,
        decreases v.len() - i,
    {
        if v[i] == x {
            return true;
        }
        i = i + 1;
    }
    false
}

/// Tests whether a by-list admits `x`.
pub fn admits(v: &Vec<i64>, x: i64) -> (r: bool)
    ensures
        r == listed(v@, x as int),
{
    v.len() == 0 || occurs(v, x)
}

/// Facts about a date that the day filters read.
pub struct DayFacts {
    pub date: Date,
    pub number: i64,
    pub month_len: i64,
    pub year_len: i64,
    pub year_day: i64,
}

impl DayFacts {
    /// The facts are those of the date.
    pub open spec fn wf(self) -> bool {
        &&& self.date.wf()
        &&& self.number == self.date.number()
        &&& valid_day(self.number as int)
        &&& self.month_len == month_len(self.date.year as int, self.date.month as int)
        &&& self.year_len == year_len(self.date.year as int)
        &&& self.year_day == self.date.year_day()
        &&& 0 <= self.year_day < self.year_len
        &&& days_before_year(self.date.year as int) + self.year_day == self.number
    }

    /// Gathers the facts about the date of a day number.
    pub fn of(day: i64) -> (r: DayFacts)
        requires
            valid_day(day as int),
        ensures
            r.wf(),
            r.number == day,
            r.date == date_of(day as int),
    {
        let date = date_on(day);
        let ml: i64 = days_in_month(date.year, date.month);
        let yl: i64 = days_in_year(date.year);
        let before: i64 = month_start(date.year, date.month);
        proof {
            lemma_months_of_year(date.year as int);
            lemma_day_of_in_range(date.year as int, date.month as int, date.day as int);
        }
        DayFacts { date, number: day, month_len: ml, year_len: yl, year_day: before + date.day - 1 }
    }
}

/// Tests one weekday filter against a date.
pub fn weekday_passes(w: NWeekday, rule: &RRule, f: &DayFacts) -> (r: bool)
    requires
        f.wf(),
    ensures
        r == weekday_hit(w, rule@, f.date),
{
    let wd: i64 = f.number % 7;
    match w {
        NWeekday::Every(d) => d.number() == wd,
        NWeekday::Nth(k, d) => {
            if d.number() != wd {
                return false;
            }
            let in_month: bool = rule.freq == Frequency::Monthly || (rule.freq
                == Frequency::Yearly && rule.by_month.len() > 0);
            if in_month {
                if k > 0 {
                    (f.date.day - 1) / 7 + 1 == k
                } else {
                    k > -100 && (f.month_len - f.date.day) / 7 + 1 == -k
                }
            } else {
                if k > 0 {
                    f.year_day / 7 + 1 == k
                } else {
                    k > -100 && (f.year_len - 1 - f.year_day) / 7 + 1 == -k
                }
            }
        },
    }
}

/// Tests whether some weekday filter of the rule admits the date.
pub fn some_weekday_passes(rule: &RRule, f: &DayFacts) -> (r: bool)
    requires
        f.wf(),
    ensures
        r == exists|i: int|
            0 <= i < rule@.by_weekday.len() && weekday_hit(
                #[trigger] rule@.by_weekday[i],
                rule@,
                f.date,
            ),
{
    let mut i: usize = 0;
    while i < rule.by_weekday.len()
        invariant
            f.wf(),
            i <= rule.by_weekday.len(),
            forall|k: int|
                0 <= k < i ==> !weekday_hit(#[trigger] rule@.by_weekday[k], rule@, f.date),
        decreases rule.by_weekday.len() - i,
    {
        if weekday_passes(rule.by_weekday[i], rule, f) {
            assert(weekday_hit(rule@.by_weekday[i as int], rule@, f.date));
            return true;
        }
        i = i + 1;
    }
    false
}

/// Tests a date against every day filter of the rule.
pub fn day_passes(rule: &RRule, f: &DayFacts) -> (r: bool)
    requires
        f.wf(),
    ensures
        r == day_ok(rule@, f.date),
{
    if !admits(&rule.by_month, f.date.month) {
        return false;
    }
    if rule.by_month_day.len() > 0 && !occurs(&rule.by_month_day, f.date.day) && !occurs(
        &rule.by_month_day,
        f.date.day - f.month_len - 1,
    ) {
        return false;
    }
    if rule.by_year_day.len() > 0 && !occurs(&rule.by_year_day, f.year_day + 1) && !occurs(
        &rule.by_year_day,
        f.year_day - f.year_len,
    ) {
        return false;
    }
    if rule.by_week_no.len() > 0 {
        let wk: (i64, i64) = week_number(f.number, f.date.year, rule.week_start.number());
        if !occurs(&rule.by_week_no, wk.0) && !occurs(&rule.by_week_no, wk.0 - wk.1 - 1) {
            return false;
        }
    }
    if rule.by_weekday.len() > 0 && !some_weekday_passes(rule, f) {
        return false;
    }
    true
}

/// Collects the days of `lo..hi` that pass the day filters.
pub fn matching_days(rule: &RRule, lo: i64, hi: i64) -> (r: Vec<i64>)
    requires
        0 <= lo,
        hi <= 3652059,
    ensures
        r@ == days_in(rule@, lo as int, hi as int),
        bounded(r@, lo as int, hi as int),
{
    let mut out: Vec<i64> = Vec::new();
    let mut d: i64 = lo;
    while d < hi
        invariant
            0 <= lo <= d,
            hi <= 3652059,
            d <= hi || d == lo,
            out@ == days_in(rule@, lo as int, d as int),
        decreases hi - d,
    {
        let f = DayFacts::of(d);
        if day_passes(rule, &f) {
            out.push(d);
        }
        d = d + 1;
    }
    proof {
        lemma_days_in_bounded(rule@, lo as int, hi as int);
    }
    out
}

/// Collects the numbers of `lo..hi` that a by-list admits.
pub fn matching_listed(list: &Vec<i64>, lo: i64, hi: i64) -> (r: Vec<i64>)
    requires
        0 <= lo,
        hi <= 60,
    ensures
        r@ == listed_in(list@, lo as int, hi as int),
        bounded(r@, lo as int, hi as int),
{
    let mut out: Vec<i64> = Vec::new();
    let mut x: i64 = lo;
    while x < hi
        invariant
            0 <= lo <= x,
            hi <= 60,
            x <= hi || x == lo,
            out@ == listed_in(list@, lo as int, x as int),
        decreases hi - x,
    {
        if admits(list, x) {
            out.push(x);
        }
        x = x + 1;
    }
    proof {
        lemma_listed_in_bounded(list@, lo as int, hi as int);
    }
    out
}

/// The pairs of one number with the members of a list lie below the bound
/// of all pairs.
pub proof fn lemma_row_bounded(x: int, b: Seq<i64>, scale: int, n: int, a_hi: int)
    requires
        0 <= x < a_hi,
        0 < scale <= 86400,
        a_hi <= 3652059,
        bounded(b, 0, scale),
        0 <= n <= b.len(),
    ensures
        bounded(row(x, b, scale, n), 0, a_hi * scale),
        row(x, b, scale, n).len() == n,
    decreases n,
{
    if n > 0 {
        lemma_row_bounded(x, b, scale, n - 1, a_hi);
        lemma_pair_bounded(x, b[n - 1] as int, scale, a_hi);
    }
}

/// A pair of numbers below their bounds lies below the bound of all pairs.
pub proof fn lemma_pair_bounded(x: int, y: int, scale: int, a_hi: int)
    requires
        0 <= x < a_hi,
        0 <= y < scale,
        0 < scale <= 86400,
        a_hi <= 3652059,
    ensures
        0 <= x * scale + y < a_hi * scale,
        a_hi * scale <= 3652059 * 86400,
{
    assert(x * scale + y < a_hi * scale && 0 <= x * scale) by (nonlinear_arith)
        requires
            0 <= x < a_hi,
            0 <= y < scale,
    ;
    assert(a_hi * scale <= 3652059 * 86400) by (nonlinear_arith)
        requires
            0 <= a_hi <= 3652059,
            0 < scale <= 86400,
    ;
}

/// All pairs of two lists lie below the bound of all pairs.
pub proof fn lemma_cross_bounded(a: Seq<i64>, b: Seq<i64>, scale: int, a_hi: int)
    requires
        bounded(a, 0, a_hi),
        bounded(b, 0, scale),
        0 < scale <= 86400,
        a_hi <= 3652059,
    ensures
        bounded(cross(a, b, scale), 0, a_hi * scale),
    decreases a.len(),
{
    if a.len() > 0 {
        lemma_cross_bounded(a.drop_last(), b, scale, a_hi);
        lemma_row_bounded(a.last() as int, b, scale, b.len() as int, a_hi);
    }
}

/// Combines two lists into all their pairs `a * scale + b`.
pub fn combine(a: &Vec<i64>, b: &Vec<i64>, scale: i64, a_hi: i64) -> (r: Vec<i64>)
    requires
        bounded(a@, 0, a_hi as int),
        bounded(b@, 0, scale as int),
        0 < scale <= 86400,
        0 <= a_hi <= 3652059,
    ensures
        r@ == cross(a@, b@, scale as int),
        bounded(r@, 0, a_hi * scale),
        a_hi * scale <= 3652059 * 86400,
{
    let mut out: Vec<i64> = Vec::new();
    let mut i: usize = 0;
    proof {
        assert(a_hi * scale <= 3652059 * 86400) by (nonlinear_arith)
            requires
                0 <= a_hi <= 3652059,
                0 < scale <= 86400,
        ;
    }
    while i < a.len()
        invariant
            i <= a.len(),
            bounded(a@, 0, a_hi as int),
            bounded(b@, 0, scale as int),
            0 < scale <= 86400,
            0 <= a_hi <= 3652059,
            out@ == cross(a@.subrange(0, i as int), b@, scale as int),
        decreases a.len() - i,
    {
        let x: i64 = a[i];
        let ghost before = out@;
        let mut j: usize = 0;
        while j < b.len()
            invariant
                j <= b.len(),
                i < a.len(),
                x == a@[i as int],
                0 <= x < a_hi,
                bounded(b@, 0, scale as int),
                0 < scale <= 86400,
                0 <= a_hi <= 3652059,
                out@ == before + row(x as int, b@, scale as int, j as int),
            decreases b.len() - j,
        {
            proof {
                lemma_pair_bounded(x as int, b@[j as int] as int, scale as int, a_hi as int);
            }
            out.push(x * scale + b[j]);
            j = j + 1;
        }
        proof {
            let next = a@.subrange(0, i + 1);
            assert(next.drop_last() =~= a@.subrange(0, i as int));
        }
        i = i + 1;
    }
    proof {
        assert(a@.subrange(0, i as int) =~= a@);
        lemma_cross_bounded(a@, b@, scale as int, a_hi as int);
    }
    out
}

/// Tests whether position `i` of `len` candidates is selected.
pub fn is_picked(pos: &Vec<i64>, i: usize, len: usize) -> (r: bool)
    ensures
        r == picked(pos@, i as int, len as int),
{
    let front: i128 = i as i128 + 1;
    let back: i128 = i as i128 - len as i128;
    let mut k: usize = 0;
    while k < pos.len()
        invariant
            k <= pos.len(),
            front == i + 1,
            back == i - len,
            forall|j: int| 0 <= j < k ==> pos@[j] != front && pos@[j] != back,
        decreases pos.len() - k,
    {
        let p: i128 = pos[k] as i128;
        if p == front || p == back {
            return true;
        }
        k = k + 1;
    }
    false
}

/// Keeps the candidates that the set positions select.
pub fn select(c: Vec<i64>, pos: &Vec<i64>) -> (r: Vec<i64>)
    ensures
        r@ == pick_positions(c@, pos@),
        forall|lo: int, hi: int| bounded(c@, lo, hi) ==> bounded(r@, lo, hi),
{
    if pos.len() == 0 {
        return c;
    }
    let mut out: Vec<i64> = Vec::new();
    let mut i: usize = 0;
    while i < c.len()
        invariant
            i <= c.len(),
            out@ == pick_prefix(c@, pos@, i as int),
            forall|k: int| 0 <= k < out@.len() ==> c@.contains(#[trigger] out@[k]),
        decreases c.len() - i,
    {
        if is_picked(pos, i, c.len()) {
            out.push(c[i]);
        }
        i = i + 1;
    }
    proof {
        assert forall|lo: int, hi: int| bounded(c@, lo, hi) implies bounded(out@, lo, hi) by {
            assert forall|k: int| 0 <= k < out@.len() implies lo <= #[trigger] out@[k] < hi by {}
        }
    }
    out
}

} // verus!
