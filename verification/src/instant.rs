//! Instants: an absolute second together with the zone it is shown in.

use std::cmp::Ordering;
use vstd::prelude::*;
use vstd::std_specs::cmp::{PartialEqSpecImpl, PartialOrdSpecImpl};

use crate::calendar::{
    date_of, date_on, days_from_civil, valid_date, valid_secs, Date, EPOCH_SECS, SECS_PER_DAY,
};
use crate::text::padded;
use crate::zone::{Tz, MAX_TS, MIN_TS};

verus! {

/// A point in time, shown in a zone. Two instants are equal when they are
/// the same absolute second, whatever their zones, and the earlier of two
/// is the lesser.
#[derive(Clone, Copy, Debug)]
pub struct Instant {
    /// Seconds since 1970-01-01T00:00:00 UTC.
    pub ts: i64,
    /// The zone that wall-clock fields are rendered in.
    pub tz: Tz,
}

impl PartialEq for Instant {
    fn eq(&self, other: &Instant) -> (r: bool) {
        self.ts == other.ts
    }
}

impl PartialEqSpecImpl for Instant {
    open spec fn obeys_eq_spec() -> bool {
        true
    }

    open spec fn eq_spec(&self, other: &Instant) -> bool {
        self.ts == other.ts
    }
}

impl PartialOrd for Instant {
    fn partial_cmp(&self, other: &Instant) -> (r: Option<Ordering>) {
        if self.ts < other.ts {
            Some(Ordering::Less)
        } else if self.ts > other.ts {
            Some(Ordering::Greater)
        } else {
            Some(Ordering::Equal)
        }
    }
}

impl PartialOrdSpecImpl for Instant {
    open spec fn obeys_partial_cmp_spec() -> bool {
        true
    }

    open spec fn partial_cmp_spec(&self, other: &Instant) -> Option<Ordering> {
        if self.ts < other.ts {
            Some(Ordering::Less)
        } else if self.ts > other.ts {
            Some(Ordering::Greater)
        } else {
            Some(Ordering::Equal)
        }
    }
}

/// Calls `chrono::DateTime::to_rfc3339` on the second `ts` shown in
/// `chrono::FixedOffset::east_opt(offset)`. The contract claims the text
/// that chrono writes for a year of four digits and a whole second: date
/// and time on the wall clock at the offset, then the offset in hours and
/// minutes, rounded to the nearest minute.
#[verifier::external_body]
fn format_rfc3339(ts: i64, offset: i32) -> (r: String)
    requires
        MIN_TS <= ts <= MAX_TS,
        -86400 < offset < 86400,
    ensures
        r@ == rfc3339_text(ts as int, offset as int),
{
    let zone = chrono::FixedOffset::east_opt(offset).unwrap();
    chrono::DateTime::from_timestamp(ts, 0).unwrap().with_timezone(&zone).to_rfc3339()
}

/// Wall-clock fields of an instant.
#[derive(Clone, Copy, Debug)]
pub struct WallClock {
    pub date: Date,
    pub hour: i64,
    pub minute: i64,
    pub second: i64,
}

impl WallClock {
    /// The fields name a date of a supported year and a time of day.
    pub open spec fn wf(self) -> bool {
        &&& self.date.wf()
        &&& 0 <= self.hour < 24
        &&& 0 <= self.minute < 60
        &&& 0 <= self.second < 60
    }

    /// The local second these fields stand for.
    pub open spec fn secs(self) -> int {
        self.date.number() * 86400 + self.hour * 3600 + self.minute * 60 + self.second
    }
}

/// The wall-clock fields of a local second.
pub open spec fn wall_at(local: int) -> WallClock {
    WallClock {
        date: date_of(local / 86400),
        hour: ((local % 86400) / 3600) as i64,
        minute: ((local % 3600) / 60) as i64,
        second: (local % 60) as i64,
    }
}

/// The RFC 3339 text of absolute second `ts` shown at `offset` seconds
/// east of UTC: `YYYY-MM-DDTHH:MM:SS` on the wall clock there, then the
/// offset as `+HH:MM` or `-HH:MM`, rounded to the nearest minute.
pub open spec fn rfc3339_text(ts: int, offset: int) -> Seq<char> {
    let w = wall_at(ts + offset + EPOCH_SECS);
    let size = if offset < 0 {
        -offset
    } else {
        offset
    };
    let sign = if offset < 0 {
        '-'
    } else {
        '+'
    };
    let minutes = (size + 30) / 60;
    padded(w.date.year as int, 4) + seq!['-'] + padded(w.date.month as int, 2) + seq!['-'] + padded(
        w.date.day as int,
        2,
    ) + seq!['T'] + padded(w.hour as int, 2) + seq![':'] + padded(w.minute as int, 2) + seq![':']
        + padded(w.second as int, 2) + seq![sign] + padded(minutes / 60, 2) + seq![':'] + padded(
        minutes % 60,
        2,
    )
}

/// The text is the RFC 3339 form of the instant: at the offset of its
/// zone where that is a fixed one, else at some offset of less than a day.
pub open spec fn shown_as(d: Instant, text: Seq<char>) -> bool {
    if d.tz.is_fixed() {
        text == rfc3339_text(d.ts as int, d.tz.offset_of(d.ts as int))
    } else {
        exists|off: int| -86400 < off < 86400 && text == #[trigger] rfc3339_text(d.ts as int, off)
    }
}

/// Splits a local second into calendar date and time of day.
pub fn wall_clock(local: i64) -> (r: WallClock)
    requires
        valid_secs(local as int),
    ensures
        r == wall_at(local as int),
        r.wf(),
        r.secs() == local,
{
    let day: i64 = local / SECS_PER_DAY;
    let rem: i64 = local % SECS_PER_DAY;
    let date = date_on(day);
    let hour: i64 = rem / 3600;
    let in_hour: i64 = rem % 3600;
    let minute: i64 = in_hour / 60;
    let second: i64 = in_hour % 60;
    proof {
        lemma_time_of_day(local as int);
    }
    WallClock { date, hour, minute, second }
}

/// The time of day of a local second, taken apart step by step, is what
/// taking it apart at once gives.
proof fn lemma_time_of_day(local: int)
    requires
        0 <= local,
    ensures
        (local % 86400) % 3600 == local % 3600,
        ((local % 86400) % 3600) % 60 == local % 60,
        local == (local / 86400) * 86400 + ((local % 86400) / 3600) * 3600 + ((local % 3600)
            / 60) * 60 + local % 60,
{
    let rem = local % 86400;
    assert(local == (local / 86400) * 86400 + rem);
    assert(rem == (rem / 3600) * 3600 + rem % 3600);
    assert(rem % 3600 == local % 3600) by {
        assert(local == ((local / 86400) * 24 + rem / 3600) * 3600 + rem % 3600);
        vstd::arithmetic::div_mod::lemma_fundamental_div_mod_converse(
            local,
            3600,
            (local / 86400) * 24 + rem / 3600,
            rem % 3600,
        );
    }
    let inh = local % 3600;
    assert(inh == (inh / 60) * 60 + inh % 60);
    assert(inh % 60 == local % 60) by {
        assert(local == ((local / 3600) * 60 + inh / 60) * 60 + inh % 60);
        vstd::arithmetic::div_mod::lemma_fundamental_div_mod_converse(
            local,
            60,
            (local / 3600) * 60 + inh / 60,
            inh % 60,
        );
    }
}

/// The local second of a calendar date and time of day.
pub fn local_seconds(y: i64, m: i64, d: i64, h: i64, mi: i64, s: i64) -> (r: i64)
    requires
        valid_date(y as int, m as int, d as int),
        0 <= h < 24,
        0 <= mi < 60,
        0 <= s < 60,
    ensures
        r == crate::calendar::day_of(y as int, m as int, d as int) * 86400 + h * 3600 + mi * 60 + s,
        valid_secs(r as int),
{
    days_from_civil(y, m, d) * SECS_PER_DAY + h * 3600 + mi * 60 + s
}

impl Instant {
    /// An instant is well formed when its wall-clock time lies in the
    /// supported years in every zone.
    pub open spec fn wf(self) -> bool {
        MIN_TS <= self.ts <= MAX_TS
    }

    /// The instant at absolute second `ts`, if that second is in range.
    pub fn new(ts: i64, tz: Tz) -> (r: Option<Instant>)
        ensures
            r == (if MIN_TS <= ts <= MAX_TS {
                Some(Instant { ts, tz })
            } else {
                None
            }),
    {
        if MIN_TS <= ts && ts <= MAX_TS {
            Some(Instant { ts, tz })
        } else {
            None
        }
    }

    /// Seconds since 1970-01-01T00:00:00 UTC.
    pub fn timestamp(&self) -> (r: i64)
        ensures
            r == self.ts,
    {
        self.ts
    }

    /// The zone this instant is shown in.
    pub fn timezone(&self) -> (r: Tz)
        ensures
            r == self.tz,
    {
        self.tz
    }

    /// The same absolute second shown in another zone.
    pub fn with_timezone(&self, tz: Tz) -> (r: Instant)
        ensures
            r == (Instant { ts: self.ts, tz }),
    {
        Instant { ts: self.ts, tz }
    }

    /// Offset from UTC, in seconds east, that the zone observes at this instant.
    pub fn offset(&self) -> (r: i32)
        ensures
            -86400 < r < 86400,
            self.tz.is_fixed() ==> r == self.tz.offset_of(self.ts as int),
    {
        self.tz.offset_at(self.ts)
    }

    /// The wall-clock time of this instant in its zone, as a local second.
    pub fn local_secs(&self) -> (r: i64)
        requires
            self.wf(),
        ensures
            valid_secs(r as int),
            self.tz.is_fixed() ==> r == self.ts + self.tz.offset_of(self.ts as int) + EPOCH_SECS,
    {
        let off: i32 = self.offset();
        self.ts + (off as i64) + EPOCH_SECS
    }

    /// The instant at which the wall clock of a fixed zone shows the given
    /// fields, if the fields name a date and a time of day and that
    /// wall-clock time occurs in the zone.
    pub open spec fn at_local(tz: Tz, y: int, m: int, d: int, h: int, mi: int, s: int) -> Option<
        Instant,
    > {
        if valid_date(y, m, d) && 0 <= h < 24 && 0 <= mi < 60 && 0 <= s < 60 {
            match tz.resolved(crate::calendar::day_of(y, m, d) * 86400 + h * 3600 + mi * 60 + s) {
                Some(t) => Some(Instant { ts: t as i64, tz }),
                None => None,
            }
        } else {
            None
        }
    }

    /// The instant at which the wall clock of `tz` shows the given fields,
    /// if the fields name a date and that wall-clock time occurs.
    pub fn from_local(tz: Tz, y: i64, m: i64, d: i64, h: i64, mi: i64, s: i64) -> (r: Option<
        Instant,
    >)
        ensures
            r matches Some(i) ==> i.wf() && i.tz == tz,
            !(valid_date(y as int, m as int, d as int) && 0 <= h < 24 && 0 <= mi < 60 && 0 <= s
                < 60) ==> r is None,
            tz.is_fixed() ==> r == Instant::at_local(
                tz,
                y as int,
                m as int,
                d as int,
                h as int,
                mi as int,
                s as int,
            ),
    {
        if !(1 <= y && y <= 9999 && 1 <= m && m <= 12 && 1 <= d && 0 <= h && h < 24 && 0 <= mi
            && mi < 60 && 0 <= s && s < 60) {
            return None;
        }
        if d > crate::calendar::days_in_month(y, m) {
            return None;
        }
        let local: i64 = local_seconds(y, m, d, h, mi, s);
        match tz.resolve(local) {
            Some(ts) => Some(Instant { ts, tz }),
            None => None,
        }
    }

    /// The RFC 3339 text of this instant in its zone.
    pub fn to_rfc3339(&self) -> (r: String)
        requires
            self.wf(),
        ensures
            shown_as(*self, r@),
    {
        let off: i32 = self.offset();
        format_rfc3339(self.ts, off)
    }
}

} // verus!
