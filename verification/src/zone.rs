//! Time zones: the mapping between absolute seconds and wall-clock seconds.
//!
//! The zone database itself is not part of this library. A named zone is
//! held as its position in the database's list of zones, and every lookup
//! goes through one of the trusted functions at the top of this file.

use chrono::{Offset, TimeZone};
use vstd::prelude::*;

use crate::calendar::{valid_secs, EPOCH_SECS};

verus! {

/// Smallest absolute second whose wall-clock time is in range whatever the offset.
pub const MIN_TS: i64 = -62135510400;

/// Largest absolute second whose wall-clock time is in range whatever the offset.
pub const MAX_TS: i64 = 253402214399;

/// A time zone identity.
#[derive(Clone, Copy, Debug, PartialEq, Eq, Structural)]
pub enum Tz {
    /// Coordinated universal time: wall-clock and absolute seconds coincide.
    Utc,
    /// The zone of the machine the program runs on.
    Local,
    /// A zone of the database, by its position in the database's list.
    Named(u16),
}

/// The absolute seconds a wall-clock time may stand for in some zone.
#[derive(Clone, Copy, Debug, PartialEq, Eq, Structural)]
pub enum LocalTimes {
    /// The wall-clock time was skipped by a forward clock change.
    Gap,
    /// The wall-clock time occurs once.
    One(i64),
    /// The wall-clock time occurs twice, at these two seconds in either
    /// order.
    Two(i64, i64),
}

/// The offset from UTC, in seconds east, that zone `id` of the database
/// observes at absolute second `ts`; `None` if the database has no such zone
/// or cannot represent the second.
pub uninterp spec fn zone_offset(id: int, ts: int) -> Option<i32>;

/// The absolute seconds at which zone `id` of the database shows the
/// wall-clock time that lies `naive` seconds after 1970-01-01T00:00:00 on the
/// wall clock.
pub uninterp spec fn zone_local_times(id: int, naive: int) -> LocalTimes;

/// The position in the database's list of the zone called `name`.
pub uninterp spec fn zone_id(name: Seq<char>) -> Option<u16>;

/// Calls `chrono_tz::Tz::offset_from_utc_datetime` on the zone at position
/// `id` of `chrono_tz::TZ_VARIANTS`. The contract only gives the result its
/// name: the offset is a function of the zone and the second alone.
#[verifier::external_body]
fn named_offset_at(id: u16, ts: i64) -> (r: Option<i32>)
    ensures
        r == zone_offset(id as int, ts as int),
{
    let zone = chrono_tz::TZ_VARIANTS.get(usize::from(id))?;
    let utc = chrono::DateTime::from_timestamp(ts, 0)?;
    Some(zone.offset_from_utc_datetime(&utc.naive_utc()).fix().local_minus_utc())
}

/// Calls `chrono::TimeZone::from_local_datetime` of the zone at position `id`
/// of `chrono_tz::TZ_VARIANTS`. The contract only gives the result its name:
/// the outcome is a function of the zone and the wall-clock second alone.
#[verifier::external_body]
fn named_local_times(id: u16, naive: i64) -> (r: LocalTimes)
    ensures
        r == zone_local_times(id as int, naive as int),
{
    let wall = match chrono::DateTime::from_timestamp(naive, 0) {
        Some(d) => d.naive_utc(),
        None => return LocalTimes::Gap,
    };
    let zone = match chrono_tz::TZ_VARIANTS.get(usize::from(id)) {
        Some(z) => z,
        None => return LocalTimes::Gap,
    };
    match zone.from_local_datetime(&wall) {
        chrono::LocalResult::None => LocalTimes::Gap,
        chrono::LocalResult::Single(a) => LocalTimes::One(a.timestamp()),
        chrono::LocalResult::Ambiguous(a, b) => LocalTimes::Two(a.timestamp(), b.timestamp()),
    }
}

/// Calls `chrono::Local::offset_from_utc_datetime`. The answer depends on the
/// machine's configuration, so nothing is claimed of it.
#[verifier::external_body]
fn machine_offset_at(ts: i64) -> (r: Option<i32>) {
    let utc = chrono::DateTime::from_timestamp(ts, 0)?;
    Some(chrono::Local.offset_from_utc_datetime(&utc.naive_utc()).fix().local_minus_utc())
}

/// Calls `chrono::TimeZone::from_local_datetime` of `chrono::Local`. The
/// answer depends on the machine's configuration, so nothing is claimed of it.
#[verifier::external_body]
fn machine_local_times(naive: i64) -> (r: LocalTimes) {
    let wall = match chrono::DateTime::from_timestamp(naive, 0) {
        Some(d) => d.naive_utc(),
        None => return LocalTimes::Gap,
    };
    match chrono::Local.from_local_datetime(&wall) {
        chrono::LocalResult::None => LocalTimes::Gap,
        chrono::LocalResult::Single(a) => LocalTimes::One(a.timestamp()),
        chrono::LocalResult::Ambiguous(a, b) => LocalTimes::Two(a.timestamp(), b.timestamp()),
    }
}

/// Parses `name` with `chrono_tz::Tz::from_str` and finds the zone in
/// `chrono_tz::TZ_VARIANTS`. The contract only gives the result its name.
#[verifier::external_body]
fn named_zone_id(name: &str) -> (r: Option<u16>)
    ensures
        r == zone_id(name@),
{
    let zone: chrono_tz::Tz = name.parse().ok()?;
    let at = chrono_tz::TZ_VARIANTS.iter().position(|z| *z == zone)?;
    u16::try_from(at).ok()
}

/// An offset is usable when it is less than a day in either direction;
/// anything else counts as no offset.
pub open spec fn usable_offset(o: Option<i32>) -> int {
    match o {
        Some(v) => if -86400 < v < 86400 {
            v as int
        } else {
            0
        },
        None => 0,
    }
}

/// Keeps an absolute second only if it lies in the supported range.
pub open spec fn usable_ts(t: int) -> Option<int> {
    if MIN_TS <= t <= MAX_TS {
        Some(t)
    } else {
        None
    }
}

impl LocalTimes {
    /// The canonical choice among the candidates: the earliest one, which
    /// is the smaller of two in whatever order they are given.
    pub open spec fn earliest(self) -> Option<int> {
        match self {
            LocalTimes::Gap => None,
            LocalTimes::One(a) => Some(a as int),
            LocalTimes::Two(a, b) => if a <= b {
                Some(a as int)
            } else {
                Some(b as int)
            },
        }
    }

    /// The earliest candidate that lies in the supported range.
    pub open spec fn pick(self) -> Option<int> {
        match self.earliest() {
            Some(t) => usable_ts(t),
            None => None,
        }
    }

    /// Applies the policy for wall-clock times that occur twice or never:
    /// the earlier occurrence is taken, a skipped time yields nothing.
    pub fn choose_earliest(self) -> (r: Option<i64>)
        ensures
            self.pick() == (match r {
                Some(t) => Some(t as int),
                None => None,
            }),
    {
        let t: i64 = match self {
            LocalTimes::Gap => {
                return None;
            },
            LocalTimes::One(a) => a,
            LocalTimes::Two(a, b) => if a <= b {
                a
            } else {
                b
            },
        };
        if MIN_TS <= t && t <= MAX_TS {
            Some(t)
        } else {
            None
        }
    }
}

impl Tz {
    /// True for the zones whose answers depend on the zone and the second
    /// alone, not on the machine.
    pub open spec fn is_fixed(self) -> bool {
        !(self is Local)
    }

    /// Offset from UTC in seconds east at absolute second `ts`, for a fixed zone.
    pub open spec fn offset_of(self, ts: int) -> int {
        match self {
            Tz::Named(id) => usable_offset(zone_offset(id as int, ts)),
            _ => 0,
        }
    }

    /// The absolute second at which the wall clock of a fixed zone shows
    /// local second `local`, if any.
    pub open spec fn resolved(self, local: int) -> Option<int> {
        match self {
            Tz::Named(id) => zone_local_times(id as int, local - EPOCH_SECS).pick(),
            _ => usable_ts(local - EPOCH_SECS),
        }
    }

    /// Looks a zone up by its name in the database.
    pub fn named(name: &str) -> (r: Option<Tz>)
        ensures
            r == (match zone_id(name@) {
                Some(id) => Some(Tz::Named(id)),
                None => None,
            }),
    {
        match named_zone_id(name) {
            Some(id) => Some(Tz::Named(id)),
            None => None,
        }
    }

    /// Offset from UTC in seconds east at absolute second `ts`.
    pub fn offset_at(self, ts: i64) -> (r: i32)
        ensures
            -86400 < r < 86400,
            self.is_fixed() ==> r == self.offset_of(ts as int),
    {
        let raw: Option<i32> = match self {
            Tz::Utc => None,
            Tz::Local => machine_offset_at(ts),
            Tz::Named(id) => named_offset_at(id, ts),
        };
        match raw {
            Some(v) => if -86400 < v && v < 86400 {
                v
            } else {
                0
            },
            None => 0,
        }
    }

    /// The absolute second at which this zone's wall clock shows local
    /// second `local`. A time that occurs twice resolves to its earlier
    /// occurrence; a time that never occurs resolves to nothing.
    pub fn resolve(self, local: i64) -> (r: Option<i64>)
        requires
            valid_secs(local as int),
        ensures
            r matches Some(t) ==> MIN_TS <= t <= MAX_TS,
            self.is_fixed() ==> self.resolved(local as int) == (match r {
                Some(t) => Some(t as int),
                None => None,
            }),
    {
        let naive: i64 = local - EPOCH_SECS;
        match self {
            Tz::Utc => if MIN_TS <= naive && naive <= MAX_TS {
                Some(naive)
            } else {
                None
            },
            Tz::Local => machine_local_times(naive).choose_earliest(),
            Tz::Named(id) => named_local_times(id, naive).choose_earliest(),
        }
    }
}

} // verus!
