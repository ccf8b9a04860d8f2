//! The merge of the rules and explicit instants of a set into one
//! ascending sequence without the excluded instants.

use std::collections::BTreeSet;
use vstd::prelude::*;

use crate::cache::{cache_has, cache_insert};
use crate::error::RRuleError;
use crate::instant::Instant;
use crate::iter::{End, IterConfig, IterState, RRuleIter, MAX_ITER_LOOP};
use crate::rule::{RRule, RuleSpec};
use crate::failure::{
    dates_give_up, dates_stand_at, gives_up_at, lemma_dates_give_up, lemma_generate_gives_up,
    lemma_shut_out, rule_gives_up, run_excluded, shut_out, stands_at, tail_excluded,
};
use crate::sequence::{
    after, any_rule_emits, emits, lemma_after_add, lemma_after_grows, lemma_earlier_pulls,
    lemma_emits_beyond, lemma_emits_from_later, lemma_end_is_final, lemma_ended_emits_nothing,
    lemma_pull_above, lemma_pull_step, lemma_scan, pull, rule_config, rule_emits, rule_start,
};
use crate::set::views;
use crate::zone::{MAX_TS, MIN_TS};

verus! {

/// The merge of the sources of a recurrence set. One lookahead slot per
/// inclusion rule holds the next instant of that rule that is not excluded;
/// the explicit instants wait in descending order and are taken from the end.
#[derive(Clone)]
pub struct RRuleSetIter<'a> {
    /// The lookahead slot of each inclusion rule.
    pub queue: Vec<Option<Instant>>,
    /// The generator of each inclusion rule.
    pub rrule_iters: Vec<RRuleIter<'a>>,
    /// The exclusion rules.
    pub exrules: &'a Vec<RRule>,
    /// The seconds known to be excluded: the explicit ones, and what the
    /// exclusion rules were found to hand out so far.
    pub exdates: BTreeSet<i64>,
    /// The explicit instants not yet handed out, latest first.
    pub rdates: Vec<Instant>,
    /// The error that ended the iteration, if one did.
    pub error: Option<RRuleError>,
    /// The anchor of the set.
    pub dt_start: Instant,
    /// The instant handed out last; one less than the earliest possible
    /// instant before the first.
    pub floor: i64,
    /// The number of excluded instants in a row at which a source gives up.
    pub limit: u32,
    /// The explicit excluded seconds that the iteration started with.
    pub explicit: Ghost<Set<i64>>,
    /// The explicit instants that the iteration started with, latest first.
    pub given: Ghost<Seq<Instant>>,
    /// How many pulls were made on the generator of each inclusion rule.
    pub pulls: Ghost<Seq<nat>>,
}

/// Every rule of the list is fit for a generator.
pub open spec fn all_ready(rules: Seq<RRule>) -> bool {
    forall|j: int| 0 <= j < rules.len() ==> (#[trigger] rules[j]).ready()
}

/// The instant `t` is excluded: it is in the set of excluded seconds, or
/// an exclusion rule hands it out.
pub open spec fn excluded(cache: Set<i64>, exrules: Seq<RRule>, dt_start: Instant, t: i64) -> bool {
    cache.contains(t) || any_rule_emits(exrules, dt_start, t as int)
}

/// The set of excluded seconds answers for `t` as the exclusion rules do:
/// if one of them hands `t` out, the set holds it.
pub open spec fn complete_at(
    cache: Set<i64>,
    exrules: Seq<RRule>,
    dt_start: Instant,
    t: i64,
) -> bool {
    any_rule_emits(exrules, dt_start, t as int) ==> cache.contains(t)
}

/// The set of excluded seconds only grows, not at all where there are no
/// exclusion rules, and over a fixed zone only by seconds that are excluded
/// anyway.
pub open spec fn cache_kept(
    old_cache: Set<i64>,
    new_cache: Set<i64>,
    exrules: Seq<RRule>,
    dt_start: Instant,
) -> bool {
    &&& forall|x: i64| old_cache.contains(x) ==> #[trigger] new_cache.contains(x)
    &&& exrules.len() == 0 ==> new_cache == old_cache
    &&& dt_start.tz.is_fixed() ==> forall|x: i64| #[trigger]
        new_cache.contains(x) ==> excluded(old_cache, exrules, dt_start, x)
}

/// Every second that the set of excluded seconds gained lies within one
/// second of an instant that was tested.
pub open spec fn grown_near(old_cache: Set<i64>, new_cache: Set<i64>, tested: Seq<Instant>) -> bool {
    forall|x: i64| #[trigger]
        new_cache.contains(x) && !old_cache.contains(x) ==> exists|i: int|
            0 <= i < tested.len() && (#[trigger] tested[i]).ts - 1 <= x <= tested[i].ts + 1
}

/// Some pull from the state hands out an instant within one second of `x`.
pub open spec fn pulled_near(c: IterConfig, s: IterState, x: i64) -> bool {
    exists|j: nat| (#[trigger] pull(c, s, j)) matches Some(t) && t - 1 <= x <= t + 1
}

/// What pulls do to the count of a rule: a rule without one stays without
/// one; else what is left of it does not grow, and it shrinks where an
/// instant was handed out.
pub open spec fn count_used(was: Option<u32>, now: Option<u32>, handed_out: bool) -> bool {
    match was {
        None => now is None,
        Some(n) => now matches Some(m) && m <= n && (handed_out ==> m < n),
    }
}

/// The set of excluded seconds holds some second.
pub open spec fn some_excluded(cache: Set<i64>) -> bool {
    exists|x: i64| cache.contains(x)
}

/// The number of excluded candidates in a row at which a source gives up:
/// the bound, but at least one.
pub open spec fn guard(limit: u32) -> int {
    if limit == 0 {
        1
    } else {
        limit as int
    }
}

/// Each of the first `m` pulls handed out an instant that the set of
/// excluded seconds holds.
pub open spec fn pulled_excluded(
    c: IterConfig,
    s: IterState,
    m: nat,
    cache: Set<i64>,
    exrules: Seq<RRule>,
    dt_start: Instant,
) -> bool {
    forall|j: nat|
        j < m ==> (#[trigger] pull(c, s, j) matches Some(x) && i64::MIN <= x <= i64::MAX
            && cache.contains(x as i64) && complete_at(cache, exrules, dt_start, x as i64))
}

/// What `generate` did over fixed zones, told by the number `m` of
/// excluded instants that it passed over: pull number `m` decided.
#[verifier::opaque]
pub open spec fn pull_outcome(
    c: IterConfig,
    s: IterState,
    m: nat,
    last: IterState,
    cache: Set<i64>,
    exrules: Seq<RRule>,
    dt_start: Instant,
    limit: u32,
    r: Result<Option<Instant>, RRuleError>,
) -> bool {
    &&& m < guard(limit)
    &&& last == after(c, s, m + 1)
    &&& pulled_excluded(c, s, m, cache, exrules, dt_start)
    &&& match r {
        Ok(Some(d)) => pull(c, s, m) == Some(d.ts as int) && !excluded(
            cache,
            exrules,
            dt_start,
            d.ts,
        ),
        Ok(None) => pull(c, s, m) is None,
        Err(_) => m + 1 == guard(limit) && (pull(c, s, m) matches Some(x) && i64::MIN <= x
            <= i64::MAX && cache.contains(x as i64)),
    }
}

/// Some of the first `n` rules hands out `t`.
pub open spec fn some_of_first_emits(rules: Seq<RRule>, n: int, dt_start: Instant, t: int) -> bool {
    exists|j: int| 0 <= j < n && rule_emits(#[trigger] rules[j]@, dt_start, t)
}

/// Adds the seconds of `found` to the set.
pub fn remember(exdates: &mut BTreeSet<i64>, found: &Vec<i64>)
    ensures
        forall|x: i64| #[trigger]
            final(exdates)@.contains(x) <==> old(exdates)@.contains(x) || found@.contains(x),
{
    let mut i: usize = 0;
    while i < found.len()
        invariant
            i <= found.len(),
            forall|x: i64| #[trigger]
                exdates@.contains(x) <==> old(exdates)@.contains(x) || found@.subrange(
                    0,
                    i as int,
                ).contains(x),
        decreases found.len() - i,
    {
        cache_insert(exdates, found[i]);
        proof {
            let more = found@.subrange(0, i + 1);
            assert forall|x: i64| #[trigger]
                exdates@.contains(x) <==> old(exdates)@.contains(x) || more.contains(x) by {
                if x == found@[i as int] {
                    assert(more[i as int] == x);
                }
            }
        }
        i = i + 1;
    }
    assert(found@.subrange(0, i as int) == found@);
}


/// What the set of excluded seconds gained near the instants tested so
/// far, and then near one more, it gained near all of them.
pub proof fn lemma_grown_near_step(
    a: Set<i64>,
    b: Set<i64>,
    c: Set<i64>,
    given: Seq<Instant>,
    lo: int,
)
    requires
        0 <= lo < given.len(),
        grown_near(a, b, given.subrange(lo + 1, given.len() as int)),
        forall|x: i64| #[trigger]
            c.contains(x) && !b.contains(x) ==> given[lo].ts - 1 <= x <= given[lo].ts + 1,
    ensures
        grown_near(a, c, given.subrange(lo, given.len() as int)),
{
    let n = given.len() as int;
    let was = given.subrange(lo + 1, n);
    let now = given.subrange(lo, n);
    assert forall|x: i64| #[trigger] c.contains(x) && !a.contains(x) implies exists|i: int|
        0 <= i < now.len() && (#[trigger] now[i]).ts - 1 <= x <= now[i].ts + 1 by {
        if b.contains(x) {
            let i = choose|i: int|
                0 <= i < was.len() && (#[trigger] was[i]).ts - 1 <= x <= was[i].ts + 1;
            assert(now[i + 1] == was[i]);
        } else {
            assert(now[0] == given[lo]);
        }
    }
}

/// Growth of the set of excluded seconds in two steps is growth.
pub proof fn lemma_cache_kept_twice(
    a: Set<i64>,
    b: Set<i64>,
    c: Set<i64>,
    exrules: Seq<RRule>,
    dt_start: Instant,
)
    requires
        cache_kept(a, b, exrules, dt_start),
        cache_kept(b, c, exrules, dt_start),
    ensures
        cache_kept(a, c, exrules, dt_start),
{
    if dt_start.tz.is_fixed() {
        assert forall|x: i64| #[trigger] c.contains(x) implies excluded(
            a,
            exrules,
            dt_start,
            x,
        ) by {}
    }
}

/// What held of the pulls passed over still holds once the set of
/// excluded seconds has grown.
pub proof fn lemma_pulled_excluded_kept(
    c: IterConfig,
    s: IterState,
    m: nat,
    a: Set<i64>,
    b: Set<i64>,
    exrules: Seq<RRule>,
    dt_start: Instant,
)
    requires
        pulled_excluded(c, s, m, a, exrules, dt_start),
        forall|x: i64| a.contains(x) ==> #[trigger] b.contains(x),
    ensures
        pulled_excluded(c, s, m, b, exrules, dt_start),
{
    assert forall|j: nat| j < m implies (#[trigger] pull(c, s, j) matches Some(x) && i64::MIN <= x
        <= i64::MAX && b.contains(x as i64) && complete_at(b, exrules, dt_start, x as i64)) by {}
}

/// Every instant of the list lies in the supported range.
pub open spec fn all_wf(dates: Seq<Instant>) -> bool {
    forall|i: int| 0 <= i < dates.len() ==> (#[trigger] dates[i]).wf()
}

/// What `generate_date` did: it took instants from the end of `given`,
/// leaving `rest`. All but the last one taken are excluded; the last one
/// taken decided.
pub open spec fn date_outcome(
    given: Seq<Instant>,
    rest: Seq<Instant>,
    cache: Set<i64>,
    exrules: Seq<RRule>,
    dt_start: Instant,
    limit: u32,
    r: Result<Option<Instant>, RRuleError>,
) -> bool {
    let n = given.len() as int;
    let m = n - rest.len();
    &&& 0 <= m <= n
    &&& m <= guard(limit)
    &&& rest == given.subrange(0, n - m)
    &&& forall|i: int|
        n - m < i < n ==> cache.contains((#[trigger] given[i]).ts) && (dt_start.tz.is_fixed()
            ==> complete_at(cache, exrules, dt_start, given[i].ts))
    &&& match r {
        Ok(Some(d)) => m >= 1 && d == given[n - m] && !cache.contains(d.ts) && (
        dt_start.tz.is_fixed() ==> complete_at(cache, exrules, dt_start, d.ts)),
        Ok(None) => m == n && (n > 0 ==> cache.contains(given[0].ts) && (dt_start.tz.is_fixed()
            ==> complete_at(cache, exrules, dt_start, given[0].ts))),
        Err(e) => e == RRuleError::IterError(limit) && m == guard(limit) && m < n
            && cache.contains(given[n - m].ts) && (dt_start.tz.is_fixed() ==> complete_at(
            cache,
            exrules,
            dt_start,
            given[n - m].ts,
        )),
    }
}

impl<'a> RRuleSetIter<'a> {
    /// Decides whether a candidate is excluded. The exclusion rules are
    /// expanded around the candidate, one second to either side, and what
    /// they hand out there is added to the set of excluded seconds; then the
    /// candidate is looked up in the set. Where there is no candidate,
    /// nothing is excluded and nothing is expanded.
    pub fn is_date_excluded(
        date: &Option<Instant>,
        exrules: &[RRule],
        exdates: &mut BTreeSet<i64>,
        dt_start: &Instant,
    ) -> (r: bool)
        requires
            all_ready(exrules@),
            dt_start.wf(),
            date matches Some(d) ==> d.wf(),
        ensures
            date is None ==> !r && final(exdates)@ == old(exdates)@,
            date matches Some(d) ==> r == final(exdates)@.contains(d.ts),
            exrules@.len() == 0 ==> final(exdates)@ == old(exdates)@,
            date matches Some(d) ==> forall|x: i64| #[trigger]
                final(exdates)@.contains(x) && !old(exdates)@.contains(x) ==> d.ts - 1 <= x
                    <= d.ts + 1,
            dt_start.tz.is_fixed() ==> (date matches Some(d) ==> forall|x: i64| #[trigger]
                final(exdates)@.contains(x) <==> old(exdates)@.contains(x) || (d.ts - 1 <= x
                    <= d.ts + 1 && any_rule_emits(exrules@, *dt_start, x as int))),
            cache_kept(old(exdates)@, final(exdates)@, exrules@, *dt_start),
            dt_start.tz.is_fixed() ==> (date matches Some(d) ==> complete_at(
                final(exdates)@,
                exrules@,
                *dt_start,
                d.ts,
            ) && r == excluded(old(exdates)@, exrules@, *dt_start, d.ts)),
    {
        match date {
            None => false,
            Some(d) => {
                let ts: i64 = d.ts;
                let mut j: usize = 0;
                while j < exrules.len()
                    invariant
                        j <= exrules.len(),
                        all_ready(exrules@),
                        dt_start.wf(),
                        d.wf(),
                        ts == d.ts,
                        j == 0 ==> exdates@ == old(exdates)@,
                        forall|x: i64| old(exdates)@.contains(x) ==> #[trigger] exdates@.contains(x),
                        forall|x: i64| #[trigger]
                            exdates@.contains(x) && !old(exdates)@.contains(x) ==> ts - 1 <= x <= ts
                                + 1,
                        dt_start.tz.is_fixed() ==> forall|x: i64| #[trigger]
                            exdates@.contains(x) <==> old(exdates)@.contains(x) || (ts - 1 <= x <= ts
                                + 1 && some_of_first_emits(exrules@, j as int, *dt_start, x as int)),
                    decreases exrules.len() - j,
                {
                    let rule = &exrules[j];
                    let it = rule.iter_with_ctx(*dt_start);
                    let found = it.all_between(ts - 1, ts + 1);
                    remember(exdates, &found);
                    proof {
                        assert forall|x: i64| #[trigger]
                            exdates@.contains(x) && !old(exdates)@.contains(x) implies ts - 1 <= x
                            <= ts + 1 by {}
                        if dt_start.tz.is_fixed() {
                            assert forall|x: i64| #[trigger]
                                exdates@.contains(x) <==> old(exdates)@.contains(x) || (ts - 1 <= x
                                    <= ts + 1 && some_of_first_emits(
                                    exrules@,
                                    j + 1,
                                    *dt_start,
                                    x as int,
                                )) by {
                                assert(found@.contains(x) <==> ts - 1 <= x <= ts + 1 && rule_emits(
                                    exrules@[j as int]@,
                                    *dt_start,
                                    x as int,
                                ));
                                if some_of_first_emits(exrules@, j + 1, *dt_start, x as int) {
                                    let w = choose|w: int|
                                        0 <= w < j + 1 && rule_emits(
                                            #[trigger] exrules@[w]@,
                                            *dt_start,
                                            x as int,
                                        );
                                    if w < j {
                                        assert(some_of_first_emits(
                                            exrules@,
                                            j as int,
                                            *dt_start,
                                            x as int,
                                        ));
                                    }
                                }
                            }
                        }
                    }
                    j = j + 1;
                }
                proof {
                    assert forall|x: i64|
                        some_of_first_emits(
                            exrules@,
                            exrules@.len() as int,
                            *dt_start,
                            x as int,
                        ) == any_rule_emits(exrules@, *dt_start, x as int) by {}
                }
                cache_has(exdates, ts)
            },
        }
    }

    /// Takes the next explicit instant that is not excluded from the end of
    /// `dates`. Excluded instants are dropped; once `limit` of them (at
    /// least one) came in a row and more instants wait, the generation is
    /// given up with an error.
    pub fn generate_date_within(
        dates: &mut Vec<Instant>,
        exrules: &[RRule],
        exdates: &mut BTreeSet<i64>,
        dt_start: &Instant,
        limit: u32,
    ) -> (r: Result<Option<Instant>, RRuleError>)
        requires
            all_wf(old(dates)@),
            all_ready(exrules@),
            dt_start.wf(),
        ensures
            cache_kept(old(exdates)@, final(exdates)@, exrules@, *dt_start),
            old(dates)@.len() == 0 ==> final(exdates)@ == old(exdates)@,
            final(dates)@.len() <= old(dates)@.len(),
            grown_near(
                old(exdates)@,
                final(exdates)@,
                old(dates)@.subrange(final(dates)@.len() as int, old(dates)@.len() as int),
            ),
            date_outcome(
                old(dates)@,
                final(dates)@,
                final(exdates)@,
                exrules@,
                *dt_start,
                limit,
                r,
            ),
    {
        let ghost given = dates@;
        let ghost n = dates@.len() as int;
        if dates.len() == 0 {
            assert(dates@ == given.subrange(0, n));
            return Ok(None);
        }
        let mut date: Instant = dates.pop().unwrap();
        let mut counter: u32 = 0;
        loop
            invariant
                given == old(dates)@,
                n == given.len(),
                all_wf(given),
                all_ready(exrules@),
                dt_start.wf(),
                0 <= counter < guard(limit),
                counter + 1 <= n,
                dates@ == given.subrange(0, n - counter - 1),
                date == given[n - counter - 1],
                cache_kept(old(exdates)@, exdates@, exrules@, *dt_start),
                grown_near(old(exdates)@, exdates@, given.subrange(n - counter, n)),
                forall|i: int|
                    n - counter - 1 < i < n ==> exdates@.contains((#[trigger] given[i]).ts) && (
                    dt_start.tz.is_fixed() ==> complete_at(
                        exdates@,
                        exrules@,
                        *dt_start,
                        given[i].ts,
                    )),
            decreases guard(limit) - counter,
        {
            let ghost before = exdates@;
            let out: bool = Self::is_date_excluded(&Some(date), exrules, exdates, dt_start);
            proof {
                lemma_cache_kept_twice(old(exdates)@, before, exdates@, exrules@, *dt_start);
                lemma_grown_near_step(old(exdates)@, before, exdates@, given, n - counter - 1);
            }
            if !out {
                return Ok(Some(date));
            }
            if dates.len() == 0 {
                return Ok(None);
            }
            counter = counter + 1;
            if counter >= limit {
                return Err(RRuleError::new_iter_err(limit));
            }
            date = dates.pop().unwrap();
        }
    }

    /// Takes the next explicit instant that is not excluded from the end of
    /// `dates`, giving up after `MAX_ITER_LOOP` excluded ones in a row.
    pub fn generate_date(
        dates: &mut Vec<Instant>,
        exrules: &[RRule],
        exdates: &mut BTreeSet<i64>,
        dt_start: &Instant,
    ) -> (r: Result<Option<Instant>, RRuleError>)
        requires
            all_wf(old(dates)@),
            all_ready(exrules@),
            dt_start.wf(),
        ensures
            cache_kept(old(exdates)@, final(exdates)@, exrules@, *dt_start),
            old(dates)@.len() == 0 ==> final(exdates)@ == old(exdates)@,
            final(dates)@.len() <= old(dates)@.len(),
            grown_near(
                old(exdates)@,
                final(exdates)@,
                old(dates)@.subrange(final(dates)@.len() as int, old(dates)@.len() as int),
            ),
            date_outcome(
                old(dates)@,
                final(dates)@,
                final(exdates)@,
                exrules@,
                *dt_start,
                100000,
                r,
            ),
    {
        Self::generate_date_within(dates, exrules, exdates, dt_start, MAX_ITER_LOOP)
    }

    /// Pulls the next instant of a rule that is not excluded, giving up
    /// after `MAX_ITER_LOOP` excluded ones in a row.
    pub fn generate(
        rrule_iter: &mut RRuleIter<'a>,
        exrules: &[RRule],
        exdates: &mut BTreeSet<i64>,
        dt_start: &Instant,
    ) -> (r: Result<Option<Instant>, RRuleError>)
        requires
            old(rrule_iter).wf(),
            all_ready(exrules@),
            dt_start.wf(),
        ensures
            final(rrule_iter).wf(),
            final(rrule_iter).rule == old(rrule_iter).rule,
            final(rrule_iter).config() == old(rrule_iter).config(),
            final(rrule_iter).floor >= old(rrule_iter).floor,
            final(rrule_iter).end == End::Running ==> old(rrule_iter).end == End::Running,
            cache_kept(old(exdates)@, final(exdates)@, exrules@, *dt_start),
            r matches Ok(Some(d)) ==> {
                &&& d.wf()
                &&& d.tz == old(rrule_iter).tz
                &&& d.ts > old(rrule_iter).floor
                &&& d.ts == final(rrule_iter).floor
                &&& final(rrule_iter).end == End::Running
                &&& !final(exdates)@.contains(d.ts)
            },
            r matches Ok(None) ==> final(rrule_iter).end != End::Running,
            r matches Err(e) ==> e == RRuleError::IterError(100000) && some_excluded(
                final(exdates)@,
            ),
            count_used(old(rrule_iter).left, final(rrule_iter).left, r is Ok && r->Ok_0 is Some),
            old(rrule_iter).end != End::Running ==> final(exdates)@ == old(exdates)@,
            forall|x: i64| #[trigger]
                final(exdates)@.contains(x) && !old(exdates)@.contains(x) ==> old(
                    rrule_iter,
                ).floor <= x <= final(rrule_iter).floor + 1,
            old(rrule_iter).tz.is_fixed() && dt_start.tz.is_fixed() ==> forall|x: i64| #[trigger]
                final(exdates)@.contains(x) && !old(exdates)@.contains(x) ==> pulled_near(
                    old(rrule_iter).config(),
                    old(rrule_iter).state(),
                    x,
                ),
            old(rrule_iter).tz.is_fixed() && dt_start.tz.is_fixed() ==> exists|m: nat|
                pull_outcome(
                    old(rrule_iter).config(),
                    old(rrule_iter).state(),
                    m,
                    final(rrule_iter).state(),
                    final(exdates)@,
                    exrules@,
                    *dt_start,
                    100000,
                    r,
                ),
    {
        Self::generate_within(rrule_iter, exrules, exdates, dt_start, MAX_ITER_LOOP)
    }

    /// Pulls the next instant of a rule that is not excluded. Excluded
    /// instants are passed over; once `limit` of them (at least one) came in
    /// a row, the generation is given up with an error.
    pub fn generate_within(
        rrule_iter: &mut RRuleIter<'a>,
        exrules: &[RRule],
        exdates: &mut BTreeSet<i64>,
        dt_start: &Instant,
        limit: u32,
    ) -> (r: Result<Option<Instant>, RRuleError>)
        requires
            old(rrule_iter).wf(),
            all_ready(exrules@),
            dt_start.wf(),
        ensures
            final(rrule_iter).wf(),
            final(rrule_iter).rule == old(rrule_iter).rule,
            final(rrule_iter).config() == old(rrule_iter).config(),
            final(rrule_iter).floor >= old(rrule_iter).floor,
            final(rrule_iter).end == End::Running ==> old(rrule_iter).end == End::Running,
            cache_kept(old(exdates)@, final(exdates)@, exrules@, *dt_start),
            r matches Ok(Some(d)) ==> {
                &&& d.wf()
                &&& d.tz == old(rrule_iter).tz
                &&& d.ts > old(rrule_iter).floor
                &&& d.ts == final(rrule_iter).floor
                &&& final(rrule_iter).end == End::Running
                &&& !final(exdates)@.contains(d.ts)
            },
            r matches Ok(None) ==> final(rrule_iter).end != End::Running,
            r matches Err(e) ==> e == RRuleError::IterError(limit) && some_excluded(
                final(exdates)@,
            ),
            count_used(old(rrule_iter).left, final(rrule_iter).left, r is Ok && r->Ok_0 is Some),
            old(rrule_iter).end != End::Running ==> final(exdates)@ == old(exdates)@,
            forall|x: i64| #[trigger]
                final(exdates)@.contains(x) && !old(exdates)@.contains(x) ==> old(
                    rrule_iter,
                ).floor <= x <= final(rrule_iter).floor + 1,
            old(rrule_iter).tz.is_fixed() && dt_start.tz.is_fixed() ==> forall|x: i64| #[trigger]
                final(exdates)@.contains(x) && !old(exdates)@.contains(x) ==> pulled_near(
                    old(rrule_iter).config(),
                    old(rrule_iter).state(),
                    x,
                ),
            old(rrule_iter).tz.is_fixed() && dt_start.tz.is_fixed() ==> exists|m: nat|
                pull_outcome(
                    old(rrule_iter).config(),
                    old(rrule_iter).state(),
                    m,
                    final(rrule_iter).state(),
                    final(exdates)@,
                    exrules@,
                    *dt_start,
                    limit,
                    r,
                ),
    {
        let ghost c = rrule_iter.config();
        let ghost s = rrule_iter.state();
        let ghost fixed = rrule_iter.tz.is_fixed() && dt_start.tz.is_fixed();
        let ghost mut m: nat = 0;
        let mut date = rrule_iter.next();
        let mut counter: u32 = 0;
        proof {
            if fixed {
                lemma_pull_step(c, s, 0, s);
            }
        }
        loop
            invariant
                rrule_iter.wf(),
                rrule_iter.rule == old(rrule_iter).rule,
                rrule_iter.config() == c,
                c == old(rrule_iter).config(),
                s == old(rrule_iter).state(),
                fixed == (old(rrule_iter).tz.is_fixed() && dt_start.tz.is_fixed()),
                rrule_iter.tz == old(rrule_iter).tz,
                all_ready(exrules@),
                dt_start.wf(),
                counter == m,
                m < guard(limit),
                rrule_iter.floor >= old(rrule_iter).floor,
                rrule_iter.end == End::Running ==> old(rrule_iter).end == End::Running,
                cache_kept(old(exdates)@, exdates@, exrules@, *dt_start),
                date matches Some(d) ==> d.wf() && d.tz == rrule_iter.tz && d.ts > old(
                    rrule_iter,
                ).floor && d.ts == rrule_iter.floor && rrule_iter.end == End::Running,
                date is None ==> rrule_iter.end != End::Running,
                count_used(old(rrule_iter).left, rrule_iter.left, date is Some),
                fixed ==> rrule_iter.state() == after(c, s, m + 1),
                fixed ==> pull(c, s, m) == (match date {
                    Some(d) => Some(d.ts as int),
                    None => None,
                }),
                fixed ==> pulled_excluded(c, s, m, exdates@, exrules@, *dt_start),
                old(rrule_iter).end != End::Running ==> exdates@ == old(exdates)@ && date is None,
                forall|x: i64| #[trigger]
                    exdates@.contains(x) && !old(exdates)@.contains(x) ==> old(rrule_iter).floor
                        <= x <= rrule_iter.floor + 1,
                fixed ==> forall|x: i64| #[trigger]
                    exdates@.contains(x) && !old(exdates)@.contains(x) ==> pulled_near(c, s, x),
            decreases guard(limit) - counter,
        {
            let ghost before = exdates@;
            let out: bool = Self::is_date_excluded(&date, exrules, exdates, dt_start);
            proof {
                reveal(pull_outcome);
                lemma_cache_kept_twice(old(exdates)@, before, exdates@, exrules@, *dt_start);
                if fixed {
                    lemma_pulled_excluded_kept(c, s, m, before, exdates@, exrules@, *dt_start);
                }
            }
            if !out {
                proof {
                    if fixed {
                        assert(pull_outcome(
                            c,
                            s,
                            m,
                            rrule_iter.state(),
                            exdates@,
                            exrules@,
                            *dt_start,
                            limit,
                            Ok(date),
                        ));
                    }
                }
                return Ok(date);
            }
            counter = counter + 1;
            if counter >= limit {
                proof {
                    if fixed {
                        assert(pull_outcome(
                            c,
                            s,
                            m,
                            rrule_iter.state(),
                            exdates@,
                            exrules@,
                            *dt_start,
                            limit,
                            Err(RRuleError::IterError(limit)),
                        ));
                    }
                }
                return Err(RRuleError::new_iter_err(limit));
            }
            let ghost at = rrule_iter.state();
            date = rrule_iter.next();
            proof {
                if fixed {
                    lemma_pull_step(c, s, m + 1, at);
                }
                m = m + 1;
            }
        }
    }
}

/// What `generate` achieved, in terms of what the generator hands out from
/// where it stood: up to the floor that it was left with, everything is in
/// the set of excluded seconds but the instant returned, if one was.
pub proof fn lemma_generate_meaning(
    c: IterConfig,
    s: IterState,
    m: nat,
    last: IterState,
    cache: Set<i64>,
    exrules: Seq<RRule>,
    dt_start: Instant,
    limit: u32,
    r: Result<Option<Instant>, RRuleError>,
)
    requires
        pull_outcome(c, s, m, last, cache, exrules, dt_start, limit, r),
    ensures
        forall|x: i64| #[trigger]
            emits(c, s, x as int) && x <= last.floor ==> cache.contains(x) || (r matches Ok(
                Some(d),
            ) && d.ts == x),
        r matches Ok(Some(d)) ==> emits(c, s, d.ts as int),
        r matches Ok(Some(d)) ==> !excluded(cache, exrules, dt_start, d.ts),
        last == after(c, s, m + 1),
{
    reveal(pull_outcome);
    assert forall|x: i64| #[trigger] emits(c, s, x as int) && x <= last.floor implies cache.contains(
        x,
    ) || (r matches Ok(Some(d)) && d.ts == x) by {
        let j = choose|j: nat| pull(c, s, j) == Some(x as int);
        if !(j < m) && (!(j == m)) {
            lemma_scan(c, after(c, s, j));
            lemma_after_grows(c, s, m + 1, j);
        }
    }
}

/// What a refill of the slot of one rule achieved. The generator stood
/// after `k` pulls with nothing waiting; then, up to the floor that it is
/// left with, everything that the rule hands out later than `floor` is
/// excluded, but the instant returned, if one was.
pub proof fn lemma_refill_step(
    rule: RuleSpec,
    dt_start: Instant,
    k: nat,
    before: IterState,
    m: nat,
    last: IterState,
    floor: int,
    explicit: Set<i64>,
    cache: Set<i64>,
    exrules: Seq<RRule>,
    limit: u32,
    r: Result<Option<Instant>, RRuleError>,
)
    requires
        dt_start.tz.is_fixed(),
        before == after(rule_config(rule, dt_start.tz), rule_start(rule, dt_start), k),
        pull_outcome(
            rule_config(rule, dt_start.tz),
            before,
            m,
            last,
            cache,
            exrules,
            dt_start,
            limit,
            r,
        ),
        cache_kept(explicit, cache, exrules, dt_start),
        forall|x: i64| #[trigger]
            rule_emits(rule, dt_start, x as int) && floor < x <= before.floor ==> excluded(
                explicit,
                exrules,
                dt_start,
                x,
            ),
    ensures
        last == after(rule_config(rule, dt_start.tz), rule_start(rule, dt_start), k + m + 1),
        forall|x: i64| #[trigger]
            rule_emits(rule, dt_start, x as int) && floor < x <= last.floor ==> excluded(
                explicit,
                exrules,
                dt_start,
                x,
            ) || (r matches Ok(Some(d)) && d.ts == x),
        r matches Ok(Some(d)) ==> rule_emits(rule, dt_start, d.ts as int) && !excluded(
            explicit,
            exrules,
            dt_start,
            d.ts,
        ),
{
    let c = rule_config(rule, dt_start.tz);
    let s0 = rule_start(rule, dt_start);
    lemma_after_add(c, s0, k, m + 1);
    lemma_generate_meaning(c, before, m, last, cache, exrules, dt_start, limit, r);
    assert forall|x: i64| #[trigger]
        rule_emits(rule, dt_start, x as int) && floor < x <= last.floor implies excluded(
        explicit,
        exrules,
        dt_start,
        x,
    ) || (r matches Ok(Some(d)) && d.ts == x) by {
        if x > before.floor {
            lemma_emits_beyond(c, s0, k, x as int);
        }
    }
    match r {
        Ok(Some(d)) => {
            lemma_emits_from_later(c, s0, k, d.ts as int);
        },
        _ => {},
    }
}

impl<'a> RRuleSetIter<'a> {
    /// The instant `x` is excluded from the set.
    pub open spec fn is_excluded(&self, x: i64) -> bool {
        excluded(self.explicit@, self.exrules@, self.dt_start, x)
    }

    /// The instant `x` is known not to be excluded: it is none of the
    /// explicit excluded seconds and, over a fixed zone, no exclusion rule
    /// hands it out.
    pub open spec fn not_excluded(&self, x: i64) -> bool {
        !self.explicit@.contains(x) && (self.dt_start.tz.is_fixed() ==> !any_rule_emits(
            self.exrules@,
            self.dt_start,
            x as int,
        ))
    }

    /// Inclusion rule `i` hands out `x`.
    pub open spec fn rule_source(&self, i: int, x: i64) -> bool {
        rule_emits(self.rrule_iters@[i].rule@, self.dt_start, x as int)
    }

    /// Some inclusion rule hands out `x`, or `x` is an explicit instant.
    pub open spec fn is_included(&self, x: i64) -> bool {
        (exists|i: int| 0 <= i < self.rrule_iters@.len() && #[trigger] self.rule_source(i, x)) || (
        exists|k: int| 0 <= k < self.given@.len() && (#[trigger] self.given@[k]).ts == x)
    }

    /// The instant `x` belongs to the set: it is included and not excluded.
    pub open spec fn occurs(&self, x: i64) -> bool {
        self.is_included(x) && !self.is_excluded(x)
    }

    /// The instants that rule `i` may still hand to the merge, where it
    /// has a count: what is left of the count, and the instant that waits in
    /// its slot.
    pub open spec fn room(&self, i: int) -> int {
        (match self.rrule_iters@[i].left {
            Some(n) => n as int,
            None => 0,
        }) + if self.queue@[i] is Some {
            1int
        } else {
            0int
        }
    }

    /// No rule with a count has more room than it had in `was`.
    pub open spec fn rooms_kept(&self, was: &RRuleSetIter<'a>) -> bool {
        forall|i: int|
            0 <= i < was.rrule_iters@.len() && (#[trigger] was.rrule_iters@[i]).left is Some
                ==> self.rrule_iters@[i].left is Some && self.room(i) <= was.room(i)
    }

    /// The instant at second `ts` that the merge handed out on its way
    /// from `was` came from a source: it is at the second of an explicit
    /// instant, or a rule has less room for it, if it has a count.
    pub open spec fn drawn(&self, was: &RRuleSetIter<'a>, ts: i64) -> bool {
        (exists|k: int| 0 <= k < was.given@.len() && (#[trigger] was.given@[k]).ts == ts) || (
        exists|i: int|
            0 <= i < was.rrule_iters@.len() && ((#[trigger] was.rrule_iters@[i]).left is Some
                ==> self.room(i) < was.room(i)))
    }

    /// What never changes during an iteration is the same in `other`.
    pub open spec fn same_setup(&self, other: &RRuleSetIter<'a>) -> bool {
        &&& self.exrules == other.exrules
        &&& self.dt_start == other.dt_start
        &&& self.limit == other.limit
        &&& self.explicit@ == other.explicit@
        &&& self.given@ == other.given@
        &&& self.rrule_iters@.len() == other.rrule_iters@.len()
        &&& forall|i: int|
            0 <= i < self.rrule_iters@.len() ==> (#[trigger] self.rrule_iters@[i]).rule
                == other.rrule_iters@[i].rule
    }

    /// The parts of the merge fit together: one slot and one count of
    /// pulls for each generator, rules and anchor fit for generation, and a
    /// set of excluded seconds that grew from the explicit ones.
    pub open spec fn base_ok(&self) -> bool {
        &&& self.queue@.len() == self.rrule_iters@.len()
        &&& self.pulls@.len() == self.rrule_iters@.len()
        &&& all_ready(self.exrules@)
        &&& self.dt_start.wf()
        &&& MIN_TS - 1 <= self.floor <= MAX_TS
        &&& cache_kept(self.explicit@, self.exdates@, self.exrules@, self.dt_start)
    }

    /// The slot of rule `i` and its generator fit together: an instant in
    /// the slot is the one that the generator handed out last, it is later
    /// than everything handed out by the merge, and it is not excluded; and
    /// whatever else the rule hands out between the two floors is excluded.
    pub open spec fn slot_ok(&self, i: int) -> bool {
        let it = self.rrule_iters@[i];
        &&& it.wf()
        &&& it.config() == rule_config(it.rule@, self.dt_start.tz)
        &&& (it.end == End::Running ==> it.floor >= self.floor)
        &&& (self.queue@[i] matches Some(q) ==> q.wf() && q.ts > self.floor && q.ts == it.floor
            && q.tz == self.dt_start.tz && self.not_excluded(q.ts) && (
        self.dt_start.tz.is_fixed() ==> self.rule_source(
            i,
            q.ts,
        )))
        &&& (self.dt_start.tz.is_fixed() ==> it.state() == after(
            it.config(),
            rule_start(it.rule@, self.dt_start),
            self.pulls@[i],
        ))
        &&& (self.dt_start.tz.is_fixed() ==> forall|x: i64| #[trigger]
            rule_emits(it.rule@, self.dt_start, x as int) && self.floor < x <= it.floor
                ==> excluded(self.explicit@, self.exrules@, self.dt_start, x) || (
            self.queue@[i] matches Some(q) && q.ts == x))
    }

    /// The explicit instants that wait are the first of those given, each
    /// later than everything handed out; those given are in descending
    /// order; and each one that no longer waits is not later than the floor
    /// or is among the excluded seconds, over a fixed zone rightly so.
    pub open spec fn dates_ok(&self) -> bool {
        let g = self.given@;
        let n = self.rdates@.len() as int;
        &&& n <= g.len()
        &&& self.rdates@ == g.subrange(0, n)
        &&& all_wf(g)
        &&& forall|a: int, b: int| 0 <= a < b < g.len() ==> (#[trigger] g[a]).ts > (#[trigger] g[b]).ts
        &&& forall|k: int| 0 <= k < n ==> (#[trigger] g[k]).ts > self.floor
        &&& forall|k: int|
            n <= k < g.len() ==> (#[trigger] g[k]).ts <= self.floor || (self.exdates@.contains(
                g[k].ts,
            ) && (self.dt_start.tz.is_fixed() ==> excluded(
                self.explicit@,
                self.exrules@,
                self.dt_start,
                g[k].ts,
            )))
    }

    /// How far the pulls on the generator of rule `i` have come. Where
    /// its slot is empty and it still runs, everything it was pulled for is
    /// handed out by the merge. Where an instant waits in the slot, or the
    /// generator has ended, the last pull gave that instant, or nothing;
    /// and of the pulls before it only the last ones, fewer than the guard
    /// allows, may lie ahead of the merge.
    pub open spec fn trail_ok(&self, i: int) -> bool {
        let it = self.rrule_iters@[i];
        let c = it.config();
        let s0 = rule_start(it.rule@, self.dt_start);
        let k = self.pulls@[i];
        &&& (self.queue@[i] is None && it.end == End::Running ==> forall|j: nat|
            j < k ==> (#[trigger] pull(c, s0, j) matches Some(x) && x <= self.floor))
        &&& (self.queue@[i] is Some || it.end != End::Running ==> k > 0 && forall|j: nat|
            j + guard(self.limit) < k ==> (#[trigger] pull(c, s0, j) matches Some(x) && x
                <= self.floor))
        &&& (self.queue@[i] matches Some(q) ==> k > 0 && pull(c, s0, (k - 1) as nat) == Some(
            q.ts as int,
        ))
        &&& (it.end != End::Running ==> k > 0 && pull(c, s0, (k - 1) as nat) is None)
    }

    /// How far the explicit instants have come. Those that no longer wait
    /// are all handed out by the merge, unless the one that waits at the end
    /// is known not to be excluded or none waits any more; then those that
    /// were dropped as excluded, fewer than the guard allows, may lie ahead
    /// of the merge.
    pub open spec fn dates_trail_ok(&self) -> bool {
        let g = self.given@;
        let n = self.rdates@.len() as int;
        ||| forall|k: int| n <= k < g.len() ==> (#[trigger] g[k]).ts <= self.floor
        ||| (n > 0 && !shut_out(
            self.explicit@,
            views(self.exrules@),
            self.dt_start,
            g[n - 1].ts as int,
        ) && forall|k: int| n - 1 + guard(self.limit) <= k < g.len() ==> (#[trigger] g[k]).ts
            <= self.floor)
        ||| (n == 0 && forall|k: int|
            guard(self.limit) <= k < g.len() ==> (#[trigger] g[k]).ts <= self.floor)
    }

    /// What holds of the pulls made so far, over a fixed zone and as long
    /// as no error is kept.
    pub open spec fn trails_ok(&self) -> bool {
        self.dt_start.tz.is_fixed() && self.error is None ==> self.dates_trail_ok() && forall|
            i: int,
        | 0 <= i < self.rrule_iters@.len() ==> #[trigger] self.trail_ok(i)
    }

    /// The rules of the merge by their content, in their order.
    pub open spec fn rules(&self) -> Seq<RuleSpec> {
        Seq::new(self.rrule_iters@.len(), |i: int| self.rrule_iters@[i].rule@)
    }

    /// The merge gives up at its next step once it has handed out
    /// everything up to `f`.
    pub open spec fn gives_up_behind(&self, f: int) -> bool {
        gives_up_at(
            self.rules(),
            self.given@,
            self.explicit@,
            views(self.exrules@),
            self.dt_start,
            guard(self.limit),
            f,
        )
    }

    /// The generator of rule `i` is to be pulled and, from where it
    /// stands, gives up.
    pub open spec fn source_fails(&self, i: int) -> bool {
        self.queue@[i] is None && run_excluded(
            self.rrule_iters@[i].config(),
            self.rrule_iters@[i].state(),
            guard(self.limit),
            self.explicit@,
            views(self.exrules@),
            self.dt_start,
        )
    }

    /// The explicit instants that wait give up.
    pub open spec fn dates_fail(&self) -> bool {
        tail_excluded(
            self.rdates@,
            self.rdates@.len() as int,
            guard(self.limit),
            self.explicit@,
            views(self.exrules@),
            self.dt_start,
        )
    }

    /// What holds of a merge between two calls.
    pub open spec fn wf(&self) -> bool {
        &&& self.base_ok()
        &&& forall|i: int| 0 <= i < self.rrule_iters@.len() ==> #[trigger] self.slot_ok(i)
        &&& self.dates_ok()
        &&& self.trails_ok()
    }

    /// Every empty slot belongs to a generator that has ended.
    pub open spec fn filled(&self) -> bool {
        forall|i: int|
            0 <= i < self.rrule_iters@.len() ==> ((#[trigger] self.queue@[i]) is None
                ==> self.rrule_iters@[i].end != End::Running)
    }

    /// The trails hold once the slot of rule `i` was refilled.
    pub proof fn lemma_trail_refilled(
        &self,
        was: &RRuleSetIter<'a>,
        i: int,
        m: nat,
        r: Result<Option<Instant>, RRuleError>,
    )
        requires
            was.wf(),
            was.error is None,
            self.error is None,
            self.dt_start.tz.is_fixed(),
            0 <= i < was.rrule_iters@.len(),
            was.queue@[i] is None,
            self.same_setup(was),
            self.floor == was.floor,
            self.rdates@ == was.rdates@,
            self.queue@.len() == was.queue@.len(),
            self.pulls@.len() == was.pulls@.len(),
            forall|k: int|
                0 <= k < self.queue@.len() && k != i ==> #[trigger] self.queue@[k] == was.queue@[k]
                    && self.rrule_iters@[k] == was.rrule_iters@[k] && self.pulls@[k]
                    == was.pulls@[k],
            self.rrule_iters@[i].config() == was.rrule_iters@[i].config(),
            pull_outcome(
                was.rrule_iters@[i].config(),
                was.rrule_iters@[i].state(),
                m,
                self.rrule_iters@[i].state(),
                self.exdates@,
                self.exrules@,
                self.dt_start,
                self.limit,
                r,
            ),
            r matches Ok(d) && self.queue@[i] == d,
            self.queue@[i] is Some ==> self.rrule_iters@[i].end == End::Running,
            self.queue@[i] is None ==> self.rrule_iters@[i].end != End::Running,
            self.pulls@[i] == (if was.rrule_iters@[i].end == End::Running {
                was.pulls@[i] + m + 1
            } else {
                was.pulls@[i]
            }),
        ensures
            self.trails_ok(),
    {
        reveal(pull_outcome);
        assert(self.dates_trail_ok());
        assert forall|k: int| 0 <= k < self.rrule_iters@.len() implies #[trigger] self.trail_ok(
            k,
        ) by {
            assert(was.trail_ok(k));
            if k == i {
                let it0 = was.rrule_iters@[i];
                let c = it0.config();
                let s0 = rule_start(it0.rule@, self.dt_start);
                let k0 = was.pulls@[i];
                assert(was.slot_ok(i));
                if it0.end == End::Running {
                    lemma_after_add(c, s0, k0, m);
                    assert forall|j: nat| j + guard(self.limit) < k0 + m + 1 implies (
                    #[trigger] pull(c, s0, j) matches Some(x) && x <= self.floor) by {}
                } else {
                    lemma_pull_above(c, s0, k0);
                    lemma_after_add(c, s0, k0, 0);
                }
            }
        }
    }

    /// The trails hold once the explicit instants were refilled.
    pub proof fn lemma_trail_dates_refilled(
        &self,
        was: &RRuleSetIter<'a>,
        rest: Seq<Instant>,
        r: Result<Option<Instant>, RRuleError>,
    )
        requires
            was.wf(),
            was.error is None,
            self.error is None,
            self.dt_start.tz.is_fixed(),
            self.same_setup(was),
            self.floor == was.floor,
            self.queue@ == was.queue@,
            self.rrule_iters@ == was.rrule_iters@,
            self.pulls@ == was.pulls@,
            cache_kept(self.explicit@, self.exdates@, self.exrules@, self.dt_start),
            date_outcome(
                was.rdates@,
                rest,
                self.exdates@,
                self.exrules@,
                self.dt_start,
                self.limit,
                r,
            ),
            self.rdates@ == (match r {
                Ok(Some(d)) => rest.push(d),
                _ => rest,
            }),
            r is Ok,
        ensures
            self.trails_ok(),
    {
        let g = self.given@;
        let n0 = was.rdates@.len() as int;
        let m = n0 - rest.len();
        let sp = views(self.exrules@);
        assert forall|k: int| n0 - m <= k < n0 implies (#[trigger] g[k]) == was.rdates@[k] by {}
        assert forall|k: int| n0 - m < k < n0 implies shut_out(
            self.explicit@,
            sp,
            self.dt_start,
            (#[trigger] g[k]).ts as int,
        ) by {
            lemma_shut_out(self.explicit@, self.exrules@, self.dt_start, g[k].ts);
        }
        let lim = guard(self.limit);
        let f = self.floor;
        match r {
            Ok(Some(d)) => {
                let n1 = n0 - m + 1;
                lemma_shut_out(self.explicit@, self.exrules@, self.dt_start, d.ts);
                assert forall|k: int| n1 - 1 + lim <= k < g.len() implies (#[trigger] g[k]).ts
                    <= f by {}
            },
            Ok(None) => {
                if n0 > 0 {
                    lemma_shut_out(self.explicit@, self.exrules@, self.dt_start, g[0].ts);
                }
                assert forall|k: int| lim <= k < g.len() implies (#[trigger] g[k]).ts <= f by {}
            },
            Err(_) => {},
        }
        assert forall|k: int| 0 <= k < self.rrule_iters@.len() implies #[trigger] self.trail_ok(
            k,
        ) by {
            assert(was.trail_ok(k));
        }
    }

    /// The trails hold once the earliest instant that waits was taken.
    pub proof fn lemma_trail_taken(&self, was: &RRuleSetIter<'a>, b: Instant)
        requires
            was.wf(),
            was.filled(),
            was.is_lowest(b),
            was.error is None,
            self.error is None,
            self.dt_start.tz.is_fixed(),
            self.same_setup(was),
            self.floor == b.ts,
            b.ts > was.floor,
            self.rrule_iters@ == was.rrule_iters@,
            self.pulls@ == was.pulls@,
            self.queue@.len() == was.queue@.len(),
            forall|k: int|
                0 <= k < self.queue@.len() ==> #[trigger] self.queue@[k] == cleared(
                    was.queue@[k],
                    b.ts,
                ),
            self.rdates@ == (if was.rdates@.len() > 0 && was.rdates@.last().ts == b.ts {
                was.rdates@.drop_last()
            } else {
                was.rdates@
            }),
        ensures
            self.trails_ok(),
    {
        let g = self.given@;
        let n0 = was.rdates@.len() as int;
        if n0 > 0 && was.rdates@.last().ts == b.ts {
            assert forall|k: int| n0 - 1 <= k < g.len() implies (#[trigger] g[k]).ts
                <= self.floor by {}
        }
        assert forall|k: int| 0 <= k < self.rrule_iters@.len() implies #[trigger] self.trail_ok(
            k,
        ) by {
            assert(was.trail_ok(k));
            let it = was.rrule_iters@[k];
            let c = it.config();
            let s0 = rule_start(it.rule@, self.dt_start);
            let n = was.pulls@[k];
            match was.queue@[k] {
                Some(q) => {
                    if q.ts == b.ts {
                        assert forall|j: nat| j < n implies (#[trigger] pull(c, s0, j) matches Some(
                            x,
                        ) && x <= self.floor) by {
                            lemma_earlier_pulls(c, s0, j, (n - 1) as nat);
                        }
                    }
                },
                None => {},
            }
        }
    }

    /// Between two calls, rule `i` gives up behind the floor exactly when
    /// its slot is empty and its generator, from where it stands, gives up.
    pub proof fn lemma_source_here(&self, i: int)
        requires
            self.wf(),
            self.dt_start.tz.is_fixed(),
            self.error is None,
            0 <= i < self.rrule_iters@.len(),
        ensures
            rule_gives_up(
                self.rules()[i],
                self.dt_start,
                self.floor as int,
                guard(self.limit),
                self.explicit@,
                views(self.exrules@),
            ) == self.source_fails(i),
    {
        let it = self.rrule_iters@[i];
        let c = it.config();
        let s0 = rule_start(it.rule@, self.dt_start);
        let k = self.pulls@[i];
        let g = guard(self.limit);
        let f = self.floor as int;
        let sp = views(self.exrules@);
        assert(self.slot_ok(i));
        assert(self.trail_ok(i));
        lemma_after_add(c, s0, k, 0);
        lemma_pull_above(c, s0, k);
        if self.source_fails(i) {
            assert(stands_at(c, s0, k, f));
        }
        if rule_gives_up(self.rules()[i], self.dt_start, f, g, self.explicit@, sp) {
            let w = choose|w: nat| #[trigger]
                stands_at(c, s0, w, f) && run_excluded(
                    c,
                    after(c, s0, w),
                    g,
                    self.explicit@,
                    sp,
                    self.dt_start,
                );
            lemma_after_add(c, s0, w, 0);
            lemma_after_add(c, s0, w, (g - 1) as nat);
            match self.queue@[i] {
                Some(q) => {
                    lemma_shut_out(self.explicit@, self.exrules@, self.dt_start, q.ts);
                    if k - 1 >= w && k - 1 < w + g {
                        lemma_after_add(c, s0, w, (k - 1 - w) as nat);
                    }
                },
                None => {
                    if it.end != End::Running {
                        if k - 1 <= w + g - 1 {
                            lemma_end_is_final(c, s0, (k - 1) as nat, (w + g - 1) as nat);
                        }
                    }
                },
            }
        }
    }

    /// Between two calls, the explicit instants give up behind the floor
    /// exactly when those that wait give up.
    pub proof fn lemma_dates_here(&self)
        requires
            self.wf(),
            self.dt_start.tz.is_fixed(),
            self.error is None,
        ensures
            dates_give_up(
                self.given@,
                self.floor as int,
                guard(self.limit),
                self.explicit@,
                views(self.exrules@),
                self.dt_start,
            ) == self.dates_fail(),
    {
        let gv = self.given@;
        let n = self.rdates@.len() as int;
        let g = guard(self.limit);
        let f = self.floor as int;
        let sp = views(self.exrules@);
        assert forall|k: int| 0 <= k < n implies (#[trigger] self.rdates@[k]) == gv[k] by {}
        if self.dates_fail() {
            assert(shut_out(self.explicit@, sp, self.dt_start, self.rdates@[n - 1].ts as int));
            assert(dates_stand_at(gv, n, f));
            assert(tail_excluded(gv, n, g, self.explicit@, sp, self.dt_start)) by {
                assert forall|k: int| n - g <= k < n implies shut_out(
                    self.explicit@,
                    sp,
                    self.dt_start,
                    (#[trigger] gv[k]).ts as int,
                ) by {
                    assert(self.rdates@[k] == gv[k]);
                }
            }
        }
        if dates_give_up(gv, f, g, self.explicit@, sp, self.dt_start) {
            let w = choose|w: int| #[trigger]
                dates_stand_at(gv, w, f) && tail_excluded(gv, w, g, self.explicit@, sp, self.dt_start);
            if n < w {
                if n > 0 {
                    assert(gv[w - 1 + 0].ts > f);
                }
            }
            assert forall|k: int| n - g <= k < n implies shut_out(
                self.explicit@,
                sp,
                self.dt_start,
                (#[trigger] self.rdates@[k]).ts as int,
            ) by {}
        }
    }

    /// Between two calls, the merge gives up behind the floor exactly when
    /// a generator that is to be pulled gives up, or the explicit instants
    /// that wait do.
    pub proof fn lemma_gives_up_here(&self)
        requires
            self.wf(),
            self.dt_start.tz.is_fixed(),
            self.error is None,
        ensures
            self.gives_up_behind(self.floor as int) == ((exists|i: int|
                0 <= i < self.rrule_iters@.len() && #[trigger] self.source_fails(i))
                || self.dates_fail()),
    {
        self.lemma_dates_here();
        assert forall|i: int| 0 <= i < self.rrule_iters@.len() implies rule_gives_up(
            #[trigger] self.rules()[i],
            self.dt_start,
            self.floor as int,
            guard(self.limit),
            self.explicit@,
            views(self.exrules@),
        ) == self.source_fails(i) by {
            self.lemma_source_here(i);
        }
        if exists|i: int| 0 <= i < self.rrule_iters@.len() && #[trigger] self.source_fails(i) {
            let i = choose|i: int|
                0 <= i < self.rrule_iters@.len() && #[trigger] self.source_fails(i);
            assert(rule_gives_up(
                self.rules()[i],
                self.dt_start,
                self.floor as int,
                guard(self.limit),
                self.explicit@,
                views(self.exrules@),
            ));
        }
    }

    /// Whether the iteration was ended by an error.
    pub fn has_err(&self) -> (r: bool)
        ensures
            r == self.error is Some,
    {
        self.error.is_some()
    }

    /// The error that ended the iteration, if one did.
    pub fn get_err(&self) -> (r: Option<RRuleError>)
        ensures
            r == self.error,
    {
        self.error
    }

    /// Fills the empty slot of rule `i` from its generator.
    #[verifier::rlimit(60)]
    pub fn refill_slot(&mut self, i: usize) -> (ok: bool)
        requires
            old(self).wf(),
            old(self).error is None,
            i < old(self).rrule_iters@.len(),
            old(self).queue@[i as int] is None,
        ensures
            final(self).wf(),
            final(self).same_setup(old(self)),
            final(self).floor == old(self).floor,
            final(self).rdates@ == old(self).rdates@,
            ok == final(self).error is None,
            !ok ==> final(self).error == Some(RRuleError::IterError(old(self).limit))
                && some_excluded(final(self).exdates@),
            forall|k: int|
                0 <= k < final(self).queue@.len() && k != i ==> #[trigger] final(self).queue@[k]
                    == old(self).queue@[k] && final(self).rrule_iters@[k] == old(
                    self,
                ).rrule_iters@[k],
            ok ==> (final(self).queue@[i as int] is None ==> final(self).rrule_iters@[i as int].end
                != End::Running),
            final(self).rooms_kept(old(self)),
            old(self).dt_start.tz.is_fixed() ==> (!ok <==> old(self).source_fails(i as int)),
    {
        let start: Instant = self.dt_start;
        let limit: u32 = self.limit;
        let exrules: &'a Vec<RRule> = self.exrules;
        let ghost was = *self;
        assert(was.slot_ok(i as int));
        let r = Self::generate_within(
            &mut self.rrule_iters[i],
            exrules.as_slice(),
            &mut self.exdates,
            &start,
            limit,
        );
        let ghost it0 = was.rrule_iters@[i as int];
        let ghost it1 = self.rrule_iters@[i as int];
        let ghost mut m: nat = 0;
        proof {
            lemma_cache_kept_twice(
                self.explicit@,
                was.exdates@,
                self.exdates@,
                self.exrules@,
                self.dt_start,
            );
            if start.tz.is_fixed() {
                m =
                choose|m: nat|
                    pull_outcome(
                        it0.config(),
                        it0.state(),
                        m,
                        it1.state(),
                        self.exdates@,
                        exrules@,
                        start,
                        limit,
                        r,
                    );
                lemma_refill_step(
                    it0.rule@,
                    start,
                    was.pulls@[i as int],
                    it0.state(),
                    m,
                    it1.state(),
                    self.floor as int,
                    self.explicit@,
                    self.exdates@,
                    exrules@,
                    limit,
                    r,
                );
            }
        }
        proof {
            if start.tz.is_fixed() {
                lemma_generate_gives_up(
                    it0.config(),
                    it0.state(),
                    m,
                    it1.state(),
                    self.exdates@,
                    self.explicit@,
                    exrules@,
                    start,
                    limit,
                    r,
                );
            }
            if start.tz.is_fixed() && it0.end != End::Running {
                lemma_after_grows(
                    it0.config(),
                    rule_start(it0.rule@, start),
                    was.pulls@[i as int],
                    was.pulls@[i as int] + m + 1,
                );
            }
        }
        self.pulls = Ghost(
            self.pulls@.update(
                i as int,
                if it0.end == End::Running {
                    was.pulls@[i as int] + m + 1
                } else {
                    was.pulls@[i as int]
                },
            ),
        );
        let ok: bool = match r {
            Ok(d) => {
                self.queue[i] = d;
                true
            },
            Err(e) => {
                self.error = Some(e);
                false
            },
        };
        proof {
            assert forall|k: int| 0 <= k < self.rrule_iters@.len() implies #[trigger] self.slot_ok(
                k,
            ) by {
                if k != i {
                    assert(was.slot_ok(k));
                }
            }
            if start.tz.is_fixed() && ok {
                self.lemma_trail_refilled(&was, i as int, m, r);
            }
        }
        ok
    }

    /// Fills every empty slot from its generator.
    pub fn refill(&mut self) -> (ok: bool)
        requires
            old(self).wf(),
            old(self).error is None,
        ensures
            final(self).wf(),
            final(self).same_setup(old(self)),
            final(self).floor == old(self).floor,
            final(self).rdates@ == old(self).rdates@,
            ok == final(self).error is None,
            !ok ==> final(self).error == Some(RRuleError::IterError(old(self).limit))
                && some_excluded(final(self).exdates@),
            ok ==> final(self).filled(),
            final(self).rooms_kept(old(self)),
            old(self).dt_start.tz.is_fixed() ==> (!ok <==> exists|i: int|
                0 <= i < old(self).rrule_iters@.len() && #[trigger] old(self).source_fails(i)),
    {
        let n: usize = self.rrule_iters.len();
        let mut i: usize = 0;
        while i < n
            invariant
                self.wf(),
                self.dt_start.tz.is_fixed() ==> forall|k: int|
                    0 <= k < i ==> !#[trigger] old(self).source_fails(k),
                forall|k: int|
                    i <= k < n ==> (#[trigger] self.queue@[k]) == old(self).queue@[k]
                        && self.rrule_iters@[k] == old(self).rrule_iters@[k],
                n == old(self).rrule_iters@.len(),
                self.same_setup(old(self)),
                self.rooms_kept(old(self)),
                self.floor == old(self).floor,
                self.rdates@ == old(self).rdates@,
                self.error is None,
                i <= n,
                n == self.rrule_iters@.len(),
                n == self.queue@.len(),
                forall|k: int|
                    0 <= k < i ==> ((#[trigger] self.queue@[k]) is None
                        ==> self.rrule_iters@[k].end != End::Running),
            decreases n - i,
        {
            let ghost here = *self;
            assert(here.source_fails(i as int) == old(self).source_fails(i as int));
            if self.queue[i].is_none() {
                let ok = self.refill_slot(i);
                proof {
                    assert forall|k: int|
                        0 <= k < n && (#[trigger] old(self).rrule_iters@[k]).left is Some implies self.rrule_iters@[k].left is Some
                        && self.room(k) <= old(self).room(k) by {
                        assert(here.rrule_iters@[k].left is Some);
                    }
                }
                if !ok {
                    return false;
                }
            }
            assert forall|k: int| i + 1 <= k < n implies (#[trigger] self.queue@[k]) == old(
                self,
            ).queue@[k] && self.rrule_iters@[k] == old(self).rrule_iters@[k] by {}
            i = i + 1;
        }
        true
    }
}

/// How a pull on a merge ends.
#[derive(Clone, Copy, Debug, PartialEq)]
pub enum Step {
    /// With the next instant of the set.
    Next(Instant),
    /// At the end of the set: there is no further instant.
    Exhausted,
    /// On an error, which is kept: every later pull fails with it too.
    Failed(RRuleError),
}

impl Step {
    /// The instant that the pull handed out, if it handed one out.
    pub open spec fn instant(self) -> Option<Instant> {
        match self {
            Step::Next(d) => Some(d),
            _ => None,
        }
    }
}

/// The slot that is left of `slot` once the instant at second `ts` was
/// handed out: empty if it held that second, as it was otherwise.
pub open spec fn cleared(slot: Option<Instant>, ts: i64) -> Option<Instant> {
    match slot {
        Some(q) => if q.ts == ts {
            None
        } else {
            slot
        },
        None => None,
    }
}

impl<'a> RRuleSetIter<'a> {
    /// The explicit instant that waits at the end, if any, is known not to
    /// be excluded.
    pub open spec fn dates_filled(&self) -> bool {
        self.rdates@.len() > 0 ==> self.not_excluded(self.rdates@.last().ts)
    }

    /// The instant `b` is the earliest of those that wait in the slots and
    /// at the end of the explicit instants, and it is one of them.
    pub open spec fn is_lowest(&self, b: Instant) -> bool {
        &&& forall|i: int|
            0 <= i < self.queue@.len() ==> ((#[trigger] self.queue@[i]) matches Some(q) ==> b.ts
                <= q.ts)
        &&& (self.rdates@.len() > 0 ==> b.ts <= self.rdates@.last().ts)
        &&& (self.rdates@.len() > 0 && self.rdates@.last().ts == b.ts ==> b
            == self.rdates@.last())
        &&& ((self.rdates@.len() > 0 && b == self.rdates@.last()) || exists|i: int|
            0 <= i < self.queue@.len() && #[trigger] self.queue@[i] == Some(b))
    }

    /// Nothing waits: every slot is empty and no explicit instant is left.
    pub open spec fn nothing_waits(&self) -> bool {
        &&& forall|i: int| 0 <= i < self.queue@.len() ==> (#[trigger] self.queue@[i]) is None
        &&& self.rdates@.len() == 0
    }

    /// Drops the explicit instants that are excluded from the end of those
    /// that wait, so that the one at the end, if any, is not excluded.
    #[verifier::rlimit(60)]
    pub fn refill_dates(&mut self) -> (ok: bool)
        requires
            old(self).wf(),
            old(self).error is None,
        ensures
            final(self).wf(),
            final(self).same_setup(old(self)),
            final(self).floor == old(self).floor,
            final(self).queue@ == old(self).queue@,
            final(self).rrule_iters@ == old(self).rrule_iters@,
            ok == final(self).error is None,
            !ok ==> final(self).error == Some(RRuleError::IterError(old(self).limit))
                && some_excluded(final(self).exdates@),
            ok ==> final(self).dates_filled(),
            old(self).dt_start.tz.is_fixed() ==> (!ok <==> old(self).dates_fail()),
    {
        let start: Instant = self.dt_start;
        let limit: u32 = self.limit;
        let exrules: &'a Vec<RRule> = self.exrules;
        let ghost was = *self;
        let ghost g = self.given@;
        let ghost n0 = self.rdates@.len() as int;
        assert(all_wf(self.rdates@)) by {
            assert forall|i: int| 0 <= i < self.rdates@.len() implies (
            #[trigger] self.rdates@[i]).wf() by {}
        }
        let r = Self::generate_date_within(
            &mut self.rdates,
            exrules.as_slice(),
            &mut self.exdates,
            &start,
            limit,
        );
        proof {
            lemma_cache_kept_twice(
                self.explicit@,
                was.exdates@,
                self.exdates@,
                self.exrules@,
                self.dt_start,
            );
        }
        let ghost rest = self.rdates@;
        let ok: bool = match r {
            Ok(Some(d)) => {
                self.rdates.push(d);
                true
            },
            Ok(None) => true,
            Err(e) => {
                self.error = Some(e);
                false
            },
        };
        proof {
            let m = n0 - rest.len();
            assert forall|k: int| n0 - m <= k < n0 implies (#[trigger] g[k]).ts == was.rdates@[k].ts by {}
            let n1 = self.rdates@.len() as int;
            assert(self.rdates@ == g.subrange(0, n1)) by {
                assert forall|k: int| 0 <= k < n1 implies self.rdates@[k] == g[k] by {}
            }
            assert forall|k: int| n1 <= k < g.len() implies (#[trigger] g[k]).ts <= self.floor || (
            self.exdates@.contains(g[k].ts) && (self.dt_start.tz.is_fixed() ==> excluded(
                self.explicit@,
                self.exrules@,
                self.dt_start,
                g[k].ts,
            ))) by {}
            assert forall|k: int| 0 <= k < self.rrule_iters@.len() implies #[trigger] self.slot_ok(
                k,
            ) by {
                assert(was.slot_ok(k));
            }
            if start.tz.is_fixed() {
                lemma_dates_give_up(
                    was.rdates@,
                    rest,
                    self.exdates@,
                    self.explicit@,
                    exrules@,
                    start,
                    limit,
                    r,
                );
            }
            if start.tz.is_fixed() && ok {
                self.lemma_trail_dates_refilled(&was, rest, r);
            }
        }
        ok
    }

    /// Finds the earliest of the instants that wait.
    pub fn lowest(&self) -> (r: Option<Instant>)
        requires
            self.queue@.len() == self.rrule_iters@.len(),
        ensures
            r matches Some(b) ==> self.is_lowest(b),
            r is None ==> self.nothing_waits(),
    {
        let mut best: Option<Instant> = if self.rdates.len() > 0 {
            Some(self.rdates[self.rdates.len() - 1])
        } else {
            None
        };
        let mut i: usize = 0;
        while i < self.queue.len()
            invariant
                i <= self.queue@.len(),
                best is None ==> self.rdates@.len() == 0 && forall|k: int|
                    0 <= k < i ==> (#[trigger] self.queue@[k]) is None,
                best matches Some(b) ==> {
                    &&& forall|k: int|
                        0 <= k < i ==> ((#[trigger] self.queue@[k]) matches Some(q) ==> b.ts
                            <= q.ts)
                    &&& (self.rdates@.len() > 0 ==> b.ts <= self.rdates@.last().ts)
                    &&& (self.rdates@.len() > 0 && self.rdates@.last().ts == b.ts ==> b
                        == self.rdates@.last())
                    &&& ((self.rdates@.len() > 0 && b == self.rdates@.last()) || exists|k: int|
                        0 <= k < i && #[trigger] self.queue@[k] == Some(b))
                },
            decreases self.queue@.len() - i,
        {
            match self.queue[i] {
                Some(q) => {
                    let better: bool = match best {
                        Some(b) => q.ts < b.ts,
                        None => true,
                    };
                    if better {
                        best = Some(q);
                    }
                },
                None => {},
            }
            i = i + 1;
        }
        best
    }

    /// Takes the instant `b`, the earliest that waits, out of every slot
    /// that holds its second and off the end of the explicit instants.
    #[verifier::rlimit(60)]
    pub fn take(&mut self, b: Instant)
        requires
            old(self).wf(),
            old(self).filled(),
            old(self).is_lowest(b),
        ensures
            final(self).wf(),
            final(self).same_setup(old(self)),
            final(self).floor == b.ts,
            final(self).error == old(self).error,
            final(self).exdates@ == old(self).exdates@,
            final(self).rrule_iters@ == old(self).rrule_iters@,
            final(self).rooms_kept(old(self)),
            final(self).drawn(old(self), b.ts),
    {
        let ghost was = *self;
        let n: usize = self.queue.len();
        let mut slots: Vec<Option<Instant>> = Vec::new();
        let mut i: usize = 0;
        while i < n
            invariant
                *self == was,
                n == self.queue@.len(),
                i <= n,
                slots@.len() == i,
                forall|k: int| 0 <= k < i ==> #[trigger] slots@[k] == cleared(self.queue@[k], b.ts),
            decreases n - i,
        {
            let slot: Option<Instant> = match self.queue[i] {
                Some(q) => if q.ts == b.ts {
                    None
                } else {
                    Some(q)
                },
                None => None,
            };
            slots.push(slot);
            i = i + 1;
        }
        let last: usize = self.rdates.len();
        let tie: bool = last > 0 && self.rdates[last - 1].ts == b.ts;
        proof {
            assert(b.wf() && b.ts > was.floor) by {
                if !(was.rdates@.len() > 0 && b == was.rdates@.last()) {
                    let w = choose|w: int| 0 <= w < was.queue@.len() && #[trigger] was.queue@[w] == Some(b);
                    assert(was.slot_ok(w));
                }
            }
        }
        if tie {
            self.rdates.pop();
        }
        self.queue = slots;
        self.floor = b.ts;
        proof {
            let g = self.given@;
            let n1 = self.rdates@.len() as int;
            assert(self.rdates@ == g.subrange(0, n1));
            assert forall|k: int| 0 <= k < n1 implies (#[trigger] g[k]).ts > self.floor by {}
            assert forall|k: int| n1 <= k < g.len() implies (#[trigger] g[k]).ts <= self.floor || (
            self.exdates@.contains(g[k].ts) && (self.dt_start.tz.is_fixed() ==> excluded(
                self.explicit@,
                self.exrules@,
                self.dt_start,
                g[k].ts,
            ))) by {}
            assert forall|k: int| 0 <= k < self.rrule_iters@.len() implies #[trigger] self.slot_ok(
                k,
            ) by {
                assert(was.slot_ok(k));
            }
            if self.dt_start.tz.is_fixed() && self.error is None {
                self.lemma_trail_taken(&was, b);
            }
            if was.rdates@.len() > 0 && b == was.rdates@.last() {
                assert(g[was.rdates@.len() - 1].ts == b.ts);
            } else {
                let w = choose|w: int| 0 <= w < was.queue@.len() && #[trigger] was.queue@[w] == Some(b);
                assert(was.rrule_iters@[w].left is Some ==> self.room(w) < was.room(w));
            }
        }
    }
}

impl<'a> RRuleSetIter<'a> {
    /// Whether an instant belongs to the set depends only on what never
    /// changes during an iteration.
    pub proof fn lemma_same_setup_occurs(&self, other: &RRuleSetIter<'a>, x: i64)
        requires
            self.same_setup(other),
        ensures
            self.occurs(x) == other.occurs(x),
            self.not_excluded(x) == other.not_excluded(x),
    {
        if self.is_included(x) {
            if exists|i: int| 0 <= i < self.rrule_iters@.len() && #[trigger] self.rule_source(i, x) {
                let i = choose|i: int|
                    0 <= i < self.rrule_iters@.len() && #[trigger] self.rule_source(i, x);
                assert(other.rule_source(i, x));
            }
        }
        if other.is_included(x) {
            if exists|i: int|
                0 <= i < other.rrule_iters@.len() && #[trigger] other.rule_source(i, x) {
                let i = choose|i: int|
                    0 <= i < other.rrule_iters@.len() && #[trigger] other.rule_source(i, x);
                assert(self.rule_source(i, x));
            }
        }
    }

    /// What never changes stays the same over two steps.
    pub proof fn lemma_same_setup_trans(&self, mid: &RRuleSetIter<'a>, first: &RRuleSetIter<'a>)
        requires
            self.same_setup(mid),
            mid.same_setup(first),
        ensures
            self.same_setup(first),
    {
        assert forall|i: int| 0 <= i < self.rrule_iters@.len() implies (
        #[trigger] self.rrule_iters@[i]).rule == first.rrule_iters@[i].rule by {}
    }

    /// Over a fixed zone, once every source was asked, no instant of the
    /// set lies between the floor and the earliest instant that waits.
    pub proof fn lemma_nothing_before(&self, x: i64, bound: int)
        requires
            self.wf(),
            self.filled(),
            self.dates_filled(),
            self.dt_start.tz.is_fixed(),
            self.floor < x < bound,
            forall|i: int|
                0 <= i < self.queue@.len() ==> ((#[trigger] self.queue@[i]) matches Some(q)
                    ==> bound <= q.ts),
            self.rdates@.len() > 0 ==> bound <= self.rdates@.last().ts,
        ensures
            !self.occurs(x),
    {
        if self.occurs(x) {
            if exists|i: int| 0 <= i < self.rrule_iters@.len() && #[trigger] self.rule_source(i, x) {
                let i = choose|i: int|
                    0 <= i < self.rrule_iters@.len() && #[trigger] self.rule_source(i, x);
                let it = self.rrule_iters@[i];
                assert(self.slot_ok(i));
                if x > it.floor {
                    let c = it.config();
                    let s0 = rule_start(it.rule@, self.dt_start);
                    lemma_emits_beyond(c, s0, self.pulls@[i], x as int);
                    lemma_ended_emits_nothing(c, after(c, s0, self.pulls@[i]), x as int);
                }
            }
        }
    }

    /// The earliest instant that waits belongs to the set.
    pub proof fn lemma_lowest_occurs(&self, b: Instant)
        requires
            self.wf(),
            self.dates_filled(),
            self.dt_start.tz.is_fixed(),
            self.is_lowest(b),
        ensures
            self.occurs(b.ts),
            self.not_excluded(b.ts),
            b.wf(),
            b.ts > self.floor,
    {
        let n = self.rdates@.len() as int;
        if !(n > 0 && b == self.rdates@.last()) {
            let i = choose|i: int| 0 <= i < self.queue@.len() && #[trigger] self.queue@[i] == Some(b);
            assert(self.slot_ok(i));
        }
    }

    /// The earliest instant that waits is shown as the merge has it: an
    /// explicit instant as it was given, any other in the zone of the
    /// anchor.
    pub proof fn lemma_lowest_shown(&self, b: Instant)
        requires
            self.wf(),
            self.dates_filled(),
            self.is_lowest(b),
        ensures
            (exists|k: int| 0 <= k < self.given@.len() && #[trigger] self.given@[k] == b) || b.tz
                == self.dt_start.tz,
            self.dt_start.tz.is_fixed() ==> forall|k: int|
                0 <= k < self.given@.len() && (#[trigger] self.given@[k]).ts == b.ts
                    ==> self.given@[k] == b,
    {
        let n = self.rdates@.len() as int;
        let g = self.given@;
        if n > 0 && b == self.rdates@.last() {
            assert forall|k: int| 0 <= k < g.len() && (#[trigger] g[k]).ts == b.ts implies g[k]
                == b by {}
        } else {
            let i = choose|i: int| 0 <= i < self.queue@.len() && #[trigger] self.queue@[i] == Some(b);
            assert(self.slot_ok(i));
            if self.dt_start.tz.is_fixed() {
                assert forall|k: int| 0 <= k < g.len() && (#[trigger] g[k]).ts == b.ts implies g[k]
                    == b by {}
            }
        }
    }

    /// The earliest instant that waits is not excluded, whatever the zone.
    pub proof fn lemma_lowest_clear(&self, b: Instant)
        requires
            self.wf(),
            self.dates_filled(),
            self.is_lowest(b),
        ensures
            self.not_excluded(b.ts),
            b.wf(),
            b.ts > self.floor,
    {
        let n = self.rdates@.len() as int;
        if !(n > 0 && b == self.rdates@.last()) {
            let i = choose|i: int| 0 <= i < self.queue@.len() && #[trigger] self.queue@[i] == Some(b);
            assert(self.slot_ok(i));
        }
    }

    /// What one call of `next` does to a merge and hands out. The instant
    /// handed out is later than the one before it, becomes the new floor,
    /// and is not excluded. It is an explicit instant as it was given, or
    /// is shown in the zone of the anchor. An error that was kept before
    /// stays, and nothing is handed out.
    ///
    /// No explicit instant is passed over unless it is among the excluded
    /// seconds, which are the explicit ones where the set has no exclusion
    /// rule. An instant that is not at the second of an explicit one uses up
    /// one of the count of a rule, if the rule has a count, and no rule with
    /// a count gains room.
    ///
    /// Over a fixed zone the step is determined. An error is kept
    /// afterwards exactly when one was kept before or a source gives up
    /// behind the floor. Else the instant handed out is the earliest of the
    /// set later than the floor, the explicit instant at that second if
    /// there is one; and nothing is handed out only when the set has no
    /// instant later than the floor.
    pub open spec fn stepped(
        pre: &RRuleSetIter<'a>,
        post: &RRuleSetIter<'a>,
        r: Option<Instant>,
    ) -> bool {
        &&& post.same_setup(pre)
        &&& (pre.error is Some ==> r is None && post.error == pre.error)
        &&& (r matches Some(d) ==> {
            &&& d.wf()
            &&& d.ts > pre.floor
            &&& post.floor == d.ts
            &&& post.error is None
            &&& pre.not_excluded(d.ts)
        })
        &&& (r matches Some(d) ==> (exists|k: int|
            0 <= k < pre.given@.len() && #[trigger] pre.given@[k] == d) || d.tz
            == pre.dt_start.tz)
        &&& (pre.dt_start.tz.is_fixed() ==> (r matches Some(d) ==> forall|k: int|
            0 <= k < pre.given@.len() && (#[trigger] pre.given@[k]).ts == d.ts ==> pre.given@[k]
                == d))
        &&& (r is None ==> post.floor == pre.floor)
        &&& post.rooms_kept(pre)
        &&& (r matches Some(d) ==> post.drawn(pre, d.ts))
        &&& (pre.exrules@.len() == 0 ==> post.exdates@ == pre.explicit@)
        &&& (pre.error is None ==> forall|k: int|
            0 <= k < pre.given@.len() && pre.floor < (#[trigger] pre.given@[k]).ts && (
            r matches Some(d) ==> pre.given@[k].ts < d.ts) ==> post.error is Some
                || post.exdates@.contains(pre.given@[k].ts))
        &&& (pre.error is None ==> (post.error matches Some(e) ==> e == RRuleError::IterError(
            pre.limit,
        ) && some_excluded(post.exdates@)))
        &&& (pre.dt_start.tz.is_fixed() ==> (post.error is Some <==> pre.error is Some
            || pre.gives_up_behind(pre.floor as int)))
        &&& (pre.dt_start.tz.is_fixed() ==> {
            &&& (r matches Some(d) ==> pre.occurs(d.ts) && forall|x: i64|
                pre.floor < x < d.ts ==> !#[trigger] pre.occurs(x))
            &&& (r is None && post.error is None ==> forall|x: i64|
                pre.floor < x ==> !#[trigger] pre.occurs(x))
        })
    }

    /// Two merges with the same setup that stand at the same place take
    /// the same step, over a fixed zone: they hand out the same instant or
    /// both nothing, and stand at the same place afterwards.
    pub proof fn lemma_steps_agree(
        a: &RRuleSetIter<'a>,
        a_next: &RRuleSetIter<'a>,
        ra: Option<Instant>,
        b: &RRuleSetIter<'a>,
        b_next: &RRuleSetIter<'a>,
        rb: Option<Instant>,
    )
        requires
            Self::stepped(a, a_next, ra),
            Self::stepped(b, b_next, rb),
            a.same_setup(b),
            a.floor == b.floor,
            a.error == b.error,
            a.dt_start.tz.is_fixed(),
        ensures
            ra == rb,
            a_next.same_setup(b_next),
            a_next.floor == b_next.floor,
            a_next.error == b_next.error,
    {
        assert(a.rules() =~= b.rules());
        assert forall|x: i64| a.occurs(x) == b.occurs(x) by {
            a.lemma_same_setup_occurs(b, x);
        }
        assert forall|i: int| 0 <= i < a_next.rrule_iters@.len() implies (
        #[trigger] a_next.rrule_iters@[i]).rule == b_next.rrule_iters@[i].rule by {}
        if ra is Some && rb is Some {
            let x = ra->0;
            let y = rb->0;
            assert(x.ts == y.ts);
            if exists|k: int| 0 <= k < a.given@.len() && #[trigger] a.given@[k] == x {
                let k = choose|k: int| 0 <= k < a.given@.len() && #[trigger] a.given@[k] == x;
                assert(b.given@[k] == y);
            }
        }
    }

    /// Hands out the next instant of the set: the earliest instant later
    /// than the one handed out last that an inclusion rule hands out or that
    /// is an explicit instant, and that is not excluded. Instants on which
    /// several sources agree are handed out once. When a source gives up
    /// because too many of its candidates in a row are excluded, the error
    /// is kept and this and every later call hand out nothing.
    pub fn next(&mut self) -> (r: Option<Instant>)
        requires
            old(self).wf(),
        ensures
            final(self).wf(),
            Self::stepped(old(self), final(self), r),
    {
        if self.error.is_some() {
            return None;
        }
        proof {
            if self.dt_start.tz.is_fixed() {
                self.lemma_gives_up_here();
            }
        }
        if !self.refill() {
            return None;
        }
        if !self.refill_dates() {
            return None;
        }
        let ghost mid = *self;
        match self.lowest() {
            None => {
                proof {
                    if self.dt_start.tz.is_fixed() {
                        assert forall|x: i64| old(self).floor < x implies !#[trigger] old(
                            self,
                        ).occurs(x) by {
                            mid.lemma_nothing_before(x, x + 1);
                            mid.lemma_same_setup_occurs(old(self), x);
                        }
                    }
                }
                None
            },
            Some(b) => {
                proof {
                    mid.lemma_lowest_shown(b);
                    mid.lemma_lowest_clear(b);
                    mid.lemma_same_setup_occurs(old(self), b.ts);
                    if self.dt_start.tz.is_fixed() {
                        mid.lemma_lowest_occurs(b);
                        assert forall|x: i64| old(self).floor < x < b.ts implies !#[trigger] old(
                            self,
                        ).occurs(x) by {
                            mid.lemma_nothing_before(x, b.ts as int);
                            mid.lemma_same_setup_occurs(old(self), x);
                        }
                    }
                }
                self.take(b);
                Some(b)
            },
        }
    }

    /// Does what `next` does and tells the three ways in which a call can
    /// end apart: with an instant, at the end of the set, or on an error.
    pub fn step(&mut self) -> (r: Step)
        requires
            old(self).wf(),
        ensures
            final(self).wf(),
            Self::stepped(old(self), final(self), r.instant()),
            r matches Step::Failed(e) ==> final(self).error == Some(e),
            r is Exhausted ==> final(self).error is None,
    {
        match self.next() {
            Some(d) => Step::Next(d),
            None => match self.error {
                Some(e) => Step::Failed(e),
                None => Step::Exhausted,
            },
        }
    }
}

} // verus!
