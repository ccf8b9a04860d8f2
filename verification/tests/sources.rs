use std::collections::BTreeSet;

use rrule::cache::{cache_has, cache_insert, cache_new};
use rrule::iter::{End, MAX_ITER_LOOP};
use rrule::{Instant, RRule, RRuleError, RRuleIter, RRuleSet, RRuleSetIter, Step, Tz};

fn utc(year: i64, month: i64, day: i64, hour: i64, minute: i64, second: i64) -> Instant {
    Instant::from_local(Tz::Utc, year, month, day, hour, minute, second).unwrap()
}

fn rule(text: &str, start: Instant) -> RRule {
    text.parse::<RRule>().unwrap().validate(start).unwrap()
}

fn january(day: i64) -> Instant {
    utc(2023, 1, day, 9, 0, 0)
}

#[test]
fn no_candidate_is_not_excluded() {
    let start = january(1);
    let exrules = vec![rule("FREQ=DAILY", start)];
    let mut exdates: BTreeSet<i64> = BTreeSet::new();
    assert!(!RRuleSetIter::is_date_excluded(&None, &exrules, &mut exdates, &start));
    assert!(exdates.is_empty());
}

#[test]
fn candidate_among_the_excluded_seconds_is_excluded() {
    let start = january(1);
    let mut exdates: BTreeSet<i64> = BTreeSet::new();
    exdates.insert(january(3).ts);
    assert!(RRuleSetIter::is_date_excluded(&Some(january(3)), &[], &mut exdates, &start));
    assert!(!RRuleSetIter::is_date_excluded(&Some(january(4)), &[], &mut exdates, &start));
    assert_eq!(exdates.len(), 1);
    let berlin = Tz::named("Europe/Berlin").unwrap();
    let same = january(3).with_timezone(berlin);
    assert!(RRuleSetIter::is_date_excluded(&Some(same), &[], &mut exdates, &start));
}

#[test]
fn exclusion_rule_is_expanded_around_the_candidate() {
    let start = january(1);
    let exrules = vec![rule("FREQ=WEEKLY;BYDAY=SU", start), rule("FREQ=SECONDLY;COUNT=3", start)];
    let mut exdates: BTreeSet<i64> = BTreeSet::new();
    assert!(RRuleSetIter::is_date_excluded(&Some(january(8)), &exrules, &mut exdates, &start));
    assert!(exdates.contains(&january(8).ts));
    assert_eq!(exdates.len(), 1);
    assert!(!RRuleSetIter::is_date_excluded(&Some(january(9)), &exrules, &mut exdates, &start));
    assert_eq!(exdates.len(), 1);
    let second = utc(2023, 1, 1, 9, 0, 1);
    assert!(RRuleSetIter::is_date_excluded(&Some(second), &exrules, &mut exdates, &start));
    assert!(exdates.contains(&january(1).ts));
    assert!(exdates.contains(&(january(1).ts + 1)));
    assert!(exdates.contains(&(january(1).ts + 2)));
    assert_eq!(exdates.len(), 4);
}

#[test]
fn next_explicit_instant_that_is_not_excluded() {
    let start = january(1);
    let mut dates = vec![january(5), january(4), january(3)];
    let mut exdates: BTreeSet<i64> = BTreeSet::new();
    exdates.insert(january(3).ts);
    let got = RRuleSetIter::generate_date(&mut dates, &[], &mut exdates, &start);
    assert_eq!(got, Ok(Some(january(4))));
    assert_eq!(dates, vec![january(5)]);
    let got = RRuleSetIter::generate_date(&mut dates, &[], &mut exdates, &start);
    assert_eq!(got, Ok(Some(january(5))));
    assert!(dates.is_empty());
    let got = RRuleSetIter::generate_date(&mut dates, &[], &mut exdates, &start);
    assert_eq!(got, Ok(None));
}

#[test]
fn explicit_instants_that_are_all_excluded_give_nothing() {
    let start = january(1);
    let mut dates = vec![january(5), january(4), january(3)];
    let mut exdates: BTreeSet<i64> = BTreeSet::new();
    for d in &dates {
        exdates.insert(d.ts);
    }
    let got = RRuleSetIter::generate_date(&mut dates, &[], &mut exdates, &start);
    assert_eq!(got, Ok(None));
    assert!(dates.is_empty());
}

#[test]
fn explicit_instants_give_up_at_the_bound() {
    let start = january(1);
    let all = vec![january(7), january(6), january(5), january(4), january(3)];
    let mut exdates: BTreeSet<i64> = BTreeSet::new();
    for d in &all {
        exdates.insert(d.ts);
    }
    let mut dates = all.clone();
    let got = RRuleSetIter::generate_date_within(&mut dates, &[], &mut exdates, &start, 2);
    assert_eq!(got, Err(RRuleError::IterError(2)));
    assert_eq!(dates.len(), 3);
    let mut dates = all.clone();
    let got = RRuleSetIter::generate_date_within(&mut dates, &[], &mut exdates, &start, 0);
    assert_eq!(got, Err(RRuleError::IterError(0)));
    assert_eq!(dates.len(), 4);
    let mut dates = all.clone();
    let got = RRuleSetIter::generate_date_within(&mut dates, &[], &mut exdates, &start, 5);
    assert_eq!(got, Ok(None));
    let mut dates = all.clone();
    exdates.remove(&january(5).ts);
    let got = RRuleSetIter::generate_date_within(&mut dates, &[], &mut exdates, &start, 3);
    assert_eq!(got, Ok(Some(january(5))));
    assert_eq!(dates, vec![january(7), january(6)]);
}

#[test]
fn next_instant_of_a_rule_that_is_not_excluded() {
    let start = january(1);
    let daily = rule("FREQ=DAILY", start);
    let mut it = daily.iter_with_ctx(start);
    let mut exdates: BTreeSet<i64> = BTreeSet::new();
    exdates.insert(january(1).ts);
    exdates.insert(january(2).ts);
    exdates.insert(january(4).ts);
    let got = RRuleSetIter::generate(&mut it, &[], &mut exdates, &start);
    assert_eq!(got, Ok(Some(january(3))));
    let got = RRuleSetIter::generate(&mut it, &[], &mut exdates, &start);
    assert_eq!(got, Ok(Some(january(5))));
    assert_eq!(it.floor, january(5).ts);
}

#[test]
fn rule_gives_up_at_the_bound() {
    let start = january(1);
    let daily = rule("FREQ=DAILY", start);
    let mut exdates: BTreeSet<i64> = BTreeSet::new();
    for day in 1..=5 {
        exdates.insert(january(day).ts);
    }
    let mut it = daily.iter_with_ctx(start);
    let got = RRuleSetIter::generate_within(&mut it, &[], &mut exdates, &start, 3);
    assert_eq!(got, Err(RRuleError::IterError(3)));
    assert_eq!(it.floor, january(3).ts);
    let mut it = daily.iter_with_ctx(start);
    let got = RRuleSetIter::generate_within(&mut it, &[], &mut exdates, &start, 0);
    assert_eq!(got, Err(RRuleError::IterError(0)));
    let mut it = daily.iter_with_ctx(start);
    let got = RRuleSetIter::generate_within(&mut it, &[], &mut exdates, &start, 6);
    assert_eq!(got, Ok(Some(january(6))));
    assert_eq!(RRuleError::new_iter_err(MAX_ITER_LOOP), RRuleError::IterError(100000));
}

#[test]
fn rule_that_ends_gives_nothing() {
    let start = january(1);
    let once = rule("FREQ=DAILY;COUNT=1", start);
    let mut it = once.iter_with_ctx(start);
    let mut exdates: BTreeSet<i64> = BTreeSet::new();
    exdates.insert(january(1).ts);
    let got = RRuleSetIter::generate(&mut it, &[], &mut exdates, &start);
    assert_eq!(got, Ok(None));
    assert_eq!(it.end, End::Count);
    let got = RRuleSetIter::generate(&mut it, &[], &mut exdates, &start);
    assert_eq!(got, Ok(None));
}

#[test]
fn generator_ends_for_each_reason() {
    let start = january(1);
    let counted = rule("FREQ=DAILY;COUNT=2", start);
    let mut it = counted.iter_with_ctx(start);
    assert_eq!(it.next(), Some(january(1)));
    assert_eq!(it.left, Some(1));
    assert_eq!(it.next(), Some(january(2)));
    assert_eq!(it.end, End::Running);
    assert_eq!(it.next(), None);
    assert_eq!(it.end, End::Count);
    assert_eq!(it.next(), None);

    let bounded = rule("FREQ=DAILY;UNTIL=20230102T090000Z", start);
    let mut it = bounded.iter_with_ctx(start);
    assert_eq!(it.next(), Some(january(1)));
    assert_eq!(it.next(), Some(january(2)));
    assert_eq!(it.next(), None);
    assert_eq!(it.end, End::Until);
    assert_eq!(it.floor, january(2).ts);

    let late = utc(9998, 1, 1, 0, 0, 0);
    let yearly = rule("FREQ=YEARLY", late);
    let mut it = yearly.iter_with_ctx(late);
    assert_eq!(it.next(), Some(late));
    assert_eq!(it.next(), Some(utc(9999, 1, 1, 0, 0, 0)));
    assert_eq!(it.next(), None);
    assert_eq!(it.end, End::Range);

    let never = rule("FREQ=YEARLY;BYMONTH=2;BYMONTHDAY=30", start);
    let mut it = RRuleIter::begin(&never, Tz::Utc, start.local_secs(), start.ts);
    assert_eq!(it.next(), None);
    assert_eq!(it.end, End::Range);
    assert_eq!(it.unit, 9999);
    assert_eq!(it.next(), None);
    assert_eq!(it.end, End::Range);
}

#[test]
fn periods_without_an_instant_are_passed_over() {
    let tuesday = utc(2023, 1, 3, 0, 0, 0);
    let mondays = rule("FREQ=SECONDLY;BYDAY=MO;COUNT=3", tuesday);
    let mut it = mondays.iter_with_ctx(tuesday);
    assert_eq!(it.next(), Some(utc(2023, 1, 9, 0, 0, 0)));
    assert_eq!(it.next(), Some(utc(2023, 1, 9, 0, 0, 1)));
    assert_eq!(it.next(), Some(utc(2023, 1, 9, 0, 0, 2)));
    assert_eq!(it.next(), None);
    assert_eq!(it.end, End::Count);

    let hours = rule("FREQ=HOURLY;INTERVAL=5;BYDAY=MO", tuesday);
    let mut it = hours.iter_with_ctx(tuesday);
    assert_eq!(it.next(), Some(utc(2023, 1, 9, 1, 0, 0)));
    assert_eq!(it.next(), Some(utc(2023, 1, 9, 6, 0, 0)));
    let plain = hours.iter_with_ctx(tuesday).all_between(tuesday.ts, utc(2023, 1, 17, 0, 0, 0).ts);
    let days: Vec<i64> = plain.iter().map(|t| (t - tuesday.ts) / 3600).collect();
    assert_eq!(days, vec![145, 150, 155, 160, 165, 315, 320, 325, 330, 335]);

    let minutes = rule("FREQ=MINUTELY;INTERVAL=7;BYMONTH=3;BYHOUR=0;UNTIL=20240301T001000Z", tuesday);
    let got = minutes.iter_with_ctx(tuesday).all_between(tuesday.ts, utc(2025, 1, 1, 0, 0, 0).ts);
    assert_eq!(got.len(), 266);
    assert_eq!(got[0], utc(2023, 3, 1, 0, 2, 0).ts);
    assert_eq!(*got.last().unwrap(), utc(2024, 3, 1, 0, 6, 0).ts);
}

#[test]
fn day_that_the_filters_refuse_is_stepped_over() {
    let tuesday = utc(2023, 1, 3, 0, 0, 0);
    let mondays = rule("FREQ=SECONDLY;INTERVAL=7;BYDAY=MO", tuesday);
    let mut it = mondays.iter_with_ctx(tuesday);
    let first = it.unit;
    assert!(it.buf.is_empty());
    it.skip_day();
    assert_eq!(it.unit - first, 86401);
    assert_eq!((it.index, it.end), (0, End::Running));
    assert!(it.buf.is_empty());
    it.skip_day();
    assert_eq!(it.unit - first, 2 * 86401);
    let sundays = rule("FREQ=SECONDLY;BYDAY=TU", tuesday);
    let mut it = sundays.iter_with_ctx(tuesday);
    it.skip_day();
    assert_eq!(it.unit, first);
    assert_eq!(it.buf.len(), 1);
    let daily = rule("FREQ=DAILY;BYDAY=MO", tuesday);
    let mut it = daily.iter_with_ctx(tuesday);
    it.skip_day();
    assert_eq!(it.unit, first / 86400);
    let last = utc(9999, 12, 30, 0, 0, 0);
    let late = rule("FREQ=HOURLY;BYMONTH=1", last);
    let mut it = late.iter_with_ctx(last);
    let at = it.unit;
    it.skip_day();
    assert_eq!(it.unit, at + 24);
    it.skip_day();
    assert_eq!((it.unit, it.end), (at + 24, End::Running));
    assert_eq!(it.next(), None);
    assert_eq!(it.end, End::Range);
}

#[test]
fn exclusion_rule_reaches_an_instant_past_many_empty_periods() {
    let tuesday = utc(2023, 1, 3, 0, 0, 0);
    let monday = utc(2023, 1, 9, 0, 0, 0);
    let later = utc(2023, 1, 10, 0, 0, 0);
    let exrules = vec![rule("FREQ=SECONDLY;BYDAY=MO;COUNT=3", tuesday)];
    let mut exdates: BTreeSet<i64> = BTreeSet::new();
    assert!(RRuleSetIter::is_date_excluded(&Some(monday), &exrules, &mut exdates, &tuesday));
    assert!(!RRuleSetIter::is_date_excluded(&Some(later), &exrules, &mut exdates, &tuesday));
    let mut dates = vec![later, monday];
    let mut exdates: BTreeSet<i64> = BTreeSet::new();
    let got = RRuleSetIter::generate_date(&mut dates, &exrules, &mut exdates, &tuesday);
    assert_eq!(got, Ok(Some(later)));
    assert!(dates.is_empty());
    let set = RRuleSet::new(tuesday)
        .exrule(rule("FREQ=SECONDLY;BYDAY=MO;COUNT=3", tuesday))
        .rdate(monday)
        .rdate(later);
    assert_eq!(set.all(10).dates, vec![later]);
    let set = RRuleSet::new(tuesday).rrule(rule("FREQ=SECONDLY;BYDAY=MO;COUNT=3", tuesday));
    let found = set.all(10);
    assert!(!found.limited);
    assert_eq!(found.dates, vec![monday, utc(2023, 1, 9, 0, 0, 1), utc(2023, 1, 9, 0, 0, 2)]);
}

#[test]
fn instants_of_a_rule_between_two_seconds() {
    let start = january(1);
    let daily = rule("FREQ=DAILY", start);
    let got = daily.iter_with_ctx(start).all_between(january(3).ts, january(5).ts);
    assert_eq!(got, vec![january(3).ts, january(4).ts, january(5).ts]);
    let got = daily.iter_with_ctx(start).all_between(january(3).ts + 1, january(4).ts - 1);
    assert!(got.is_empty());
    let got = daily.iter_with_ctx(start).all_between(january(1).ts - 100, january(1).ts);
    assert_eq!(got, vec![january(1).ts]);
    let got = daily.iter_with_ctx(start).all_between(10, 5);
    assert!(got.is_empty());
}

#[test]
fn merge_hands_out_the_least_instant_each_time() {
    let set = "DTSTART:20230101T090000Z\nRRULE:FREQ=DAILY;INTERVAL=2;COUNT=3\nRRULE:FREQ=DAILY;INTERVAL=3;COUNT=3\nRDATE:20230102T090000Z,20230104T090000Z"
        .parse::<RRuleSet>()
        .unwrap();
    let mut it = set.into_iter();
    assert!(!it.has_err());
    assert_eq!(it.limit, MAX_ITER_LOOP);
    let mut got: Vec<i64> = Vec::new();
    while let Some(d) = it.next() {
        assert_eq!(it.floor, d.ts);
        got.push((d.ts - january(1).ts) / 86400 + 1);
    }
    assert_eq!(got, vec![1, 2, 3, 4, 5, 7]);
    assert_eq!(it.next(), None);
    assert!(!it.has_err());
    assert_eq!(it.get_err(), None);
}

#[test]
fn merge_refills_and_finds_the_lowest() {
    let set = "DTSTART:20230101T090000Z\nRRULE:FREQ=DAILY;COUNT=2\nRDATE:20230105T090000Z\nEXDATE:20230101T090000Z"
        .parse::<RRuleSet>()
        .unwrap();
    let mut it = set.iter_with_limit(7);
    assert_eq!(it.limit, 7);
    assert_eq!(it.lowest(), Some(january(5)));
    assert!(it.refill());
    assert_eq!(it.queue, vec![Some(january(2))]);
    assert!(it.refill_dates());
    assert_eq!(it.rdates, vec![january(5)]);
    assert_eq!(it.lowest(), Some(january(2)));
    it.take(january(2));
    assert_eq!(it.queue, vec![None]);
    assert_eq!(it.floor, january(2).ts);
    assert!(it.refill_slot(0));
    assert_eq!(it.queue, vec![None]);
    assert_eq!(it.lowest(), Some(january(5)));
    it.take(january(5));
    assert!(it.rdates.is_empty());
    assert_eq!(it.lowest(), None);
}

#[test]
fn set_is_put_together_piece_by_piece() {
    let start = january(1);
    let set = RRuleSet::new(start)
        .rrule(rule("FREQ=DAILY;COUNT=4", start))
        .exrule(rule("FREQ=DAILY;INTERVAL=2;COUNT=1", start))
        .rdate(january(10))
        .exdate(january(2));
    assert_eq!(set.get_rrule().len(), 1);
    assert_eq!(set.get_exrule().len(), 1);
    assert_eq!(set.get_rdate(), &vec![january(10)]);
    assert_eq!(set.get_exdate(), &vec![january(2)]);
    assert_eq!(set.get_dt_start(), &start);
    let days: Vec<Instant> = set.all(10).dates;
    assert_eq!(days, vec![january(3), january(4), january(10)]);
    let set = RRuleSet::new(start)
        .rdate(january(10))
        .set_rrules(vec![rule("FREQ=DAILY;COUNT=1", start)]);
    assert_eq!(set.all(10).dates, vec![january(1), january(10)]);
}

#[test]
fn explicit_instants_are_sorted_latest_first() {
    let got = rrule::set::sorted_desc(&vec![january(3), january(5), january(3), january(4)]);
    assert_eq!(got, vec![january(5), january(4), january(3)]);
    let mut list = vec![january(5), january(3)];
    rrule::set::insert_desc(&mut list, january(4));
    rrule::set::insert_desc(&mut list, january(6));
    rrule::set::insert_desc(&mut list, january(2));
    rrule::set::insert_desc(&mut list, january(4));
    assert_eq!(list, vec![january(6), january(5), january(4), january(3), january(2)]);
}

#[test]
fn seconds_are_kept_in_a_set() {
    let mut cache = cache_new();
    assert!(!cache_has(&cache, 5));
    cache_insert(&mut cache, 5);
    cache_insert(&mut cache, 5);
    cache_insert(&mut cache, -7);
    assert!(cache_has(&cache, 5));
    assert!(cache_has(&cache, -7));
    assert!(!cache_has(&cache, 6));
    assert_eq!(cache.len(), 2);
    let mut cache = cache_new();
    rrule::rruleset_iter::remember(&mut cache, &vec![3, 1, 3]);
    assert_eq!(cache.len(), 2);
    assert!(cache_has(&cache, 1) && cache_has(&cache, 3));
}

#[test]
fn pull_tells_its_three_endings_apart() {
    let set = "DTSTART:20230101T090000Z\nRRULE:FREQ=DAILY;COUNT=1".parse::<RRuleSet>().unwrap();
    let mut it = set.into_iter();
    assert_eq!(it.step(), Step::Next(january(1)));
    assert_eq!(it.step(), Step::Exhausted);
    assert_eq!(it.step(), Step::Exhausted);
    let set = "DTSTART:20230101T090000Z\nRRULE:FREQ=DAILY\nEXRULE:FREQ=DAILY"
        .parse::<RRuleSet>()
        .unwrap();
    let mut it = set.iter_with_limit(2);
    assert_eq!(it.step(), Step::Failed(RRuleError::IterError(2)));
    assert_eq!(it.step(), Step::Failed(RRuleError::IterError(2)));
    assert_eq!(it.floor, rrule::zone::MIN_TS - 1);
}

#[test]
fn candidate_is_offered_with_what_it_resolved_to() {
    let start = january(1);
    let daily = rule("FREQ=DAILY;BYHOUR=9,10,11,12;UNTIL=20230101T103000Z", start);
    let mut it = daily.iter_with_ctx(start);
    assert_eq!(it.buf.len(), 4);
    assert_eq!(it.offer(None), None);
    assert_eq!((it.index, it.floor, it.end), (1, start.ts - 1, End::Running));
    assert_eq!(it.offer(Some(start.ts - 1)), None);
    assert_eq!((it.index, it.floor, it.end), (2, start.ts - 1, End::Running));
    assert_eq!(it.offer(Some(start.ts + 5)).map(|d| d.ts), Some(start.ts + 5));
    assert_eq!((it.index, it.floor, it.end), (3, start.ts + 5, End::Running));
    assert_eq!(it.offer(Some(start.ts + 5401)), None);
    assert_eq!((it.index, it.floor, it.end), (4, start.ts + 5, End::Until));
    let mut it = daily.iter_with_ctx(start);
    assert_eq!(it.offer(Some(start.ts + 5400)).map(|d| d.ts), Some(start.ts + 5400));
    assert_eq!((it.index, it.floor, it.end), (1, start.ts + 5400, End::Running));
    let counted = rule("FREQ=DAILY;COUNT=2", start);
    let mut it = counted.iter_with_ctx(start);
    assert_eq!(it.offer(Some(start.ts)), Some(start));
    assert_eq!(it.left, Some(1));
    it.advance();
    assert_eq!((it.unit, it.index), (start.local_secs() / 86400 + 1, 0));
    assert_eq!(it.buf, vec![start.local_secs() + 86400]);
    let late = utc(9999, 6, 1, 0, 0, 0);
    let yearly = rule("FREQ=YEARLY", late);
    let mut it = yearly.iter_with_ctx(late);
    it.advance();
    assert_eq!((it.unit, it.end), (9999, End::Range));
    let mut it = RRuleIter::begin(&yearly, Tz::Utc, late.local_secs(), late.ts);
    assert_eq!((it.unit, it.index, it.left), (9999, 0, None));
}

#[test]
fn merge_started_again_hands_out_the_same() {
    let set = "DTSTART;TZID=Europe/Berlin:20230101T090000\nRRULE:FREQ=DAILY;INTERVAL=2;COUNT=4\nRRULE:FREQ=WEEKLY;COUNT=3\nRDATE:20230102T090000,20230108T090000\nEXDATE:20230103T090000\nEXRULE:FREQ=DAILY;BYMONTHDAY=15"
        .parse::<RRuleSet>()
        .unwrap();
    let mut first = set.into_iter();
    let mut second = set.into_iter();
    let mut count = 0;
    loop {
        let a = first.next();
        let b = second.next();
        assert_eq!(a, b);
        assert_eq!(first.floor, second.floor);
        assert_eq!(first.get_err(), second.get_err());
        if a.is_none() {
            break;
        }
        count += 1;
    }
    assert_eq!(count, 5);
    let mut third = set.into_iter();
    let mut again: Vec<Instant> = Vec::new();
    while let Some(d) = third.next() {
        again.push(d);
    }
    assert_eq!(set.all(100).dates, again);
}

#[test]
fn merges_started_again_give_up_at_the_same_place() {
    let set = "DTSTART:20230101T090000Z\nRRULE:FREQ=DAILY;COUNT=10\nEXDATE:20230103T090000Z,20230104T090000Z,20230105T090000Z"
        .parse::<RRuleSet>()
        .unwrap();
    for _ in 0..2 {
        let mut it = set.iter_with_limit(3);
        assert_eq!(it.next(), Some(january(1)));
        assert_eq!(it.next(), Some(january(2)));
        assert!(!it.has_err());
        assert_eq!(it.next(), None);
        assert_eq!(it.get_err(), Some(RRuleError::IterError(3)));
        assert_eq!(it.floor, january(2).ts);
    }
    let mut it = set.iter_with_limit(4);
    let mut days: Vec<i64> = Vec::new();
    while let Some(d) = it.next() {
        days.push((d.ts - january(1).ts) / 86400 + 1);
    }
    assert_eq!(days, vec![1, 2, 6, 7, 8, 9, 10]);
    assert!(!it.has_err());
}

#[test]
fn fresh_merge_waits_with_empty_slots() {
    let set = "DTSTART:20230101T090000Z\nRRULE:FREQ=DAILY;COUNT=2\nRRULE:FREQ=WEEKLY\nRDATE:20230103T090000Z,20230105T090000Z,20230103T090000Z\nEXDATE:20230102T090000Z,20230107T090000Z\nEXRULE:FREQ=MONTHLY"
        .parse::<RRuleSet>()
        .unwrap();
    let it = set.into_iter();
    assert_eq!(it.queue, vec![None, None]);
    assert_eq!(it.rrule_iters.len(), 2);
    assert_eq!(it.rrule_iters[0].floor, january(1).ts - 1);
    assert_eq!(it.rrule_iters[1].floor, january(1).ts - 1);
    assert_eq!(it.rrule_iters[0].left, Some(2));
    assert_eq!(it.rrule_iters[1].left, None);
    assert_eq!(it.rrule_iters[0].end, End::Running);
    assert_eq!(it.rdates, vec![january(5), january(3)]);
    let explicit: Vec<i64> = it.exdates.iter().copied().collect();
    assert_eq!(explicit, vec![january(2).ts, january(7).ts]);
    assert_eq!(it.exrules.len(), 1);
    assert_eq!(it.dt_start, january(1));
    assert_eq!(it.floor, rrule::zone::MIN_TS - 1);
    assert_eq!(it.get_err(), None);
}

#[test]
fn instants_are_shown_in_the_zone_of_their_source() {
    let set = "DTSTART;TZID=America/New_York:20230101T090000\nRRULE:FREQ=DAILY;COUNT=2\nRDATE;TZID=Europe/Berlin:20230102T150000,20230103T150000"
        .parse::<RRuleSet>()
        .unwrap();
    let new_york = Tz::named("America/New_York").unwrap();
    let berlin = Tz::named("Europe/Berlin").unwrap();
    let found = set.all(10).dates;
    assert_eq!(found.len(), 3);
    assert_eq!(found[0].tz, new_york);
    assert_eq!(found[1].tz, berlin);
    assert_eq!(found[2].tz, berlin);
    let shown: Vec<String> = found.iter().map(|d| d.to_rfc3339()).collect();
    assert_eq!(
        shown,
        vec![
            "2023-01-01T09:00:00-05:00",
            "2023-01-02T15:00:00+01:00",
            "2023-01-03T15:00:00+01:00",
        ]
    );
}

#[test]
fn anchor_written_with_z_is_in_utc() {
    let set = "DTSTART:20230101T090000Z\nRRULE:FREQ=DAILY;UNTIL=20230102\nRDATE:20230105T090000"
        .parse::<RRuleSet>()
        .unwrap();
    assert_eq!(set.get_dt_start().tz, Tz::Utc);
    assert_eq!(*set.get_dt_start(), january(1));
    assert_eq!(set.get_rdate(), &vec![january(5)]);
    assert_eq!(set.get_rrule()[0].until, Some(utc(2023, 1, 2, 23, 59, 59)));
    assert_eq!(set.all(10).dates, vec![january(1), january(2), january(5)]);
}

#[test]
fn excluded_seconds_grow_only_near_what_was_tested() {
    let start = january(1);
    let exrules = vec![rule("FREQ=SECONDLY", start)];
    let mut exdates: BTreeSet<i64> = BTreeSet::new();
    exdates.insert(17);
    let mut dates: Vec<Instant> = Vec::new();
    let got = RRuleSetIter::generate_date(&mut dates, &exrules, &mut exdates, &start);
    assert_eq!(got, Ok(None));
    assert_eq!(exdates.iter().copied().collect::<Vec<i64>>(), vec![17]);
    let mut dates = vec![january(9), january(4)];
    let got = RRuleSetIter::generate_date_within(&mut dates, &exrules, &mut exdates, &start, 1);
    assert_eq!(got, Err(RRuleError::IterError(1)));
    assert_eq!(dates, vec![january(9)]);
    let t = january(4).ts;
    assert_eq!(exdates.iter().copied().collect::<Vec<i64>>(), vec![17, t - 1, t, t + 1]);
    let ended = rule("FREQ=DAILY;COUNT=1", start);
    let mut it = ended.iter_with_ctx(start);
    assert_eq!(it.next(), Some(start));
    assert_eq!(it.next(), None);
    let mut exdates: BTreeSet<i64> = BTreeSet::new();
    let got = RRuleSetIter::generate(&mut it, &exrules, &mut exdates, &start);
    assert_eq!(got, Ok(None));
    assert!(exdates.is_empty());
    let daily = rule("FREQ=DAILY", january(2));
    let mut it = daily.iter_with_ctx(january(2));
    let got = RRuleSetIter::generate_within(&mut it, &exrules, &mut exdates, &start, 2);
    assert_eq!(got, Err(RRuleError::IterError(2)));
    let (a, b) = (january(2).ts, january(3).ts);
    assert_eq!(
        exdates.iter().copied().collect::<Vec<i64>>(),
        vec![a - 1, a, a + 1, b - 1, b, b + 1]
    );
}

fn seconds_without_the_first(excluded: i64) -> RRuleSet {
    let start = january(1);
    let mut set = RRuleSet::new(start).rrule(rule("FREQ=SECONDLY;COUNT=100003", start));
    for k in 0..excluded {
        set = set.exdate(Instant::new(start.ts + k, Tz::Utc).unwrap());
    }
    set
}

#[test]
fn collection_gives_up_after_too_many_excluded_in_a_row() {
    let start = january(1);
    let found = seconds_without_the_first(99999).all(10);
    assert!(!found.limited);
    let seconds: Vec<i64> = found.dates.iter().map(|d| d.ts - start.ts).collect();
    assert_eq!(seconds, vec![99999, 100000, 100001, 100002]);
    let found = seconds_without_the_first(99999).all(4);
    assert!(found.limited);
    assert_eq!(found.dates.len(), 4);
    let set = seconds_without_the_first(100000);
    let mut it = set.into_iter();
    assert_eq!(it.next(), None);
    assert_eq!(it.get_err(), Some(RRuleError::IterError(100000)));
    let found = set.all(10);
    assert!(found.limited);
    assert!(found.dates.is_empty());
}

#[test]
fn request_on_a_floating_anchor_keeps_its_bounds() {
    let rules = "DTSTART:20230101T090000\nRRULE:FREQ=DAILY;COUNT=10";
    let after = "2023-01-01T00:00:00+14:00";
    let before = "2030-01-01T00:00:00-12:00";
    let got = rrule::generator::get_all_recurrences_between(rules, after, before, Some(3));
    assert_eq!(got.unwrap().len(), 3);
    let got = rrule::generator::get_all_recurrences_between(rules, after, before, Some(20));
    assert_eq!(got.unwrap().len(), 20);
    let got = rrule::generator::get_all_recurrences_between(rules, after, before, None);
    assert_eq!(got.unwrap().len(), 10);
    let endless = "DTSTART:20230101T090000\nRRULE:FREQ=DAILY";
    let got = rrule::generator::get_all_recurrences_between(endless, after, before, None);
    assert_eq!(got.unwrap().len(), 730);
    let got = rrule::generator::get_all_recurrences_between(endless, after, "tomorrow", Some(3));
    assert_eq!(got, Err(RRuleError::ParserError(rrule::SyntaxError::BadDate)));
    let unread = "DTSTART:20230101T090000\nRRULE:FREQ=SOMETIMES";
    let got = rrule::generator::get_all_recurrences_between(unread, "never", "tomorrow", Some(3));
    assert_eq!(got, Err(RRuleError::ParserError(rrule::SyntaxError::BadFrequency)));
    let both = "DTSTART:20230101T090000\nRRULE:FREQ=DAILY;COUNT=3;UNTIL=20230301T090000";
    let got = rrule::generator::get_all_recurrences_between(both, "never", before, None);
    assert_eq!(got, Err(RRuleError::ValidationError(rrule::ValidationError::CountAndUntil)));
    let got = rrule::RecurrenceGenerator::recurrence_dates_between(both, after, before);
    assert_eq!(got, Err(rrule::RecurrenceGeneratorError::Parsing));
}

#[test]
fn text_on_a_floating_anchor_is_read_as_it_is_written() {
    let set = "DTSTART:20230101T090000\nRRULE:FREQ=WEEKLY;COUNT=4;BYMONTHDAY=25;BYDAY=SU\nEXRULE:FREQ=DAILY;BYYEARDAY=25;INTERVAL=3\nRDATE:20230105T090000,20230103T090000Z\nEXDATE;TZID=Europe/Berlin:20230103T100000"
        .parse::<RRuleSet>()
        .unwrap();
    assert_eq!(set.get_dt_start().tz, Tz::Local);
    assert_eq!(set.get_rrule().len(), 1);
    assert_eq!(set.get_rrule()[0].count, Some(4));
    assert!(set.get_rrule()[0].by_month_day.is_empty());
    assert_eq!(set.get_exrule().len(), 1);
    assert_eq!(set.get_exrule()[0].interval, 3);
    assert!(set.get_exrule()[0].by_year_day.is_empty());
    assert_eq!(set.get_rdate().len(), 2);
    assert_eq!(set.get_rdate()[0].tz, Tz::Local);
    assert_eq!(set.get_rdate()[1], january(3));
    assert_eq!(set.get_rdate()[1].tz, Tz::Utc);
    assert_eq!(set.get_exdate(), &vec![january(3)]);
    let unread = "DTSTART:20230101T090000\nRRULE:FREQ=WEEKLY\nRDATE:20230105,2023".parse::<RRuleSet>();
    assert_eq!(unread.err(), Some(RRuleError::ParserError(rrule::SyntaxError::BadDate)));
}

#[test]
fn explicit_instants_on_a_floating_anchor_are_all_handed_out() {
    let set = "DTSTART:20230101T090000\nRDATE:20230105T090000,20230103T090000,20230109T090000\nEXDATE:20230103T090000"
        .parse::<RRuleSet>()
        .unwrap();
    let want = vec![
        Instant::from_local(Tz::Local, 2023, 1, 5, 9, 0, 0).unwrap(),
        Instant::from_local(Tz::Local, 2023, 1, 9, 9, 0, 0).unwrap(),
    ];
    let found = set.all(10);
    assert!(!found.limited);
    assert_eq!(found.dates, want);
    let lone = "DTSTART:20230101T090000\nRRULE:FREQ=HOURLY;COUNT=5\nEXDATE:20230101T100000"
        .parse::<RRuleSet>()
        .unwrap();
    let mut it = lone.into_iter();
    let mut n = 0;
    while let Some(_) = it.next() {
        n += 1;
    }
    assert_eq!(n, 4);
    assert_eq!(it.rrule_iters[0].left, Some(0));
}

#[test]
fn error_says_what_went_wrong() {
    assert_eq!(
        RRuleError::IterError(100000).message(),
        "Reached max loop counter (`100000`). See 'validator limits' in docs for more info."
    );
    assert_eq!(RRuleError::new_iter_err(0).message().find("`0`"), Some(26));
    assert_eq!(
        RRuleError::ParserError(rrule::SyntaxError::MissingStart).message(),
        "RRule parser error: no line states the start"
    );
    assert_eq!(
        RRuleError::ValidationError(rrule::ValidationError::CountAndUntil).message(),
        "RRule validation error: a count and an until bound are both given"
    );
}

#[test]
fn copy_of_a_merge_goes_on_as_the_merge_does() {
    let set = "DTSTART:20230101T090000Z\nRRULE:FREQ=DAILY;COUNT=5\nRDATE:20230103T120000Z"
        .parse::<RRuleSet>()
        .unwrap();
    let mut it = set.into_iter();
    assert_eq!(it.next(), Some(january(1)));
    assert_eq!(it.next(), Some(january(2)));
    let mut copy = it.clone();
    let mut rest: Vec<Instant> = Vec::new();
    while let Some(d) = it.next() {
        rest.push(d);
    }
    assert_eq!(rest.len(), 4);
    for d in rest {
        assert_eq!(copy.next(), Some(d));
    }
    assert_eq!(copy.next(), None);
    let rule_it = set.get_rrule()[0].iter_with_ctx(january(1));
    let mut a = rule_it.clone();
    let mut b = rule_it;
    assert_eq!(a.next(), b.next());
    assert!(format!("{:?}", a).contains("floor"));
}

#[test]
fn hours_and_minutes_that_are_not_listed_are_stepped_over() {
    let tuesday = utc(2023, 1, 3, 0, 0, 0);
    let seconds = rule("FREQ=SECONDLY;INTERVAL=7;BYHOUR=9;BYMINUTE=30", tuesday);
    let mut it = seconds.iter_with_ctx(tuesday);
    let mut got: Vec<i64> = Vec::new();
    for _ in 0..12 {
        got.push(it.next().unwrap().ts - tuesday.ts);
    }
    assert_eq!(
        got,
        vec![34202, 34209, 34216, 34223, 34230, 34237, 34244, 34251, 34258, 120603, 120610, 120617]
    );
    let minutes = rule("FREQ=MINUTELY;INTERVAL=11;BYHOUR=9,17", tuesday);
    let mut it = minutes.iter_with_ctx(tuesday);
    let mut got: Vec<i64> = Vec::new();
    for _ in 0..10 {
        got.push((it.next().unwrap().ts - tuesday.ts) / 60);
    }
    assert_eq!(got, vec![550, 561, 572, 583, 594, 1023, 1034, 1045, 1056, 1067]);
    let once = "DTSTART:20230103T000000Z\nRRULE:FREQ=SECONDLY;BYHOUR=9;BYMINUTE=30;BYSECOND=0"
        .parse::<RRuleSet>()
        .unwrap()
        .all(730);
    assert!(once.limited);
    assert_eq!(once.dates.len(), 730);
    assert_eq!(once.dates[0], utc(2023, 1, 3, 9, 30, 0));
    assert_eq!(once.dates[729].ts - once.dates[0].ts, 729 * 86400);

    let mut it = seconds.iter_with_ctx(tuesday);
    let first = it.unit;
    assert!(it.buf.is_empty());
    it.skip_time();
    assert_eq!((it.unit - first, it.index), (3605, 0));
    it.leap(first + 4000);
    assert_eq!(it.unit - first, 4004);
    let mut at_nine = seconds.iter_with_ctx(utc(2023, 1, 3, 9, 0, 0));
    let nine = at_nine.unit;
    at_nine.skip_time();
    assert_eq!(at_nine.unit - nine, 63);
    let mut at_half = seconds.iter_with_ctx(utc(2023, 1, 3, 9, 30, 0));
    let half = at_half.unit;
    at_half.skip_time();
    assert_eq!(at_half.unit, half);
    let daily = rule("FREQ=HOURLY;BYHOUR=9", tuesday);
    let mut it = daily.iter_with_ctx(tuesday);
    let hour = it.unit;
    it.skip_time();
    assert_eq!(it.unit, hour);
    assert_eq!(it.next(), Some(utc(2023, 1, 3, 9, 0, 0)));
}
