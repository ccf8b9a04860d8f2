use rrule::{Instant, RRuleError, RRuleSet, Tz};

fn texts(dates: &[Instant]) -> Vec<String> {
    dates.iter().map(|d| d.to_rfc3339()).collect()
}

fn expand(text: &str, limit: u16) -> Vec<String> {
    texts(&text.parse::<RRuleSet>().unwrap().all(limit).dates)
}

fn utc(year: i64, month: i64, day: i64, hour: i64, minute: i64, second: i64) -> Instant {
    Instant::from_local(Tz::Utc, year, month, day, hour, minute, second).unwrap()
}

#[test]
fn output_is_strictly_ascending_without_duplicates() {
    let dates = "DTSTART:20230101T090000Z\nRRULE:FREQ=DAILY;COUNT=10\nRRULE:FREQ=WEEKLY;COUNT=3\nRDATE:20230103T090000Z,20230103T090000Z,20221231T090000Z"
        .parse::<RRuleSet>()
        .unwrap()
        .all(100)
        .dates;
    assert_eq!(dates.len(), 12);
    for pair in dates.windows(2) {
        assert!(pair[0].ts < pair[1].ts);
    }
    assert_eq!(dates[0].to_rfc3339(), "2022-12-31T09:00:00+00:00");
    assert_eq!(dates[1].to_rfc3339(), "2023-01-01T09:00:00+00:00");
    assert_eq!(dates[11].to_rfc3339(), "2023-01-15T09:00:00+00:00");
}

#[test]
fn explicit_instant_that_a_rule_also_gives_comes_once() {
    let got = expand(
        "DTSTART:20240530T200000Z\nRDATE:20240530T200000Z\nRRULE:FREQ=DAILY;COUNT=3",
        100,
    );
    assert_eq!(
        got,
        vec![
            "2024-05-30T20:00:00+00:00",
            "2024-05-31T20:00:00+00:00",
            "2024-06-01T20:00:00+00:00",
        ]
    );
}

#[test]
fn excluded_dates_and_rules_never_come_out() {
    let got = expand(
        "DTSTART:20230101T090000Z\nRRULE:FREQ=DAILY;COUNT=10\nEXDATE:20230103T090000Z\nEXRULE:FREQ=WEEKLY;BYDAY=SU",
        100,
    );
    assert_eq!(
        got,
        vec![
            "2023-01-02T09:00:00+00:00",
            "2023-01-04T09:00:00+00:00",
            "2023-01-05T09:00:00+00:00",
            "2023-01-06T09:00:00+00:00",
            "2023-01-07T09:00:00+00:00",
            "2023-01-09T09:00:00+00:00",
            "2023-01-10T09:00:00+00:00",
        ]
    );
}

#[test]
fn excluded_explicit_instant_is_dropped() {
    let got = expand(
        "DTSTART:20230101T090000Z\nRDATE:20230105T090000Z,20230106T090000Z\nEXDATE:20230105T090000Z",
        100,
    );
    assert_eq!(got, vec!["2023-01-06T09:00:00+00:00"]);
}

#[test]
fn count_gives_exactly_that_many() {
    assert_eq!(expand("DTSTART:20230101T090000Z\nRRULE:FREQ=DAILY;COUNT=5", 100).len(), 5);
    assert_eq!(expand("DTSTART:20230101T090000Z\nRRULE:FREQ=DAILY;COUNT=0", 100).len(), 0);
    assert_eq!(expand("DTSTART:20230101T090000Z\nRRULE:FREQ=DAILY;COUNT=1", 100).len(), 1);
}

#[test]
fn until_is_inclusive() {
    let got = expand("DTSTART:20230101T090000Z\nRRULE:FREQ=DAILY;UNTIL=20230105T090000Z", 100);
    assert_eq!(got.len(), 5);
    assert_eq!(got[4], "2023-01-05T09:00:00+00:00");
    let got = expand("DTSTART:20230101T090000Z\nRRULE:FREQ=DAILY;UNTIL=20230105T085959Z", 100);
    assert_eq!(got.len(), 4);
    assert_eq!(got[3], "2023-01-04T09:00:00+00:00");
}

#[test]
fn until_given_as_a_date_covers_the_whole_day() {
    let got = expand("DTSTART:20230101T090000Z\nRRULE:FREQ=DAILY;UNTIL=20230105", 100);
    assert_eq!(got.len(), 5);
    assert_eq!(got[4], "2023-01-05T09:00:00+00:00");
    let set = "DTSTART;TZID=Europe/Stockholm:20211217T120000\nRRULE:FREQ=DAILY;UNTIL=20211219"
        .parse::<RRuleSet>()
        .unwrap();
    let until = set.get_rrule()[0].until.unwrap();
    assert_eq!(until.to_rfc3339(), "2021-12-19T23:59:59+01:00");
}

#[test]
fn until_before_the_anchor_gives_nothing() {
    assert_eq!(
        expand("DTSTART:20230101T090000Z\nRRULE:FREQ=DAILY;UNTIL=20221231T090000Z", 100).len(),
        0
    );
}

#[test]
fn loop_guard_ends_the_iteration_with_an_error() {
    let set = "DTSTART:20230104T090000Z\nRRULE:FREQ=WEEKLY;BYDAY=WE\nEXRULE:FREQ=WEEKLY;BYDAY=WE"
        .parse::<RRuleSet>()
        .unwrap();
    let mut it = set.iter_with_limit(5);
    assert_eq!(it.next(), None);
    assert!(it.has_err());
    assert_eq!(it.get_err(), Some(RRuleError::IterError(5)));
    assert_eq!(it.next(), None);
    assert!(it.has_err());
}

#[test]
fn loop_guard_is_not_hit_when_some_candidates_remain() {
    let set = "DTSTART:20230104T090000Z\nRRULE:FREQ=WEEKLY;BYDAY=WE;COUNT=6\nEXRULE:FREQ=WEEKLY;BYDAY=WE;COUNT=4"
        .parse::<RRuleSet>()
        .unwrap();
    let mut it = set.iter_with_limit(5);
    assert_eq!(it.next().unwrap().to_rfc3339(), "2023-02-01T09:00:00+00:00");
    assert_eq!(it.next().unwrap().to_rfc3339(), "2023-02-08T09:00:00+00:00");
    assert_eq!(it.next(), None);
    assert!(!it.has_err());
}

#[test]
fn month_days_are_dropped_from_weekly_rules() {
    let with = expand("DTSTART:20230101T000000Z\nRRULE:FREQ=WEEKLY;BYMONTHDAY=25;BYDAY=SU", 10);
    let without = expand("DTSTART:20230101T000000Z\nRRULE:FREQ=WEEKLY;BYDAY=SU", 10);
    assert_eq!(with.len(), 10);
    assert_eq!(with, without);
}

#[test]
fn normalizing_twice_changes_nothing() {
    let start = utc(2023, 1, 1, 9, 30, 15);
    let raw = "FREQ=MONTHLY;BYYEARDAY=25".parse::<rrule::RRule>().unwrap();
    let once = raw.validate(start).unwrap();
    assert!(once.by_year_day.is_empty());
    assert_eq!(once.by_month_day, vec![1]);
    assert_eq!(once.by_hour, vec![9]);
    assert_eq!(once.by_minute, vec![30]);
    assert_eq!(once.by_second, vec![15]);
    let twice = once.duplicate().validate(start).unwrap();
    assert_eq!(once.to_string(), twice.to_string());
    assert_eq!(once.by_month, twice.by_month);
    assert_eq!(once.by_weekday, twice.by_weekday);
}

#[test]
fn defaults_come_from_the_anchor() {
    let start = utc(2023, 3, 15, 9, 30, 15);
    let yearly = "FREQ=YEARLY".parse::<rrule::RRule>().unwrap().validate(start).unwrap();
    assert_eq!(yearly.by_month, vec![3]);
    assert_eq!(yearly.by_month_day, vec![15]);
    let weekly = "FREQ=WEEKLY".parse::<rrule::RRule>().unwrap().validate(start).unwrap();
    assert_eq!(weekly.by_weekday, vec![rrule::NWeekday::Every(rrule::Weekday::Wed)]);
    let hourly = "FREQ=HOURLY".parse::<rrule::RRule>().unwrap().validate(start).unwrap();
    assert!(hourly.by_hour.is_empty());
    assert_eq!(hourly.by_minute, vec![30]);
    let secondly = "FREQ=SECONDLY".parse::<rrule::RRule>().unwrap().validate(start).unwrap();
    assert!(secondly.by_second.is_empty());
}

#[test]
fn wall_clock_time_skipped_by_the_clock_is_passed_over() {
    let got = expand("DTSTART;TZID=Europe/Berlin:20210327T023000\nRRULE:FREQ=DAILY;COUNT=3", 10);
    assert_eq!(
        got,
        vec![
            "2021-03-27T02:30:00+01:00",
            "2021-03-29T02:30:00+02:00",
            "2021-03-30T02:30:00+02:00",
        ]
    );
}

#[test]
fn wall_clock_time_that_comes_twice_is_taken_at_its_first() {
    let got = expand("DTSTART;TZID=Europe/Berlin:20211030T023000\nRRULE:FREQ=DAILY;COUNT=3", 10);
    assert_eq!(
        got,
        vec![
            "2021-10-30T02:30:00+02:00",
            "2021-10-31T02:30:00+02:00",
            "2021-11-01T02:30:00+01:00",
        ]
    );
}

#[test]
fn last_friday_of_each_month() {
    let got = expand("DTSTART:20230101T090000Z\nRRULE:FREQ=MONTHLY;BYDAY=-1FR;COUNT=3", 10);
    assert_eq!(
        got,
        vec![
            "2023-01-27T09:00:00+00:00",
            "2023-02-24T09:00:00+00:00",
            "2023-03-31T09:00:00+00:00",
        ]
    );
}

#[test]
fn second_tuesday_of_each_month() {
    let got = expand("DTSTART:20230101T090000Z\nRRULE:FREQ=MONTHLY;BYDAY=2TU;COUNT=3", 10);
    assert_eq!(
        got,
        vec![
            "2023-01-10T09:00:00+00:00",
            "2023-02-14T09:00:00+00:00",
            "2023-03-14T09:00:00+00:00",
        ]
    );
}

#[test]
fn twentieth_monday_of_each_year() {
    let got = expand("DTSTART:20230101T090000Z\nRRULE:FREQ=YEARLY;BYDAY=20MO;COUNT=2", 10);
    assert_eq!(got, vec!["2023-05-15T09:00:00+00:00", "2024-05-13T09:00:00+00:00"]);
}

#[test]
fn monday_of_the_first_week_of_each_year() {
    let got = expand("DTSTART:20230101T090000Z\nRRULE:FREQ=YEARLY;BYWEEKNO=1;BYDAY=MO;COUNT=3", 10);
    assert_eq!(
        got,
        vec![
            "2023-01-02T09:00:00+00:00",
            "2024-01-01T09:00:00+00:00",
            "2024-12-30T09:00:00+00:00",
        ]
    );
}

#[test]
fn last_day_of_each_year_and_month() {
    let got = expand("DTSTART:20230101T090000Z\nRRULE:FREQ=YEARLY;BYYEARDAY=-1;COUNT=2", 10);
    assert_eq!(got, vec!["2023-12-31T09:00:00+00:00", "2024-12-31T09:00:00+00:00"]);
    let got = expand("DTSTART:20230101T090000Z\nRRULE:FREQ=MONTHLY;BYMONTHDAY=-1;COUNT=3", 10);
    assert_eq!(
        got,
        vec![
            "2023-01-31T09:00:00+00:00",
            "2023-02-28T09:00:00+00:00",
            "2023-03-31T09:00:00+00:00",
        ]
    );
}

#[test]
fn days_that_a_month_lacks_give_nothing() {
    let got = expand("DTSTART:20230131T090000Z\nRRULE:FREQ=MONTHLY;COUNT=4", 10);
    assert_eq!(
        got,
        vec![
            "2023-01-31T09:00:00+00:00",
            "2023-03-31T09:00:00+00:00",
            "2023-05-31T09:00:00+00:00",
            "2023-07-31T09:00:00+00:00",
        ]
    );
    let got = expand("DTSTART:20200229T090000Z\nRRULE:FREQ=YEARLY;COUNT=3", 10);
    assert_eq!(
        got,
        vec![
            "2020-02-29T09:00:00+00:00",
            "2024-02-29T09:00:00+00:00",
            "2028-02-29T09:00:00+00:00",
        ]
    );
}

#[test]
fn finer_frequencies_step_on_the_wall_clock() {
    let got = expand("DTSTART:20230101T220000Z\nRRULE:FREQ=HOURLY;INTERVAL=3;COUNT=3", 10);
    assert_eq!(
        got,
        vec![
            "2023-01-01T22:00:00+00:00",
            "2023-01-02T01:00:00+00:00",
            "2023-01-02T04:00:00+00:00",
        ]
    );
    let got = expand("DTSTART:20230101T090000Z\nRRULE:FREQ=MINUTELY;INTERVAL=90;COUNT=3", 10);
    assert_eq!(
        got,
        vec![
            "2023-01-01T09:00:00+00:00",
            "2023-01-01T10:30:00+00:00",
            "2023-01-01T12:00:00+00:00",
        ]
    );
    let got = expand("DTSTART:20230101T090000Z\nRRULE:FREQ=SECONDLY;INTERVAL=30;COUNT=3", 10);
    assert_eq!(
        got,
        vec![
            "2023-01-01T09:00:00+00:00",
            "2023-01-01T09:00:30+00:00",
            "2023-01-01T09:01:00+00:00",
        ]
    );
}

#[test]
fn hours_listed_expand_each_day() {
    let got = expand("DTSTART:20230101T090000Z\nRRULE:FREQ=DAILY;BYHOUR=9,17;COUNT=4", 10);
    assert_eq!(
        got,
        vec![
            "2023-01-01T09:00:00+00:00",
            "2023-01-01T17:00:00+00:00",
            "2023-01-02T09:00:00+00:00",
            "2023-01-02T17:00:00+00:00",
        ]
    );
}

#[test]
fn hourly_rule_keeps_only_the_listed_hours() {
    let got = expand("DTSTART:20230101T090000Z\nRRULE:FREQ=HOURLY;BYHOUR=9,11;COUNT=3", 10);
    assert_eq!(
        got,
        vec![
            "2023-01-01T09:00:00+00:00",
            "2023-01-01T11:00:00+00:00",
            "2023-01-02T09:00:00+00:00",
        ]
    );
}

#[test]
fn first_weekday_of_each_month() {
    let got = expand(
        "DTSTART:20230101T090000Z\nRRULE:FREQ=MONTHLY;BYDAY=MO,TU,WE,TH,FR;BYSETPOS=1;COUNT=3",
        10,
    );
    assert_eq!(
        got,
        vec![
            "2023-01-02T09:00:00+00:00",
            "2023-02-01T09:00:00+00:00",
            "2023-03-01T09:00:00+00:00",
        ]
    );
}

#[test]
fn every_other_week() {
    let got = expand("DTSTART:20230102T090000Z\nRRULE:FREQ=WEEKLY;INTERVAL=2;COUNT=3", 10);
    assert_eq!(
        got,
        vec![
            "2023-01-02T09:00:00+00:00",
            "2023-01-16T09:00:00+00:00",
            "2023-01-30T09:00:00+00:00",
        ]
    );
}

#[test]
fn start_of_the_week_decides_which_weeks_are_taken() {
    let got = expand(
        "DTSTART:19970805T090000Z\nRRULE:FREQ=WEEKLY;INTERVAL=2;COUNT=4;BYDAY=TU,SU;WKST=MO",
        10,
    );
    assert_eq!(
        got,
        vec![
            "1997-08-05T09:00:00+00:00",
            "1997-08-10T09:00:00+00:00",
            "1997-08-19T09:00:00+00:00",
            "1997-08-24T09:00:00+00:00",
        ]
    );
    let got = expand(
        "DTSTART:19970805T090000Z\nRRULE:FREQ=WEEKLY;INTERVAL=2;COUNT=4;BYDAY=TU,SU;WKST=SU",
        10,
    );
    assert_eq!(
        got,
        vec![
            "1997-08-05T09:00:00+00:00",
            "1997-08-17T09:00:00+00:00",
            "1997-08-19T09:00:00+00:00",
            "1997-08-31T09:00:00+00:00",
        ]
    );
}

#[test]
fn window_takes_from_after_up_to_but_not_before() {
    let set = "DTSTART:20230101T090000Z\nRRULE:FREQ=DAILY;COUNT=10"
        .parse::<RRuleSet>()
        .unwrap()
        .after(utc(2023, 1, 3, 9, 0, 0))
        .before(utc(2023, 1, 6, 9, 0, 0));
    let found = set.all(100);
    assert!(!found.limited);
    assert_eq!(
        texts(&found.dates),
        vec![
            "2023-01-03T09:00:00+00:00",
            "2023-01-04T09:00:00+00:00",
            "2023-01-05T09:00:00+00:00",
        ]
    );
}

#[test]
fn collection_stops_at_its_bound() {
    let found = "DTSTART:20230101T090000Z\nRRULE:FREQ=DAILY"
        .parse::<RRuleSet>()
        .unwrap()
        .all(3);
    assert!(found.limited);
    assert_eq!(found.dates.len(), 3);
    let found = "DTSTART:20230101T090000Z\nRRULE:FREQ=DAILY;COUNT=2"
        .parse::<RRuleSet>()
        .unwrap()
        .all(3);
    assert!(!found.limited);
    assert_eq!(found.dates.len(), 2);
    let found = "DTSTART:20230101T090000Z\nRRULE:FREQ=DAILY;COUNT=2"
        .parse::<RRuleSet>()
        .unwrap()
        .all(0);
    assert!(found.limited);
    assert!(found.dates.is_empty());
}

#[test]
fn set_without_sources_is_empty() {
    let found = "DTSTART:20230101T090000Z".parse::<RRuleSet>().unwrap().all(10);
    assert!(found.dates.is_empty());
    assert!(!found.limited);
}

#[test]
fn instants_compare_by_their_second() {
    let berlin = Tz::named("Europe/Berlin").unwrap();
    let a = Instant::from_local(berlin, 2023, 7, 1, 12, 0, 0).unwrap();
    let b = utc(2023, 7, 1, 10, 0, 0);
    assert_eq!(a, b);
    assert_eq!(a.timestamp(), b.timestamp());
    assert_eq!(a.timezone(), berlin);
    assert_eq!(a.with_timezone(Tz::Utc).to_rfc3339(), "2023-07-01T10:00:00+00:00");
    assert_eq!(b.with_timezone(berlin).to_rfc3339(), "2023-07-01T12:00:00+02:00");
    assert!(a != utc(2023, 7, 1, 10, 0, 1));
    assert!(a < utc(2023, 7, 1, 10, 0, 1));
    assert!(a <= b && a >= b);
    assert!(utc(2023, 7, 1, 10, 0, 1) > b);
    assert_eq!(a.partial_cmp(&b), Some(std::cmp::Ordering::Equal));
}
