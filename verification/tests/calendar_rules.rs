use rrule::calendar::{
    civil_from_days, date_on, days_from_civil, days_in_month, days_in_year, first_week_start,
    is_leap_year, month_start, week_number, year_start, year_start_wide,
};
use rrule::instant::{local_seconds, wall_clock};
use rrule::{
    Frequency, Instant, NWeekday, RRule, RRuleError, RRuleSet, SyntaxError, Tz, ValidationError,
    Weekday,
};

#[test]
fn day_numbers_of_known_dates() {
    assert_eq!(days_from_civil(1, 1, 1), 0);
    assert_eq!(days_from_civil(1970, 1, 1), 719162);
    assert_eq!(days_from_civil(2000, 3, 1), 730179);
    assert_eq!(days_from_civil(9999, 12, 31), 3652058);
    assert_eq!(year_start(1970), 719162);
    assert_eq!(year_start(10000), 3652059);
    assert_eq!(year_start_wide(0), -366);
    assert_eq!(year_start_wide(1), 0);
    assert_eq!(month_start(2023, 3), 59);
    assert_eq!(month_start(2024, 3), 60);
    assert_eq!(month_start(2023, 13), 365);
}

#[test]
fn dates_of_known_day_numbers() {
    let d = civil_from_days(719162);
    assert_eq!((d.year, d.month, d.day), (1970, 1, 1));
    let d = civil_from_days(0);
    assert_eq!((d.year, d.month, d.day), (1, 1, 1));
    let d = civil_from_days(3652058);
    assert_eq!((d.year, d.month, d.day), (9999, 12, 31));
    let d = date_on(730178);
    assert_eq!((d.year, d.month, d.day), (2000, 2, 29));
    let d = date_on(days_from_civil(2023, 12, 31));
    assert_eq!((d.year, d.month, d.day), (2023, 12, 31));
}

#[test]
fn leap_years_and_lengths() {
    assert!(is_leap_year(2000));
    assert!(is_leap_year(2024));
    assert!(!is_leap_year(1900));
    assert!(!is_leap_year(2023));
    assert_eq!(days_in_year(2024), 366);
    assert_eq!(days_in_year(2023), 365);
    assert_eq!(days_in_month(2024, 2), 29);
    assert_eq!(days_in_month(2023, 2), 28);
    assert_eq!(days_in_month(2023, 4), 30);
    assert_eq!(days_in_month(2023, 12), 31);
}

#[test]
fn weekdays_of_known_dates() {
    assert_eq!(Weekday::from_number(0), Weekday::Mon);
    assert_eq!(Weekday::from_number(719162), Weekday::Thu);
    assert_eq!(Weekday::from_number(days_from_civil(2023, 1, 1)), Weekday::Sun);
    assert_eq!(Weekday::from_number(days_from_civil(2024, 5, 30)), Weekday::Thu);
    assert_eq!(Weekday::Sun.number(), 6);
    assert_eq!(Frequency::Secondly.order(), 6);
}

#[test]
fn week_numbers_of_known_dates() {
    assert_eq!(week_number(days_from_civil(2021, 1, 3), 2021, 0), (53, 53));
    assert_eq!(week_number(days_from_civil(2021, 1, 4), 2021, 0), (1, 52));
    assert_eq!(week_number(days_from_civil(2024, 12, 30), 2024, 0), (1, 52));
    assert_eq!(week_number(days_from_civil(2023, 6, 15), 2023, 0), (24, 52));
    assert_eq!(first_week_start(2023, 0), days_from_civil(2023, 1, 2));
    assert_eq!(first_week_start(2021, 0), days_from_civil(2021, 1, 4));
    assert_eq!(first_week_start(2023, 6), days_from_civil(2023, 1, 1));
}

#[test]
fn wall_clock_of_a_local_second() {
    let local = local_seconds(2023, 7, 1, 12, 34, 56);
    assert_eq!(local, days_from_civil(2023, 7, 1) * 86400 + 12 * 3600 + 34 * 60 + 56);
    let w = wall_clock(local);
    assert_eq!((w.date.year, w.date.month, w.date.day), (2023, 7, 1));
    assert_eq!((w.hour, w.minute, w.second), (12, 34, 56));
}

#[test]
fn instants_outside_the_supported_years_are_refused() {
    assert!(Instant::new(253402214399, Tz::Utc).is_some());
    assert!(Instant::new(253402214400, Tz::Utc).is_none());
    assert!(Instant::new(-62135510400, Tz::Utc).is_some());
    assert!(Instant::new(-62135510401, Tz::Utc).is_none());
    assert!(Instant::from_local(Tz::Utc, 2023, 2, 29, 0, 0, 0).is_none());
    assert!(Instant::from_local(Tz::Utc, 2023, 13, 1, 0, 0, 0).is_none());
    assert!(Instant::from_local(Tz::Utc, 2023, 1, 1, 24, 0, 0).is_none());
    assert!(Instant::from_local(Tz::Utc, 0, 1, 1, 0, 0, 0).is_none());
    assert_eq!(Instant::from_local(Tz::Utc, 1970, 1, 1, 0, 0, 10).unwrap().ts, 10);
}

fn violation(change: fn(&mut RRule)) -> Option<ValidationError> {
    let mut rule = RRule::new(Frequency::Yearly);
    change(&mut rule);
    rule.check().err()
}

#[test]
fn each_violation_is_reported() {
    let far = Instant { ts: i64::MAX, tz: Tz::Utc };
    let near = Instant { ts: 0, tz: Tz::Utc };
    assert_eq!(violation(|_| {}), None);
    assert_eq!(violation(|r| r.interval = 0), Some(ValidationError::ZeroInterval));
    assert_eq!(
        violation(|r| {
            r.count = Some(1);
            r.until = Some(Instant { ts: 0, tz: Tz::Utc });
        }),
        Some(ValidationError::CountAndUntil)
    );
    assert_eq!(near.ts, 0);
    assert_eq!(
        violation(|r| r.until = Some(Instant { ts: i64::MAX, tz: Tz::Utc })),
        Some(ValidationError::BadUntil)
    );
    assert_eq!(far.ts, i64::MAX);
    assert_eq!(
        violation(|r| {
            r.by_set_pos = vec![0];
            r.by_month = vec![1];
        }),
        Some(ValidationError::BadSetPos)
    );
    assert_eq!(violation(|r| r.by_set_pos = vec![1]), Some(ValidationError::SetPosAlone));
    assert_eq!(violation(|r| r.by_month = vec![13]), Some(ValidationError::BadMonth));
    assert_eq!(violation(|r| r.by_month = vec![0]), Some(ValidationError::BadMonth));
    assert_eq!(violation(|r| r.by_month_day = vec![32]), Some(ValidationError::BadMonthDay));
    assert_eq!(violation(|r| r.by_month_day = vec![0]), Some(ValidationError::BadMonthDay));
    assert_eq!(violation(|r| r.by_year_day = vec![-367]), Some(ValidationError::BadYearDay));
    assert_eq!(violation(|r| r.by_week_no = vec![54]), Some(ValidationError::BadWeekNo));
    assert_eq!(
        violation(|r| {
            r.freq = Frequency::Monthly;
            r.by_week_no = vec![1];
        }),
        Some(ValidationError::WeekNoNeedsYearly)
    );
    assert_eq!(
        violation(|r| {
            r.freq = Frequency::Weekly;
            r.by_weekday = vec![NWeekday::Nth(1, Weekday::Mon)];
        }),
        Some(ValidationError::BadWeekdayOrdinal)
    );
    assert_eq!(
        violation(|r| {
            r.freq = Frequency::Monthly;
            r.by_weekday = vec![NWeekday::Nth(6, Weekday::Mon)];
        }),
        Some(ValidationError::BadWeekdayOrdinal)
    );
    assert_eq!(
        violation(|r| r.by_weekday = vec![NWeekday::Nth(0, Weekday::Mon)]),
        Some(ValidationError::BadWeekdayOrdinal)
    );
    assert_eq!(violation(|r| r.by_weekday = vec![NWeekday::Nth(-53, Weekday::Mon)]), None);
    assert_eq!(violation(|r| r.by_hour = vec![24]), Some(ValidationError::BadHour));
    assert_eq!(violation(|r| r.by_minute = vec![60]), Some(ValidationError::BadMinute));
    assert_eq!(violation(|r| r.by_second = vec![-1]), Some(ValidationError::BadSecond));
}

#[test]
fn first_violation_wins() {
    assert_eq!(
        violation(|r| {
            r.interval = 0;
            r.by_month = vec![13];
            r.by_hour = vec![99];
        }),
        Some(ValidationError::ZeroInterval)
    );
    assert_eq!(
        violation(|r| {
            r.by_month = vec![13];
            r.by_hour = vec![99];
        }),
        Some(ValidationError::BadMonth)
    );
}

#[test]
fn validation_error_comes_out_of_the_set() {
    let got = "DTSTART:20230101T000000Z\nRRULE:FREQ=DAILY;COUNT=3;UNTIL=20230105T000000Z"
        .parse::<RRuleSet>()
        .err();
    assert_eq!(got, Some(RRuleError::ValidationError(ValidationError::CountAndUntil)));
    let got = "DTSTART:20230101T000000Z\nRRULE:FREQ=DAILY;INTERVAL=0".parse::<RRuleSet>().err();
    assert_eq!(got, Some(RRuleError::ValidationError(ValidationError::ZeroInterval)));
    let got = "DTSTART:20230101T000000Z\nEXRULE:FREQ=DAILY;BYHOUR=25".parse::<RRuleSet>().err();
    assert_eq!(got, Some(RRuleError::ValidationError(ValidationError::BadHour)));
}

fn syntax(text: &str) -> Option<RRuleError> {
    text.parse::<RRuleSet>().err()
}

#[test]
fn each_syntax_error_is_reported() {
    let e = |s: SyntaxError| Some(RRuleError::ParserError(s));
    assert_eq!(syntax("DTSTART:20230101T000000Z\nRRULE:FREQ=DAILY"), None);
    assert_eq!(syntax("DTSTART:2023\u{e9}"), e(SyntaxError::NotAscii));
    assert_eq!(syntax("RRULE:FREQ=DAILY"), e(SyntaxError::MissingStart));
    assert_eq!(syntax(""), e(SyntaxError::MissingStart));
    assert_eq!(syntax("DTSTART:20230101T000000Z\nRRULE"), e(SyntaxError::MissingColon));
    assert_eq!(syntax("DTSTART:20230101T000000Z\nFOO:bar"), e(SyntaxError::UnknownProperty));
    assert_eq!(syntax("DTSTART:2023"), e(SyntaxError::BadDate));
    assert_eq!(syntax("DTSTART:20230230T000000Z"), e(SyntaxError::BadDate));
    assert_eq!(syntax("DTSTART:20230101X000000Z"), e(SyntaxError::BadDate));
    assert_eq!(syntax("DTSTART:20230101T000000Y"), e(SyntaxError::BadDate));
    assert_eq!(syntax("DTSTART:20230101T000000Z\nRDATE:2023"), e(SyntaxError::BadDate));
    assert_eq!(
        syntax("DTSTART:20230101T000000Z\nRRULE:FREQ=DAILY;UNTIL=x"),
        e(SyntaxError::BadDate)
    );
    assert_eq!(
        syntax("DTSTART;TZID=Mars/Phobos:20230101T000000"),
        e(SyntaxError::UnknownZone)
    );
    assert_eq!(
        syntax("DTSTART:20230101T000000Z\nRRULE:FREQ=DAILY;COUNT"),
        e(SyntaxError::BadRulePart)
    );
    assert_eq!(
        syntax("DTSTART:20230101T000000Z\nRRULE:FREQ=DAILY;BYFOO=1"),
        e(SyntaxError::UnknownRulePart)
    );
    assert_eq!(
        syntax("DTSTART:20230101T000000Z\nRRULE:FREQ=SOMETIMES"),
        e(SyntaxError::BadFrequency)
    );
    assert_eq!(
        syntax("DTSTART:20230101T000000Z\nRRULE:FREQ=DAILY;COUNT=abc"),
        e(SyntaxError::BadNumber)
    );
    assert_eq!(
        syntax("DTSTART:20230101T000000Z\nRRULE:FREQ=DAILY;INTERVAL=70000"),
        e(SyntaxError::BadNumber)
    );
    assert_eq!(
        syntax("DTSTART:20230101T000000Z\nRRULE:FREQ=DAILY;COUNT=1234567890"),
        e(SyntaxError::BadNumber)
    );
    assert_eq!(
        syntax("DTSTART:20230101T000000Z\nRRULE:FREQ=DAILY;BYHOUR=1,,2"),
        e(SyntaxError::BadNumber)
    );
    assert_eq!(
        syntax("DTSTART:20230101T000000Z\nRRULE:FREQ=DAILY;BYDAY=XX"),
        e(SyntaxError::BadWeekday)
    );
    assert_eq!(
        syntax("DTSTART:20230101T000000Z\nRRULE:FREQ=DAILY;WKST=M"),
        e(SyntaxError::BadWeekday)
    );
    assert_eq!(
        syntax("DTSTART:20230101T000000Z\nRRULE:COUNT=3"),
        e(SyntaxError::MissingFrequency)
    );
}

#[test]
fn lines_and_parts_are_read_as_written() {
    let set = "DTSTART;VALUE=DATE-TIME;TZID=Europe/Berlin:20240530T200000\r\n\r\nRRULE:FREQ=WEEKLY;COUNT=3;COUNT=4;INTERVAL=2;WKST=SU;BYDAY=+1MO,-2TU,WE;BYSETPOS=-1,1;BYMONTH=1,2;BYHOUR=3;BYMINUTE=4;BYSECOND=5\r\nEXDATE;TZID=UTC:20240601T000000,20240602\r\nRDATE:20240603T010203Z\r\n"
        .parse::<RRuleSet>();
    assert_eq!(
        set.err(),
        Some(RRuleError::ValidationError(ValidationError::BadWeekdayOrdinal))
    );
    let set = "DTSTART;VALUE=DATE-TIME;TZID=Europe/Berlin:20240530T200000\r\n\r\nRRULE:FREQ=MONTHLY;COUNT=3;COUNT=4;INTERVAL=2;WKST=SU;BYDAY=+1MO,-2TU,WE;BYSETPOS=-1,1;BYMONTH=1,2;BYHOUR=3;BYMINUTE=4;BYSECOND=5\r\nEXDATE;TZID=UTC:20240601T000000,20240602\r\nRDATE:20240603T010203Z\r\n"
        .parse::<RRuleSet>()
        .unwrap();
    assert_eq!(set.get_dt_start().to_rfc3339(), "2024-05-30T20:00:00+02:00");
    let rule = &set.get_rrule()[0];
    assert_eq!(rule.freq, Frequency::Monthly);
    assert_eq!(rule.count, Some(4));
    assert_eq!(rule.interval, 2);
    assert_eq!(rule.week_start, Weekday::Sun);
    assert_eq!(
        rule.by_weekday,
        vec![
            NWeekday::Nth(1, Weekday::Mon),
            NWeekday::Nth(-2, Weekday::Tue),
            NWeekday::Every(Weekday::Wed),
        ]
    );
    assert_eq!(rule.by_set_pos, vec![-1, 1]);
    assert_eq!(rule.by_month, vec![1, 2]);
    assert_eq!((&rule.by_hour, &rule.by_minute, &rule.by_second), (&vec![3], &vec![4], &vec![5]));
    assert!(set.get_exrule().is_empty());
    assert_eq!(set.get_exdate().len(), 2);
    assert_eq!(set.get_exdate()[0].to_rfc3339(), "2024-06-01T00:00:00+00:00");
    assert_eq!(set.get_exdate()[1].to_rfc3339(), "2024-06-02T00:00:00+00:00");
    assert_eq!(set.get_rdate().len(), 1);
    assert_eq!(set.get_rdate()[0].ts, 1717376523);
}

#[test]
fn rule_is_written_as_text() {
    let mut rule = RRule::new(Frequency::Weekly);
    assert_eq!(rule.to_string(), "FREQ=WEEKLY");
    rule.interval = 2;
    rule.count = Some(10);
    rule.week_start = Weekday::Sun;
    rule.by_set_pos = vec![-1];
    rule.by_month = vec![1, 12];
    rule.by_month_day = vec![-1, 15];
    rule.by_year_day = vec![100];
    rule.by_week_no = vec![20];
    rule.by_weekday = vec![NWeekday::Every(Weekday::Mon), NWeekday::Nth(-2, Weekday::Fri)];
    rule.by_hour = vec![0, 23];
    rule.by_minute = vec![5];
    rule.by_second = vec![59];
    assert_eq!(
        rule.to_string(),
        "FREQ=WEEKLY;COUNT=10;INTERVAL=2;WKST=SU;BYSETPOS=-1;BYMONTH=1,12;BYMONTHDAY=-1,15;BYYEARDAY=100;BYWEEKNO=20;BYDAY=MO,-2FR;BYHOUR=0,23;BYMINUTE=5;BYSECOND=59"
    );
    let mut rule = RRule::new(Frequency::Daily);
    rule.until = Instant::from_local(Tz::Utc, 2023, 1, 4, 5, 6, 7);
    assert_eq!(rule.to_string(), "FREQ=DAILY;UNTIL=20230104T050607Z");
    let berlin = Tz::named("Europe/Berlin").unwrap();
    rule.until = Instant::from_local(berlin, 987, 7, 1, 0, 30, 0);
    assert_eq!(rule.to_string().len(), "FREQ=DAILY;UNTIL=09870630T233000Z".len());
}
