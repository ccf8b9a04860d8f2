use rrule::generator::recurrences_between;
use rrule::parse::{
    apply_line, apply_part, content_end, line_end, parse_nweekday, parse_rule, parse_rule_parts,
    parse_set, parse_stamp, parse_start, parse_zone, Stamp,
};
use rrule::{
    Frequency, Instant, NWeekday, RRule, RRuleError, RRuleSet, SyntaxError, Tz, ValidationError,
    Weekday,
};

fn utc(year: i64, month: i64, day: i64, hour: i64, minute: i64, second: i64) -> Instant {
    Instant::from_local(Tz::Utc, year, month, day, hour, minute, second).unwrap()
}

#[test]
fn lines_end_at_the_line_feed() {
    let b = b"ab\r\ncd\n\nef";
    assert_eq!(line_end(b, 0), 3);
    assert_eq!(content_end(b, 0, 3), 2);
    assert_eq!(line_end(b, 4), 6);
    assert_eq!(content_end(b, 4, 6), 6);
    assert_eq!(line_end(b, 7), 7);
    assert_eq!(content_end(b, 7, 7), 7);
    assert_eq!(line_end(b, 8), 10);
    assert_eq!(content_end(b, 8, 10), 10);
    assert_eq!(content_end(b"\r", 0, 1), 0);
}

#[test]
fn zone_is_taken_from_the_parameters() {
    let text = "RDATE;VALUE=DATE;TZID=Europe/Berlin;X=1:20230101";
    let b = text.as_bytes();
    let berlin = Tz::named("Europe/Berlin").unwrap();
    assert_eq!(parse_zone(text, b, 5, 38), Ok(Some(berlin)));
    assert_eq!(parse_zone(text, b, 5, 16), Ok(None));
    assert_eq!(parse_zone(text, b, 5, 5), Ok(None));
    let text = "RDATE;TZID=UTC:20230101";
    assert_eq!(parse_zone(text, text.as_bytes(), 5, 14), Ok(Some(Tz::Utc)));
    let text = "RDATE;TZID=Nowhere:20230101";
    assert_eq!(parse_zone(text, text.as_bytes(), 5, 18), Err(SyntaxError::UnknownZone));
    let text = "RDATE;TZID=:20230101";
    assert_eq!(parse_zone(text, text.as_bytes(), 5, 11), Err(SyntaxError::UnknownZone));
    let text = "RDATE;TZI=UTC;tzid=UTC:20230101";
    assert_eq!(parse_zone(text, text.as_bytes(), 5, 22), Ok(None));
}

#[test]
fn anchor_is_read_from_its_line() {
    let text = "RRULE:FREQ=DAILY\nDTSTART;TZID=Europe/Berlin:20230701T120000\nDTSTART:20240101T000000Z";
    let got = parse_start(text, text.as_bytes()).unwrap();
    assert_eq!(got.to_rfc3339(), "2023-07-01T12:00:00+02:00");
    let text = "DTSTART\nDTSTART:20240101T000000Z";
    let got = parse_start(text, text.as_bytes()).unwrap();
    assert_eq!(got, utc(2024, 1, 1, 0, 0, 0));
    assert_eq!(got.tz, Tz::Utc);
    let text = "DTSTARTS:20240101T000000Z";
    assert_eq!(parse_start(text, text.as_bytes()), Err(SyntaxError::MissingStart));
    let text = "DTSTART;TZID=Europe/Berlin:20210328T023000";
    assert_eq!(parse_start(text, text.as_bytes()), Err(SyntaxError::BadDate));
    let text = "DTSTART:20240101";
    assert_eq!(parse_start(text, text.as_bytes()).unwrap().tz, Tz::Local);
}

#[test]
fn weekday_with_its_ordinal_is_read() {
    assert_eq!(parse_nweekday(b"FR", 0, 2), Some(NWeekday::Every(Weekday::Fri)));
    assert_eq!(parse_nweekday(b"-12FR", 0, 5), Some(NWeekday::Nth(-12, Weekday::Fri)));
    assert_eq!(parse_nweekday(b"3SA", 0, 3), Some(NWeekday::Nth(3, Weekday::Sat)));
    assert_eq!(parse_nweekday(b"F", 0, 1), None);
    assert_eq!(parse_nweekday(b"", 0, 0), None);
    assert_eq!(parse_nweekday(b"1.FR", 0, 4), None);
    assert_eq!(parse_nweekday(b"-FR", 0, 3), None);
}

#[test]
fn parts_are_read_into_a_rule() {
    let mut rule = RRule::new(Frequency::Yearly);
    let mut seen = false;
    let b = b"COUNT=5;FREQ=DAILY;BYHOUR=1,2;NOPE;X=1;BYDAY=1";
    assert_eq!(apply_part(&mut rule, &mut seen, b, 0, 7, Tz::Utc), Ok(()));
    assert_eq!(rule.count, Some(5));
    assert!(!seen);
    assert_eq!(apply_part(&mut rule, &mut seen, b, 8, 18, Tz::Utc), Ok(()));
    assert_eq!(rule.freq, Frequency::Daily);
    assert!(seen);
    assert_eq!(apply_part(&mut rule, &mut seen, b, 19, 29, Tz::Utc), Ok(()));
    assert_eq!(rule.by_hour, vec![1, 2]);
    assert_eq!(
        apply_part(&mut rule, &mut seen, b, 30, 34, Tz::Utc),
        Err(SyntaxError::BadRulePart)
    );
    assert_eq!(
        apply_part(&mut rule, &mut seen, b, 35, 38, Tz::Utc),
        Err(SyntaxError::UnknownRulePart)
    );
    assert_eq!(
        apply_part(&mut rule, &mut seen, b, 39, 46, Tz::Utc),
        Err(SyntaxError::BadWeekday)
    );
    assert_eq!(rule.to_string(), "FREQ=DAILY;COUNT=5;BYHOUR=1,2");
    let berlin = Tz::named("Europe/Berlin").unwrap();
    let b = b"UNTIL=20230701";
    assert_eq!(apply_part(&mut rule, &mut seen, b, 0, 14, berlin), Ok(()));
    assert_eq!(rule.until.unwrap().to_rfc3339(), "2023-07-01T23:59:59+02:00");
}

#[test]
fn rule_is_read_part_by_part() {
    let b = b";;FREQ=WEEKLY;;WKST=TU;BYSETPOS=1;BYMONTH=2;BYMONTHDAY=3;BYYEARDAY=4;BYWEEKNO=5;BYMINUTE=6;BYSECOND=7;FREQ=MONTHLY;";
    let rule = parse_rule_parts(b, 0, b.len(), Tz::Utc).unwrap();
    assert_eq!(
        rule.to_string(),
        "FREQ=MONTHLY;WKST=TU;BYSETPOS=1;BYMONTH=2;BYMONTHDAY=3;BYYEARDAY=4;BYWEEKNO=5;BYMINUTE=6;BYSECOND=7"
    );
    assert_eq!(parse_rule_parts(b, 0, 2, Tz::Utc).err(), Some(SyntaxError::MissingFrequency));
    assert_eq!(parse_rule_parts(b, 0, 0, Tz::Utc).err(), Some(SyntaxError::MissingFrequency));
    let rule = parse_rule("FREQ=DAILY\r\nCOUNT=3").unwrap();
    assert_eq!(rule.count, None);
    let rule = parse_rule("X:Y:FREQ=DAILY").err();
    assert_eq!(rule, Some(RRuleError::ParserError(SyntaxError::BadNumber)));
    let rule = parse_rule("RRULE:FREQ=DAILY;COUNT").err();
    assert_eq!(rule, Some(RRuleError::ParserError(SyntaxError::BadRulePart)));
}

#[test]
fn line_is_read_into_a_set() {
    let start = utc(2023, 1, 1, 9, 0, 0);
    let read = |set: RRuleSet, line: &str| apply_line(set, line, line.as_bytes(), 0, line.len());
    let set = read(RRuleSet::new(start), "RRULE:FREQ=DAILY;COUNT=2").unwrap();
    assert_eq!(set.get_rrule().len(), 1);
    assert_eq!(set.get_rrule()[0].by_hour, vec![9]);
    let set = read(set, "EXRULE;X=Y:FREQ=WEEKLY").unwrap();
    assert_eq!(set.get_exrule().len(), 1);
    assert_eq!(set.get_exrule()[0].by_weekday, vec![NWeekday::Every(Weekday::Sun)]);
    let set = read(set, "RDATE:20230105T090000,20230106").unwrap();
    assert_eq!(set.get_rdate(), &vec![utc(2023, 1, 5, 9, 0, 0), utc(2023, 1, 6, 0, 0, 0)]);
    let set = read(set, "EXDATE;TZID=Europe/Berlin:20230105T100000").unwrap();
    assert_eq!(set.get_exdate(), &vec![utc(2023, 1, 5, 9, 0, 0)]);
    let set = read(set, "DTSTART:19990101T000000Z").unwrap();
    assert_eq!(set.get_dt_start(), &start);
    let e = |s: SyntaxError| Some(RRuleError::ParserError(s));
    assert_eq!(read(RRuleSet::new(start), "RRULE").err(), e(SyntaxError::MissingColon));
    assert_eq!(read(RRuleSet::new(start), "RRULES:1").err(), e(SyntaxError::UnknownProperty));
    assert_eq!(read(RRuleSet::new(start), "RDATE:1,2").err(), e(SyntaxError::BadDate));
    assert_eq!(
        read(RRuleSet::new(start), "RDATE;TZID=No/Where:20230101").err(),
        e(SyntaxError::UnknownZone)
    );
    assert_eq!(
        read(RRuleSet::new(start), "EXRULE:FREQ=DAILY;BYMONTH=0").err(),
        Some(RRuleError::ValidationError(ValidationError::BadMonth))
    );
}

#[test]
fn set_is_read_line_by_line() {
    let set = parse_set("\n\nRRULE:FREQ=DAILY;COUNT=2\n\nDTSTART:20230101T090000Z\nRDATE:20230110T090000Z\n")
        .unwrap();
    assert_eq!(set.get_dt_start(), &utc(2023, 1, 1, 9, 0, 0));
    assert_eq!(set.get_rrule().len(), 1);
    assert_eq!(set.get_rdate().len(), 1);
    assert!(set.after.is_none() && set.before.is_none());
    assert_eq!(set.all(10).dates.len(), 3);
}

#[test]
fn recurrences_of_a_set_as_text() {
    let set = parse_set("DTSTART:20230101T090000Z\nRRULE:FREQ=DAILY\nEXRULE:FREQ=DAILY;COUNT=1")
        .unwrap();
    let got = recurrences_between(
        set,
        "2023-01-01T00:00:00+00:00",
        "2023-02-01T00:00:00+00:00",
        Some(3),
    );
    assert_eq!(
        got,
        Ok(vec![
            "2023-01-02T09:00:00+00:00".to_string(),
            "2023-01-03T09:00:00+00:00".to_string(),
        ])
    );
    let set = parse_set("DTSTART:20230101T090000Z\nRRULE:FREQ=DAILY").unwrap();
    let got = recurrences_between(set, "2023-01-01T00:00:00+00:00", "soon", None);
    assert_eq!(got, Err(RRuleError::ParserError(SyntaxError::BadDate)));
}

#[test]
fn stamp_is_read_as_it_is_written() {
    let date = Stamp {
        year: 2023,
        month: 7,
        day: 1,
        hour: 0,
        minute: 0,
        second: 0,
        utc: false,
        date_only: true,
    };
    assert_eq!(parse_stamp(b"20230701", 0, 8), Some(date));
    let time = Stamp { hour: 12, minute: 34, second: 56, date_only: false, ..date };
    assert_eq!(parse_stamp(b"20230701T123456", 0, 15), Some(time));
    assert_eq!(parse_stamp(b"20230701T123456Z", 0, 16), Some(Stamp { utc: true, ..time }));
    let odd = Stamp { month: 13, day: 99, hour: 25, minute: 61, second: 61, ..time };
    assert_eq!(parse_stamp(b"20231399T256161", 0, 15), Some(odd));
    assert_eq!(parse_stamp(b"20230701T123456Y", 0, 16), None);
    assert_eq!(parse_stamp(b"20230701X123456", 0, 15), None);
    assert_eq!(parse_stamp(b"2023070", 0, 7), None);
    assert_eq!(parse_stamp(b"2023-7-1", 0, 8), None);
    assert_eq!(parse_stamp(b"20230701T12345", 0, 14), None);
    assert_eq!(parse_stamp(b"", 0, 0), None);
    assert_eq!(parse_stamp(b"x20230701x", 1, 9), Some(date));
}

#[test]
fn stamp_stands_for_an_instant() {
    let berlin = Tz::named("Europe/Berlin").unwrap();
    let date = parse_stamp(b"20230701", 0, 8).unwrap();
    assert_eq!(date.instant(berlin, false).unwrap().to_rfc3339(), "2023-07-01T00:00:00+02:00");
    assert_eq!(date.instant(berlin, true).unwrap().to_rfc3339(), "2023-07-01T23:59:59+02:00");
    let time = parse_stamp(b"20230701T123456", 0, 15).unwrap();
    assert_eq!(time.instant(berlin, true).unwrap().to_rfc3339(), "2023-07-01T12:34:56+02:00");
    assert_eq!(time.instant(Tz::Utc, false), Some(utc(2023, 7, 1, 12, 34, 56)));
    let zulu = parse_stamp(b"20230701T123456Z", 0, 16).unwrap();
    assert_eq!(zulu.instant(berlin, false).unwrap().to_rfc3339(), "2023-07-01T12:34:56+00:00");
    assert_eq!(zulu.instant(Tz::Local, false), Some(utc(2023, 7, 1, 12, 34, 56)));
    let odd = parse_stamp(b"20230230T000000Z", 0, 16).unwrap();
    assert_eq!(odd.instant(Tz::Utc, false), None);
    assert_eq!(odd.instant(Tz::Local, false), None);
    let late = parse_stamp(b"20230701T240000", 0, 15).unwrap();
    assert_eq!(late.instant(Tz::Local, false), None);
    let gap = parse_stamp(b"20210328T023000", 0, 15).unwrap();
    assert_eq!(gap.instant(berlin, false), None);
    assert!(gap.instant(Tz::Utc, false).is_some());
}

#[test]
fn rule_from_text_gives_what_its_parts_stand_for() {
    let rule: RRule = "RRULE:FREQ=MONTHLY;INTERVAL=3;UNTIL=20230701T123456Z;BYMONTHDAY=1,-1"
        .parse()
        .unwrap();
    assert_eq!(rule.freq, Frequency::Monthly);
    assert_eq!(rule.interval, 3);
    assert_eq!(rule.count, None);
    assert_eq!(rule.until, Some(utc(2023, 7, 1, 12, 34, 56)));
    assert_eq!(rule.until.unwrap().tz, Tz::Utc);
    assert_eq!(rule.week_start, Weekday::Mon);
    assert_eq!(rule.by_month_day, vec![1, -1]);
    assert!(rule.by_month.is_empty() && rule.by_hour.is_empty() && rule.by_weekday.is_empty());
    let rule: RRule = "FREQ=DAILY".parse().unwrap();
    assert_eq!(rule.to_string(), "FREQ=DAILY");
    let got: Result<RRule, RRuleError> = "FREQ=DAILY;UNTIL=20230701T123456Y".parse();
    assert_eq!(got.err(), Some(RRuleError::ParserError(SyntaxError::BadDate)));
    let got: Result<RRule, RRuleError> = "FREQ=DAILY;UNTIL=20230230T000000Z".parse();
    assert_eq!(got.err(), Some(RRuleError::ParserError(SyntaxError::BadDate)));
    let got: Result<RRule, RRuleError> = "INTERVAL=2".parse();
    assert_eq!(got.err(), Some(RRuleError::ParserError(SyntaxError::MissingFrequency)));
}

#[test]
fn rule_from_text_with_an_until_on_the_wall_clock() {
    let rule: RRule = "FREQ=WEEKLY;UNTIL=20230701T120000;COUNT=5;BYDAY=MO".parse().unwrap();
    assert_eq!(rule.freq, Frequency::Weekly);
    assert_eq!(rule.count, Some(5));
    assert_eq!(rule.by_weekday, vec![NWeekday::Every(Weekday::Mon)]);
    let until = rule.until.unwrap();
    assert_eq!(until.tz, Tz::Local);
    assert!(until.to_rfc3339().starts_with("2023-07-01T12:00:00"));
    let rule: RRule = "FREQ=WEEKLY;UNTIL=20230701".parse().unwrap();
    assert!(rule.until.unwrap().to_rfc3339().starts_with("2023-07-01T23:59:59"));
    let got: Result<RRule, RRuleError> = "FREQ=WEEKLY;UNTIL=20230732;COUNT=x".parse();
    assert_eq!(got.err(), Some(RRuleError::ParserError(SyntaxError::BadDate)));
    let got: Result<RRule, RRuleError> = "FREQ=WEEKLY;UNTIL=20230701;COUNT=x".parse();
    assert_eq!(got.err(), Some(RRuleError::ParserError(SyntaxError::BadNumber)));
}

#[test]
fn set_from_text_gives_what_the_grammar_says() {
    let text = "DTSTART;TZID=Europe/Berlin:20230101T090000\nRRULE:FREQ=DAILY;UNTIL=20230103;BYHOUR=9,10\nEXDATE:20230102T090000";
    let set: RRuleSet = text.parse().unwrap();
    let same = parse_set(text).unwrap();
    assert_eq!(set.get_dt_start(), same.get_dt_start());
    assert_eq!(set.get_dt_start().to_rfc3339(), "2023-01-01T09:00:00+01:00");
    assert!(set.after.is_none() && set.before.is_none());
    assert_eq!(set.get_rrule().len(), 1);
    let rule = &set.get_rrule()[0];
    assert_eq!(rule.until.unwrap().to_rfc3339(), "2023-01-03T23:59:59+01:00");
    assert_eq!((&rule.by_hour, &rule.by_minute, &rule.by_second), (&vec![9, 10], &vec![0], &vec![0]));
    assert_eq!(set.get_exdate().len(), 1);
    assert_eq!(set.get_exdate()[0].to_rfc3339(), "2023-01-02T09:00:00+01:00");
    let dates: Vec<String> = set.all(10).dates.iter().map(|d| d.to_rfc3339()).collect();
    assert_eq!(
        dates,
        vec![
            "2023-01-01T09:00:00+01:00",
            "2023-01-01T10:00:00+01:00",
            "2023-01-02T10:00:00+01:00",
            "2023-01-03T09:00:00+01:00",
            "2023-01-03T10:00:00+01:00",
        ]
    );
    let got: Result<RRuleSet, RRuleError> = "DTSTART;TZID=No/Where:20230101T090000".parse();
    assert_eq!(got.err(), Some(RRuleError::ParserError(SyntaxError::UnknownZone)));
    let got: Result<RRuleSet, RRuleError> = "RRULE:FREQ=DAILY\u{e9}".parse();
    assert_eq!(got.err(), Some(RRuleError::ParserError(SyntaxError::NotAscii)));
}
