use chrono::{Datelike, TimeZone, Timelike};
use jot::time_infer::{infer_future_time, infer_future_time_from_datetime, parse_time, phrase_words};
use jot::timestamp::Timestamp;

fn parse(text: &str) -> Timestamp {
    Timestamp::parse_from_rfc3339(text).unwrap()
}

#[test]
fn test_infer_future_time() {
    let now_str = "2020-04-04T10:30:00-05:00";
    let now = parse(now_str);

    assert_eq!(
        Some(now.plus_seconds(chrono::Duration::hours(1).num_seconds()).unwrap()),
        infer_future_time_from_datetime("in 1 hour", now)
    );
    assert_eq!(
        Some(parse("2020-04-06T00:00:00-05:00")),
        infer_future_time_from_datetime("monday", now)
    );

    assert_eq!(
        Some(parse("2020-04-06T13:00:00-05:00")),
        infer_future_time_from_datetime("monday at 1", now)
    );

    assert_eq!(
        Some(parse("2020-04-06T01:00:00-05:00")),
        infer_future_time_from_datetime("monday at 1am", now)
    );

    assert_eq!(
        Some(parse("2020-04-06T01:45:00-05:00")),
        infer_future_time_from_datetime("monday at 1:45am", now)
    );

    assert_eq!(
        Some(parse("2020-04-10T12:00:00-05:00")),
        infer_future_time_from_datetime("friday at noon", now)
    );
}

#[test]
fn in_one_hour_is_an_hour_later() {
    let now = parse("2020-04-04T10:30:00-05:00");
    assert_eq!(
        infer_future_time_from_datetime("in 1 hour", now),
        Some(parse("2020-04-04T11:30:00-05:00"))
    );
}

#[test]
fn amounts_and_units() {
    let now = parse("2020-04-04T10:30:00-05:00");
    let infer = |phrase: &str| infer_future_time_from_datetime(phrase, now);
    assert_eq!(infer("3 days from now"), Some(parse("2020-04-07T10:30:00-05:00")));
    assert_eq!(infer("in 2 minutes"), Some(parse("2020-04-04T10:32:00-05:00")));
    assert_eq!(infer("1 minute"), Some(parse("2020-04-04T10:31:00-05:00")));
    assert_eq!(infer("48 hours"), Some(parse("2020-04-06T10:30:00-05:00")));
    assert_eq!(infer("+1 day"), Some(parse("2020-04-05T10:30:00-05:00")));
    assert_eq!(infer("-1 day"), Some(parse("2020-04-03T10:30:00-05:00")));
    // Weeks are no unit, and two words are no time of day.
    assert_eq!(infer("1 week"), None);
    assert_eq!(infer("2 weeks"), None);
    assert_eq!(infer("1 hour or two"), None);
    assert_eq!(infer("1 hour at"), Some(parse("2020-04-04T11:30:00-05:00")));
    assert_eq!(infer("some hours"), None);
    assert_eq!(infer("3000000 days"), None);
    assert_eq!(infer("9223372036854775807 days"), None);
}

#[test]
fn days_of_the_week() {
    // A Saturday.
    let now = parse("2020-04-04T10:30:00-05:00");
    let infer = |phrase: &str| infer_future_time_from_datetime(phrase, now);
    assert_eq!(infer("tomorrow"), Some(parse("2020-04-05T00:00:00-05:00")));
    assert_eq!(infer("sunday"), Some(parse("2020-04-05T00:00:00-05:00")));
    assert_eq!(infer("on saturday"), Some(parse("2020-04-11T00:00:00-05:00")));
    assert_eq!(infer("Sat"), Some(parse("2020-04-11T00:00:00-05:00")));
    assert_eq!(infer("WEDNESDAY evening"), Some(parse("2020-04-08T06:00:00-05:00")));
    assert_eq!(infer("tue afternoon"), Some(parse("2020-04-07T02:00:00-05:00")));
    assert_eq!(infer("thursday at 9:30"), Some(parse("2020-04-09T09:30:00-05:00")));
    assert_eq!(infer("thursday at 2:30"), Some(parse("2020-04-09T14:30:00-05:00")));
    assert_eq!(infer("tomorrow morning"), Some(parse("2020-04-05T08:00:00-05:00")));
    assert_eq!(infer("Tomorrow"), None);
    assert_eq!(infer("thurs"), None);
    assert_eq!(infer("monday at noon sharp"), None);
    assert_eq!(infer("monday at lunch"), None);
    // A Sunday: the day after is the Monday, a week on is the next Sunday.
    let sunday = parse("2020-04-05T23:59:59+02:00");
    assert_eq!(
        infer_future_time_from_datetime("sunday", sunday),
        Some(parse("2020-04-12T00:00:00+02:00"))
    );
    assert_eq!(
        infer_future_time_from_datetime("tomorrow", sunday),
        Some(parse("2020-04-06T00:00:00+02:00"))
    );
}

#[test]
fn times_of_day() {
    let now = parse("2020-04-04T10:30:00-05:00");
    let infer = |phrase: &str| infer_future_time_from_datetime(phrase, now);
    assert_eq!(infer("noon"), Some(parse("2020-04-04T12:00:00-05:00")));
    assert_eq!(infer("at 11"), Some(parse("2020-04-04T11:00:00-05:00")));
    assert_eq!(infer("10"), Some(parse("2020-04-05T10:00:00-05:00")));
    assert_eq!(infer("morning"), Some(parse("2020-04-05T08:00:00-05:00")));
    assert_eq!(infer("10:30am"), Some(parse("2020-04-04T10:30:00-05:00")));
    assert_eq!(infer("10:29am"), Some(parse("2020-04-05T10:29:00-05:00")));
    assert_eq!(infer("5pm"), Some(parse("2020-04-04T17:00:00-05:00")));
    assert_eq!(infer("5"), Some(parse("2020-04-04T17:00:00-05:00")));
    assert_eq!(infer("noon or so"), None);
    assert_eq!(infer("5 5"), None);
    assert_eq!(infer("at noon now"), Some(parse("2020-04-04T12:00:00-05:00")));
    assert_eq!(infer("later"), None);
    assert_eq!(infer(""), None);
    assert_eq!(infer("at"), None);
}

#[test]
fn clock_phrases() {
    assert_eq!(parse_time("noon"), Some(12 * 3600));
    assert_eq!(parse_time("morning"), Some(8 * 3600));
    assert_eq!(parse_time("evening"), Some(6 * 3600));
    assert_eq!(parse_time("afternoon"), Some(2 * 3600));
    assert_eq!(parse_time("7"), Some(19 * 3600));
    assert_eq!(parse_time("8"), Some(8 * 3600));
    assert_eq!(parse_time("11"), Some(11 * 3600));
    assert_eq!(parse_time("12"), Some(24 * 3600));
    assert_eq!(parse_time("0"), Some(12 * 3600));
    assert_eq!(parse_time("-5"), Some(7 * 3600));
    assert_eq!(parse_time("+9"), Some(9 * 3600));
    assert_eq!(parse_time("1:45am"), Some(3600 + 45 * 60));
    assert_eq!(parse_time("1:45pm"), Some(13 * 3600 + 45 * 60));
    assert_eq!(parse_time("1:45"), Some(13 * 3600 + 45 * 60));
    assert_eq!(parse_time("9:05"), Some(9 * 3600 + 5 * 60));
    assert_eq!(parse_time("1:99am"), Some(3600 + 99 * 60));
    assert_eq!(parse_time("10am"), Some(10 * 3600));
    assert_eq!(parse_time("10pm"), Some(22 * 3600));
    assert_eq!(parse_time("10PM"), None);
    assert_eq!(parse_time("1:45xm"), None);
    assert_eq!(parse_time("1:am"), None);
    assert_eq!(parse_time("1:"), None);
    assert_eq!(parse_time(":30"), None);
    assert_eq!(parse_time("am"), None);
    assert_eq!(parse_time(""), None);
    assert_eq!(parse_time("99999999999999999999"), None);
    assert_eq!(parse_time("99999999999999999999am"), None);
    assert_eq!(parse_time("1:99999999999999999999am"), None);
    assert_eq!(
        parse_time("9223372036854775807"),
        Some((9223372036854775807i128 + 12) * 3600)
    );
}

#[test]
fn filler_words_are_left_out() {
    let words = |phrase: &str| -> Vec<String> {
        phrase_words(phrase).iter().map(|w| w.iter().collect()).collect()
    };
    assert_eq!(words("on monday at noon"), vec!["monday", "noon"]);
    assert_eq!(words("in a day from now"), vec!["day"]);
    assert_eq!(words("at at noon"), vec!["at", "noon"]);
    assert_eq!(words("  3   days  "), vec!["3", "days"]);
    assert_eq!(words("banana"), vec!["banana"]);
    assert!(words("").is_empty());
}

#[test]
fn the_clock_gives_a_time() {
    let now = Timestamp::now().unwrap();
    let later = infer_future_time("in 1 minute").unwrap();
    let ahead = later.seconds_since(&now);
    assert!((60..=70).contains(&ahead));
}

#[test]
fn midnight_and_weekday_agree_with_the_calendar() {
    let offsets = [0, 3600, -5 * 3600, 5 * 3600 + 1800, -23 * 3600 - 59 * 60, 23 * 3600 + 59 * 60];
    let instants: [i64; 9] = [
        0,
        1,
        -1,
        86_399,
        1_586_014_200,
        -62_000_000_000,
        253_000_000_000,
        951_782_400,
        4_102_444_800,
    ];
    for offset in offsets {
        for secs in instants {
            let t = match Timestamp::new(secs, offset) {
                Some(t) => t,
                None => continue,
            };
            let zone = chrono::FixedOffset::east_opt(offset).unwrap();
            let there = zone.timestamp_opt(secs, 0).unwrap();
            assert_eq!(t.weekday(), there.weekday().num_days_from_sunday());
            let start = there.with_hour(0).unwrap().with_minute(0).unwrap().with_second(0).unwrap();
            assert_eq!(t.midnight().secs(), start.timestamp());
            assert_eq!(t.midnight().offset(), offset);
            assert_eq!(t.to_rfc3339(), there.to_rfc3339());
            assert_eq!(Timestamp::parse_from_rfc3339(&t.to_rfc3339()), Some(t));
            assert_eq!(t.to_rfc3339().chars().count(), 25);
        }
    }
}

#[test]
fn only_times_that_can_be_written_are_made() {
    assert!(Timestamp::new(0, 0).is_some());
    assert!(Timestamp::new(0, 30).is_none());
    assert!(Timestamp::new(0, 86_400).is_none());
    assert!(Timestamp::new(0, -86_400).is_none());
    assert!(Timestamp::new(253_402_300_799, 0).is_some());
    assert!(Timestamp::new(253_402_300_800, 0).is_none());
    assert!(Timestamp::new(253_402_300_800, -60).is_some());
    assert!(Timestamp::new(-62_167_219_200, 0).is_some());
    assert!(Timestamp::new(-62_167_219_201, 0).is_none());
    assert_eq!(Timestamp::new(-62_167_219_200, 0).unwrap().to_rfc3339(), "0000-01-01T00:00:00+00:00");
    assert_eq!(
        Timestamp::new(253_402_300_799, 0).unwrap().to_rfc3339(),
        "9999-12-31T23:59:59+00:00"
    );
    let t = Timestamp::new(1_586_014_200, -18_000).unwrap();
    assert_eq!(t.to_rfc3339(), "2020-04-04T10:30:00-05:00");
    assert_eq!(t.plus_seconds(3600).unwrap().to_rfc3339(), "2020-04-04T11:30:00-05:00");
    assert!(t.plus_seconds(i64::MAX).is_none());
    assert!(t.is_before(&t.plus_seconds(1).unwrap()));
    assert!(Timestamp::parse_from_rfc3339("2020-04-04 10:30:00").is_none());
    assert!(Timestamp::parse_from_rfc3339("2020-02-30T10:30:00Z").is_none());
    assert_eq!(
        Timestamp::parse_from_rfc3339("2020-04-04T15:30:00Z"),
        Timestamp::new(1_586_014_200, 0)
    );
}
