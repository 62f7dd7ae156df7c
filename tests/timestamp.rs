use srt_editor::timestamp::TimeStamp;

#[test]
fn test_timestamp_parse() {
    let ts = TimeStamp::parse("00:01:23,456").unwrap();
    assert_eq!(ts.hours, 0);
    assert_eq!(ts.minutes, 1);
    assert_eq!(ts.seconds, 23);
    assert_eq!(ts.milliseconds, 456);
}

#[test]
fn test_timestamp_to_string() {
    let ts = TimeStamp {
        hours: 0,
        minutes: 1,
        seconds: 23,
        milliseconds: 456,
    };
    assert_eq!(ts.to_string(), "00:01:23,456");
}

#[test]
fn vtt_and_simple_forms() {
    let ts = TimeStamp { hours: 1, minutes: 2, seconds: 3, milliseconds: 4 };
    assert_eq!(ts.to_vtt_string(), "01:02:03.004");
    assert_eq!(ts.to_simple_string(), "01:02:03");
}

#[test]
fn wide_hours_are_not_truncated() {
    let ts = TimeStamp { hours: 123, minutes: 0, seconds: 0, milliseconds: 0 };
    assert_eq!(ts.to_string(), "123:00:00,000");
}

#[test]
fn to_ms_exact() {
    let ts = TimeStamp { hours: 1, minutes: 1, seconds: 1, milliseconds: 1 };
    assert_eq!(ts.to_ms(), 3_661_001);
}

#[test]
fn from_ms_decomposes() {
    let ts = TimeStamp::from_ms(3_723_456);
    assert_eq!(ts, TimeStamp { hours: 1, minutes: 2, seconds: 3, milliseconds: 456 });
    assert_eq!(ts.to_ms(), 3_723_456);
}

#[test]
fn round_trip_through_text() {
    for ts in [
        TimeStamp { hours: 0, minutes: 0, seconds: 0, milliseconds: 0 },
        TimeStamp { hours: 99, minutes: 59, seconds: 59, milliseconds: 999 },
        TimeStamp { hours: 4294967295, minutes: 7, seconds: 8, milliseconds: 9 },
    ] {
        assert_eq!(TimeStamp::parse(&ts.to_string()).unwrap(), ts);
    }
}

#[test]
fn round_trip_through_milliseconds() {
    let ts = TimeStamp { hours: 2, minutes: 59, seconds: 1, milliseconds: 999 };
    assert_eq!(TimeStamp::from_ms(ts.to_ms() as u32), ts);
}

#[test]
fn parse_rejects_bad_forms() {
    assert!(TimeStamp::parse("00:01:23.456").is_err());
    assert!(TimeStamp::parse("00:01,23,456").is_err());
    assert!(TimeStamp::parse("00:01:23,4,5").is_err());
    assert!(TimeStamp::parse("aa:01:23,456").is_err());
    assert!(TimeStamp::parse("00::23,456").is_err());
    assert!(TimeStamp::parse("00:01:23,4294967296").is_err());
    assert!(TimeStamp::parse("").is_err());
}

#[test]
fn parse_accepts_plus_sign() {
    let ts = TimeStamp::parse("+1:2:3,+4").unwrap();
    assert_eq!(ts, TimeStamp { hours: 1, minutes: 2, seconds: 3, milliseconds: 4 });
}

#[test]
fn parse_rejects_out_of_range_fields() {
    assert!(TimeStamp::parse("00:75:00,000").is_err());
    assert!(TimeStamp::parse("00:00:60,000").is_err());
    assert!(TimeStamp::parse("00:00:00,1000").is_err());
    assert!(TimeStamp::parse("00:59:59,999").is_ok());
}
