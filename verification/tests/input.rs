use t_minus::input::{duration_in_range, parse_duration, parse_i64, parse_time, parse_uuid, trim_text};
use t_minus::{AgentId, Engine, EventKind};

#[test]
fn durations_by_unit() {
    assert_eq!(parse_duration("60s"), Ok(60_000_000_000));
    assert_eq!(parse_duration(" 5m "), Ok(300_000_000_000));
    assert_eq!(parse_duration("1h"), Ok(3_600_000_000_000));
    assert_eq!(parse_duration("2d"), Ok(172_800_000_000_000));
    assert_eq!(parse_duration("90"), Ok(90_000_000_000));
    assert_eq!(parse_duration("-5s"), Ok(-5_000_000_000));
    assert_eq!(parse_duration("+5s"), Ok(5_000_000_000));
    assert_eq!(parse_duration("5ss"), Ok(5_000_000_000));
}

#[test]
fn duration_errors() {
    assert_eq!(parse_duration("xs"), Err("invalid seconds: xs".to_string()));
    assert_eq!(parse_duration("1.5m"), Err("invalid minutes: 1.5m".to_string()));
    assert_eq!(parse_duration("h"), Err("invalid hours: h".to_string()));
    assert_eq!(parse_duration("3wd"), Err("invalid days: 3wd".to_string()));
    assert_eq!(parse_duration("abc"), Err("invalid duration: abc (use 60s, 5m, 1h)".to_string()));
    assert_eq!(parse_duration("  "), Err("invalid duration:  (use 60s, 5m, 1h)".to_string()));
    assert_eq!(
        parse_duration("99999999999999999999m"),
        Err("invalid minutes: 99999999999999999999m".to_string())
    );
}

#[test]
fn duration_range() {
    assert!(duration_in_range("9223372036854775s"));
    assert!(!duration_in_range("9223372036854776s"));
    assert!(duration_in_range("-9223372036854775s"));
    assert!(!duration_in_range("153722867280913m"));
    assert!(duration_in_range("153722867280912m"));
    assert!(duration_in_range("garbage"));
    assert_eq!(parse_duration("9223372036854775s"), Ok(9_223_372_036_854_775_000_000_000));
}

#[test]
fn integers() {
    assert_eq!(parse_i64("-9223372036854775808"), Some(i64::MIN));
    assert_eq!(parse_i64("9223372036854775807"), Some(i64::MAX));
    assert_eq!(parse_i64("9223372036854775808"), None);
    assert_eq!(parse_i64("+"), None);
    assert_eq!(parse_i64(""), None);
    assert_eq!(parse_i64("12a"), None);
    assert_eq!(parse_i64("007"), Some(7));
}

#[test]
fn trimming_unicode_white_space() {
    assert_eq!(trim_text("\u{3000} a b\t\n"), "a b");
    assert_eq!(trim_text("\u{85}x\u{2029}"), "x");
    assert_eq!(trim_text("   "), "");
}

#[test]
fn times() {
    let now = 1_700_000_000_000_000_000;
    assert_eq!(parse_time("+1m", now), Ok(now + 60_000_000_000));
    assert_eq!(parse_time("+bad", now), Err("invalid days: bad".to_string()));
    assert_eq!(parse_time("2024-01-01T00:00:00Z", 0), Ok(1_704_067_200_000_000_000));
    assert_eq!(parse_time("2024-01-01T01:00:00+01:00", 0), Ok(1_704_067_200_000_000_000));
    // chrono keeps every digit of the fraction
    assert_eq!(parse_time("2024-01-01T00:00:00.000000123Z", 0), Ok(1_704_067_200_000_000_123));
    assert_eq!(parse_time("1969-12-31T23:59:59.5Z", 0), Ok(-500_000_000));
    let e = parse_time("nope", 0).unwrap_err();
    assert!(e.starts_with("invalid time 'nope': "));
}

#[test]
fn uuids() {
    assert_eq!(
        parse_uuid("67e55044-10b1-426f-9247-bb680e5fe0c8"),
        Ok(0x67e5_5044_10b1_426f_9247_bb68_0e5f_e0c8)
    );
    let e = parse_uuid("zz").unwrap_err();
    assert!(e.starts_with("invalid UUID 'zz': "));
}

#[test]
fn countdown_labels() {
    const AT: i128 = 1_000_000_000_000;
    let mut engine = Engine::in_memory().unwrap();
    let e = engine
        .schedule_event_with_id(1, EventKind::Meeting, AT, 0, AgentId("o".into()), vec![], 0, "null".to_string())
        .unwrap();
    assert_eq!(e.countdown_label(AT - 125_000_000_000), "T-2m5s");
    assert_eq!(e.countdown_label(AT - 59_999_000_000), "T-0m59s");
    // a nanosecond to go is not yet ready
    assert_eq!(e.countdown_label(AT - 1), "T-0m0s");
    assert_eq!(e.countdown_label(AT), "READY");
    assert_eq!(e.countdown_label(2 * AT), "READY");
}
