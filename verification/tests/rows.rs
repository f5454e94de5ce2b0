use t_minus::rows::{campaign_from_row, campaign_to_row, event_from_row, event_to_row, try_event_from_row};
use t_minus::{AgentId, Campaign, EventKind, ResponseStatus, TMinusError, TMinusEvent};

const NOW: i128 = 1_700_000_000_000_000_000;

fn sample(kind: EventKind, t_minus: i128) -> TMinusEvent {
    TMinusEvent {
        id: 7,
        kind,
        scheduled_at: NOW,
        t_minus,
        organizer: AgentId("org".into()),
        attendees: vec![
            (AgentId("a".into()), ResponseStatus::Confirmed),
            (AgentId("b".into()), ResponseStatus::Deferred(60_000_000_000)),
        ],
        quorum: 2,
        payload: "{\"k\":1}".to_string(),
    }
}

#[test]
fn event_row_columns() {
    let row = event_to_row(&sample(EventKind::Deploy, 300_000_000_000)).unwrap();
    assert_eq!(row.id, "00000000-0000-0000-0000-000000000007");
    assert_eq!(row.kind, "deploy");
    assert_eq!(row.scheduled_at, "2023-11-14T22:13:20+00:00");
    assert_eq!(row.t_minus_secs, 300);
    assert_eq!(row.organizer, "org");
    assert_eq!(row.quorum, 2);
    assert_eq!(row.payload, "{\"k\":1}");
    assert_eq!(row.attendees.len(), 2);
    assert_eq!(row.attendees[1].0, AgentId("b".into()));
}

#[test]
fn event_row_keeps_whole_seconds() {
    assert_eq!(event_to_row(&sample(EventKind::Meeting, 1_999_999_999)).unwrap().t_minus_secs, 1);
    assert_eq!(event_to_row(&sample(EventKind::Meeting, -1_500_000_000)).unwrap().t_minus_secs, -1);
}

#[test]
fn event_row_refuses_instant_out_of_range() {
    let mut e = sample(EventKind::Meeting, 0);
    e.scheduled_at = i128::MAX;
    match event_to_row(&e) {
        Err(TMinusError::InvalidInput(m)) => assert_eq!(m, "instant out of range"),
        other => panic!("unexpected {:?}", other),
    }
}

#[test]
fn event_row_reads_back() {
    let e = sample(EventKind::Review, 300_000_000_000);
    let row = event_to_row(&e).unwrap();
    let back = event_from_row(
        &row.id,
        &row.kind,
        &row.scheduled_at,
        row.t_minus_secs,
        row.organizer.clone(),
        row.quorum,
        row.payload.clone(),
        row.attendees,
    )
    .unwrap();
    assert_eq!(back.id, e.id);
    assert_eq!(back.kind, e.kind);
    assert_eq!(back.scheduled_at, e.scheduled_at);
    assert_eq!(back.t_minus, e.t_minus);
    assert_eq!(back.organizer, e.organizer);
    assert_eq!(back.quorum, e.quorum);
    assert_eq!(back.payload, e.payload);
    assert_eq!(format!("{:?}", back.attendees), format!("{:?}", e.attendees));
}

#[test]
fn event_row_reads_kind_in_any_case() {
    let r = event_from_row(
        "00000000-0000-0000-0000-000000000001",
        "CHECKPOINT",
        "2023-11-14T22:13:20Z",
        -2,
        "o".into(),
        0,
        "null".into(),
        vec![],
    )
    .unwrap();
    assert_eq!(r.id, 1);
    assert_eq!(r.kind, EventKind::Checkpoint);
    assert_eq!(r.scheduled_at, NOW);
    assert_eq!(r.t_minus, -2_000_000_000);
}

#[test]
fn event_row_bad_uuid() {
    let want = format!("bad uuid: {}", "nope".parse::<uuid::Uuid>().unwrap_err());
    match event_from_row("nope", "meeting", "also bad", 0, "o".into(), 0, "{".into(), vec![]) {
        Err(TMinusError::InvalidInput(m)) => assert_eq!(m, want),
        other => panic!("unexpected {:?}", other),
    }
}

#[test]
fn event_row_bad_datetime() {
    let want = format!(
        "bad datetime: {}",
        "yesterday".parse::<chrono::DateTime<chrono::Utc>>().unwrap_err()
    );
    let r = event_from_row(
        "00000000-0000-0000-0000-000000000001",
        "meeting",
        "yesterday",
        0,
        "o".into(),
        0,
        "{".into(),
        vec![],
    );
    match r {
        Err(TMinusError::InvalidInput(m)) => assert_eq!(m, want),
        other => panic!("unexpected {:?}", other),
    }
}

#[test]
fn event_row_bad_payload() {
    let want = serde_json::from_str::<serde_json::Value>("{").unwrap_err().to_string();
    let r = event_from_row(
        "00000000-0000-0000-0000-000000000001",
        "meeting",
        "2023-11-14T22:13:20Z",
        0,
        "o".into(),
        0,
        "{".into(),
        vec![],
    );
    match r {
        Err(TMinusError::Serde(m)) => assert_eq!(m, want),
        other => panic!("unexpected {:?}", other),
    }
}

#[test]
fn event_row_countdown_beyond_a_duration() {
    let id = "00000000-0000-0000-0000-000000000001";
    let at = "2023-11-14T22:13:20Z";
    assert!(try_event_from_row(id, "meeting", at, i64::MAX, "o".into(), 0, "1".into(), vec![]).is_none());
    assert!(try_event_from_row(id, "meeting", at, 9_223_372_036_854_775, "o".into(), 0, "1".into(), vec![])
        .is_some_and(|r| r.is_ok()));
    // an unreadable identifier is reported before the countdown is looked at
    assert!(matches!(
        try_event_from_row("x", "meeting", at, i64::MAX, "o".into(), 0, "1".into(), vec![]),
        Some(Err(TMinusError::InvalidInput(_)))
    ));
}

#[test]
fn campaign_row_round_trip() {
    let c = Campaign {
        id: 3,
        name: "launch".into(),
        events: vec![5, 0xABCDEF],
        dependencies: vec![(5, 0xABCDEF)],
    };
    let row = campaign_to_row(&c);
    assert_eq!(row.id, "00000000-0000-0000-0000-000000000003");
    assert_eq!(row.events[1], "00000000-0000-0000-0000-000000abcdef");
    assert_eq!(row.dependencies[0].0, "00000000-0000-0000-0000-000000000005");
    let back = campaign_from_row(&row.id, row.name, row.events, row.dependencies).unwrap();
    assert_eq!(back.id, 3);
    assert_eq!(back.name, "launch");
    assert_eq!(back.events, vec![5, 0xABCDEF]);
    assert_eq!(back.dependencies, vec![(5, 0xABCDEF)]);
}

#[test]
fn campaign_row_errors() {
    let want = format!("bad uuid: {}", "zz".parse::<uuid::Uuid>().unwrap_err());
    match campaign_from_row("zz", "c".into(), vec!["bad".into()], vec![]) {
        Err(TMinusError::InvalidInput(m)) => assert_eq!(m, want),
        other => panic!("unexpected {:?}", other),
    }
    let id = "00000000-0000-0000-0000-000000000003";
    let want = "bad".parse::<uuid::Uuid>().unwrap_err().to_string();
    match campaign_from_row(id, "c".into(), vec!["bad".into()], vec![("worse".into(), "x".into())]) {
        Err(TMinusError::Serde(m)) => assert_eq!(m, want),
        other => panic!("unexpected {:?}", other),
    }
    let want = "x".parse::<uuid::Uuid>().unwrap_err().to_string();
    match campaign_from_row(id, "c".into(), vec![id.into()], vec![(id.into(), "x".into())]) {
        Err(TMinusError::Serde(m)) => assert_eq!(m, want),
        other => panic!("unexpected {:?}", other),
    }
}

#[test]
fn agent_id_from_text() {
    assert_eq!(AgentId::from("agent-7"), AgentId("agent-7".into()));
}

#[test]
fn event_row_payload_is_read_as_json_writes_it() {
    let r = event_from_row(
        "00000000-0000-0000-0000-000000000001",
        "deploy",
        "2023-11-14T22:13:20.5Z",
        0,
        "o".into(),
        0,
        "[ 1,  {\"z\":0, \"y\":\"t\"} ]".into(),
        vec![],
    )
    .unwrap();
    assert_eq!(r.payload, "[1,{\"y\":\"t\",\"z\":0}]");
    assert_eq!(r.scheduled_at, NOW + 500_000_000);
}

#[test]
fn event_row_round_trip_outside_four_digit_years() {
    let mut e = sample(EventKind::Meeting, 0);
    e.scheduled_at = 300_000_000_000_000_000_000; // about the year 11476
    let row = event_to_row(&e).unwrap();
    assert!(row.scheduled_at.starts_with('+'));
    let back = event_from_row(&row.id, &row.kind, &row.scheduled_at, 0, "o".into(), 0, "1".into(), vec![]).unwrap();
    assert_eq!(back.scheduled_at, e.scheduled_at);
    e.scheduled_at = -70_000_000_000_000_000_000; // before the year 0
    let row = event_to_row(&e).unwrap();
    assert!(row.scheduled_at.starts_with('-'));
    let back = event_from_row(&row.id, &row.kind, &row.scheduled_at, 0, "o".into(), 0, "1".into(), vec![]).unwrap();
    assert_eq!(back.scheduled_at, e.scheduled_at);
}

#[test]
fn event_row_refuses_countdown_out_of_range() {
    match event_to_row(&sample(EventKind::Meeting, i128::MAX)) {
        Err(TMinusError::InvalidInput(m)) => assert_eq!(m, "countdown out of range"),
        other => panic!("unexpected {:?}", other),
    }
}

#[test]
fn event_row_keeps_nanoseconds() {
    let mut e = sample(EventKind::Meeting, 0);
    e.scheduled_at = NOW + 123_456_789;
    let row = event_to_row(&e).unwrap();
    assert_eq!(row.scheduled_at, "2023-11-14T22:13:20.123456789+00:00");
    let back = event_from_row(&row.id, &row.kind, &row.scheduled_at, 0, "o".into(), 0, "1".into(), vec![]).unwrap();
    assert_eq!(back.scheduled_at, e.scheduled_at);
    e.scheduled_at = -1;
    let row = event_to_row(&e).unwrap();
    assert_eq!(row.scheduled_at, "1969-12-31T23:59:59.999999999+00:00");
}
