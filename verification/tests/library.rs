use t_minus::{AgentId, Campaign, Engine, EventKind, ResponseStatus, TMinusError, TMinusEvent};

const MINUTE: i128 = 60 * 1_000_000_000;
const NOW: i128 = 1_700_000_000_000_000_000;

fn agent(name: &str) -> AgentId {
    AgentId(name.into())
}

fn event_at(engine: &mut Engine, id: u128, fire_offset: i128, quorum: usize, attendees: &[&str]) -> TMinusEvent {
    engine
        .schedule_event_with_id(
            id,
            EventKind::Meeting,
            NOW + fire_offset + 5 * MINUTE,
            5 * MINUTE,
            agent("organizer"),
            attendees.iter().map(|s| agent(s)).collect(),
            quorum,
            "{\"k\":1}".to_string(),
        )
        .unwrap()
}

#[test]
fn scheduled_event_keeps_its_inputs() {
    let mut engine = Engine::in_memory().unwrap();
    let e = event_at(&mut engine, 7, 0, 2, &["a", "b"]);
    assert_eq!(e.id, 7);
    assert_eq!(e.scheduled_at, NOW + 5 * MINUTE);
    assert_eq!(e.t_minus, 5 * MINUTE);
    assert_eq!(e.fire_time(), NOW);
    assert_eq!(e.payload, "{\"k\":1}");
    assert_eq!(e.organizer, agent("organizer"));
    assert_eq!(e.pending_count(), 2);
    assert_eq!(e.confirmed_count(), 0);
    assert_eq!(e.attendees[1].0, agent("b"));
}

#[test]
fn random_ids_are_version_four() {
    let mut engine = Engine::in_memory().unwrap();
    let e = engine
        .schedule_event(EventKind::Review, NOW, 0, agent("o"), vec![], 0, "null".to_string())
        .unwrap();
    assert_eq!((e.id >> 76) & 0xF, 4);
    assert_eq!((e.id >> 62) & 0x3, 2);
    let c = engine.create_campaign("c".into()).unwrap();
    assert_eq!((c.id >> 76) & 0xF, 4);
    assert_ne!(e.id, c.id);
}

#[test]
fn read_after_write_and_remove() {
    let mut engine = Engine::in_memory().unwrap();
    event_at(&mut engine, 1, 0, 1, &["a"]);
    event_at(&mut engine, 2, 0, 1, &["a"]);
    assert_eq!(engine.get_event(1).unwrap().unwrap().id, 1);
    assert!(engine.remove_event(1).unwrap());
    assert!(!engine.remove_event(1).unwrap());
    assert!(engine.get_event(1).unwrap().is_none());
    assert_eq!(engine.get_event(2).unwrap().unwrap().id, 2);
}

#[test]
fn writing_an_event_again_replaces_it_and_moves_it_last() {
    let mut engine = Engine::in_memory().unwrap();
    event_at(&mut engine, 1, 0, 1, &["a"]);
    event_at(&mut engine, 2, 0, 1, &["a"]);
    engine.confirm(1, &agent("a")).unwrap();
    let all = engine.list_events().unwrap();
    assert_eq!(all.len(), 2);
    assert_eq!(all[0].id, 2);
    assert_eq!(all[1].id, 1);
    event_at(&mut engine, 2, 0, 3, &["x", "y"]);
    let all = engine.list_events().unwrap();
    assert_eq!(all.len(), 2);
    assert_eq!(all[1].quorum, 3);
}

#[test]
fn errors_name_their_cause() {
    let mut engine = Engine::in_memory().unwrap();
    event_at(&mut engine, 1, 0, 1, &["a"]);
    assert!(matches!(engine.confirm(9, &agent("a")), Err(TMinusError::EventNotFound(9))));
    match engine.defer(1, &agent("zed"), MINUTE) {
        Err(TMinusError::NotAttendee(a, 1)) => assert_eq!(a, agent("zed")),
        other => panic!("unexpected {:?}", other),
    }
    assert!(matches!(engine.mark_missed(9), Err(TMinusError::EventNotFound(9))));
    assert!(matches!(engine.apply_deferral_cascade(9), Err(TMinusError::EventNotFound(9))));
    assert!(matches!(engine.campaign_add_event(5, 1), Err(TMinusError::CampaignNotFound(5))));
    assert!(matches!(engine.campaign_link(5, 1, 1), Err(TMinusError::CampaignNotFound(5))));
    assert!(matches!(engine.campaign_execution_order(5), Err(TMinusError::CampaignNotFound(5))));
    // an error leaves the event as it was
    let e = engine.get_event(1).unwrap().unwrap();
    assert!(matches!(e.attendees[0].1, ResponseStatus::Pending));
}

#[test]
fn link_of_event_outside_campaign_is_refused_with_its_id() {
    let mut engine = Engine::in_memory().unwrap();
    let c = engine.create_campaign("c".into()).unwrap();
    let inside: u128 = 0x67e5_5044_10b1_426f_9247_bb68_0e5f_e0c8;
    engine.campaign_add_event(c.id, inside).unwrap();
    match engine.campaign_link(c.id, inside, 0xab) {
        Err(TMinusError::InvalidInput(m)) => {
            assert_eq!(m, "event 00000000-0000-0000-0000-0000000000ab not in campaign")
        }
        other => panic!("unexpected {:?}", other),
    }
    match engine.campaign_link(c.id, 0x1, inside) {
        Err(TMinusError::InvalidInput(m)) => {
            assert_eq!(m, "event 00000000-0000-0000-0000-000000000001 not in campaign")
        }
        other => panic!("unexpected {:?}", other),
    }
    let c2 = engine.get_campaign(c.id).unwrap().unwrap();
    assert!(c2.dependencies.is_empty());
}

#[test]
fn cycle_is_refused_and_campaign_kept() {
    let mut engine = Engine::in_memory().unwrap();
    let c = engine.create_campaign("c".into()).unwrap();
    for id in [1u128, 2, 3] {
        engine.campaign_add_event(c.id, id).unwrap();
    }
    engine.campaign_link(c.id, 1, 2).unwrap();
    engine.campaign_link(c.id, 2, 3).unwrap();
    match engine.campaign_link(c.id, 3, 1) {
        Err(TMinusError::DependencyCycle(pair)) => assert_eq!(pair, vec![3, 1]),
        other => panic!("unexpected {:?}", other),
    }
    let kept = engine.get_campaign(c.id).unwrap().unwrap();
    assert_eq!(kept.dependencies, vec![(1, 2), (2, 3)]);
    assert_eq!(engine.campaign_execution_order(c.id).unwrap(), vec![1, 2, 3]);
    // linking the same edge again changes nothing
    let again = engine.campaign_link(c.id, 1, 2).unwrap();
    assert_eq!(again.dependencies, vec![(1, 2), (2, 3)]);
}

#[test]
fn adding_an_event_twice_adds_it_once() {
    let mut engine = Engine::in_memory().unwrap();
    let c = engine.create_campaign("c".into()).unwrap();
    engine.campaign_add_event(c.id, 4).unwrap();
    let c2 = engine.campaign_add_event(c.id, 4).unwrap();
    assert_eq!(c2.events, vec![4]);
    assert_eq!(engine.list_campaigns().unwrap().len(), 1);
}

#[test]
fn execution_order_reports_events_on_and_behind_cycles() {
    let c = Campaign {
        id: 1,
        name: "c".into(),
        events: vec![10, 20, 30, 40],
        dependencies: vec![(10, 20), (20, 10), (20, 30)],
    };
    assert_eq!(c.execution_order(), Err(vec![10, 20, 30]));
    let d = Campaign {
        id: 2,
        name: "d".into(),
        events: vec![10, 20, 30],
        dependencies: vec![(30, 20), (20, 10)],
    };
    assert_eq!(d.execution_order(), Ok(vec![30, 20, 10]));
    let e = Campaign::with_id(3, "e".into());
    assert_eq!(e.execution_order(), Ok(vec![]));
}

#[test]
fn execution_order_with_repeated_events_and_outside_targets() {
    // an event listed twice: every event is placed, yet the count differs
    let c = Campaign { id: 1, name: "c".into(), events: vec![5, 5], dependencies: vec![] };
    assert_eq!(c.execution_order(), Err(vec![]));
    // a target that is not an event of the campaign is placed too
    let d = Campaign { id: 2, name: "d".into(), events: vec![5], dependencies: vec![(5, 9)] };
    assert_eq!(d.execution_order(), Err(vec![]));
    let e = Campaign { id: 3, name: "e".into(), events: vec![5, 6], dependencies: vec![(5, 9)] };
    assert_eq!(e.execution_order(), Err(vec![]));
}

#[test]
fn tick_splits_due_events() {
    let mut engine = Engine::in_memory().unwrap();
    event_at(&mut engine, 1, 10 * MINUTE, 0, &["a"]); // not due
    event_at(&mut engine, 2, 0, 1, &["a"]); // due, will be confirmed
    event_at(&mut engine, 3, 0, 2, &["a", "b"]); // due, no quorum
    event_at(&mut engine, 4, -MINUTE, 1, &["a"]); // due, deferred
    engine.confirm(2, &agent("a")).unwrap();
    engine.confirm(3, &agent("a")).unwrap();
    engine.defer(4, &agent("a"), MINUTE).unwrap();
    let r = engine.tick(NOW).unwrap();
    assert_eq!(r.fired, vec![2]);
    assert_eq!(r.missed, vec![3]);
    let left: Vec<u128> = engine.list_events().unwrap().iter().map(|e| e.id).collect();
    assert_eq!(left, vec![1, 3, 4]);
    let missed = engine.get_event(3).unwrap().unwrap();
    assert!(matches!(missed.attendees[0].1, ResponseStatus::Confirmed));
    assert!(matches!(missed.attendees[1].1, ResponseStatus::Missed));
    let deferred = engine.get_event(4).unwrap().unwrap();
    assert!(matches!(deferred.attendees[0].1, ResponseStatus::Deferred(d) if d == MINUTE));
    // a second tick at the same instant fires nothing, reports the missed
    // event again and leaves the store as the first tick left it
    let stored = format!("{:?}", engine.list_events().unwrap());
    let r2 = engine.tick(NOW).unwrap();
    assert!(r2.fired.is_empty());
    assert_eq!(r2.missed, vec![3]);
    assert_eq!(format!("{:?}", engine.list_events().unwrap()), stored);
}

#[test]
fn fired_and_missed_are_exclusive() {
    let mut engine = Engine::in_memory().unwrap();
    let e = event_at(&mut engine, 1, 0, 1, &["a"]);
    assert!(!e.is_fired(NOW - 1) && !e.is_missed(NOW - 1));
    assert!(!e.is_fired(NOW) && e.is_missed(NOW));
    assert_eq!(e.time_remaining(NOW - 1000), 1000);
    let e = engine.confirm(1, &agent("a")).unwrap();
    assert!(e.is_fired(NOW) && !e.is_missed(NOW));
}

#[test]
fn confirming_twice_is_confirming_once() {
    let mut engine = Engine::in_memory().unwrap();
    event_at(&mut engine, 1, 0, 2, &["a", "b", "a"]);
    let once = engine.confirm(1, &agent("a")).unwrap();
    let twice = engine.confirm(1, &agent("a")).unwrap();
    assert_eq!(once.confirmed_count(), 1);
    assert_eq!(twice.confirmed_count(), 1);
    // only the first entry of a listed-twice agent answers
    assert!(matches!(twice.attendees[2].1, ResponseStatus::Pending));
}

#[test]
fn cascade_extends_by_largest_deferral() {
    let mut engine = Engine::in_memory().unwrap();
    event_at(&mut engine, 1, 0, 1, &["a", "b", "c"]);
    assert!(engine.apply_deferral_cascade(1).unwrap().is_none());
    engine.defer(1, &agent("a"), 2 * MINUTE).unwrap();
    engine.defer(1, &agent("b"), 7 * MINUTE).unwrap();
    let e = engine.get_event(1).unwrap().unwrap();
    assert_eq!(e.max_deferral(), 7 * MINUTE);
    let c = engine.apply_deferral_cascade(1).unwrap().unwrap();
    assert_eq!(c.t_minus, 12 * MINUTE);
    assert_eq!(c.pending_count(), 3);
    assert!(!c.any_deferred());
}

#[test]
fn cascade_ignores_non_positive_deferrals() {
    let mut engine = Engine::in_memory().unwrap();
    event_at(&mut engine, 1, 0, 1, &["a"]);
    engine.defer(1, &agent("a"), -MINUTE).unwrap();
    assert!(engine.apply_deferral_cascade(1).unwrap().is_none());
    let e = engine.get_event(1).unwrap().unwrap();
    assert!(matches!(e.attendees[0].1, ResponseStatus::Deferred(d) if d == -MINUTE));
    assert_eq!(e.t_minus, 5 * MINUTE);
}

#[test]
fn statuses_and_kinds_have_names() {
    assert_eq!(ResponseStatus::Deferred(300_000_000_000).to_string(), "deferred:300s");
    assert_eq!(ResponseStatus::Deferred(1_999_999_999).to_string(), "deferred:1s");
    assert_eq!(ResponseStatus::Deferred(-1_500_000_000).to_string(), "deferred:-1s");
    assert_eq!(ResponseStatus::Deferred(999_999_999).to_string(), "deferred:0s");
    assert_eq!(ResponseStatus::Deferred(0).to_string(), "deferred:0s");
    assert_eq!(
        ResponseStatus::Deferred(i128::MIN).to_string(),
        "deferred:-170141183460469231731687303715s"
    );
    assert_eq!(EventKind::Meeting.to_string(), "meeting");
    assert_eq!(EventKind::Checkpoint.to_string(), "checkpoint");
    assert_eq!(EventKind::Deploy.to_string(), "deploy");
    assert_eq!(EventKind::Custom("launch".into()).to_string(), "custom:launch");
}

#[test]
fn kind_names_parse_back() {
    for k in [EventKind::Meeting, EventKind::Checkpoint, EventKind::Review, EventKind::Deploy] {
        assert_eq!(k.to_string().parse::<EventKind>().unwrap(), k);
    }
    assert_eq!(EventKind::parse_name("MeEtInG"), EventKind::Meeting);
    assert_eq!(EventKind::parse_name("ÀB"), EventKind::Custom("àb".into()));
    assert_eq!(EventKind::from_lowercase("Deploy"), EventKind::Custom("Deploy".into()));
}

#[test]
fn stored_parts_are_checked() {
    let mut engine = Engine::in_memory().unwrap();
    let a = event_at(&mut engine, 1, 0, 1, &["a"]);
    let b = event_at(&mut engine, 1, 0, 1, &["b"]);
    assert!(matches!(Engine::from_parts(vec![a.clone(), b], vec![]), Err(TMinusError::InvalidInput(_))));
    let cyclic = Campaign { id: 1, name: "c".into(), events: vec![1, 2], dependencies: vec![(1, 2), (2, 1)] };
    assert!(matches!(Engine::from_parts(vec![], vec![cyclic]), Err(TMinusError::InvalidInput(_))));
    let fine = Campaign { id: 1, name: "c".into(), events: vec![1, 2], dependencies: vec![(1, 2)] };
    let restored = Engine::from_parts(vec![a], vec![fine]).unwrap();
    assert_eq!(restored.campaign_execution_order(1).unwrap(), vec![1, 2]);
    assert_eq!(restored.get_event(1).unwrap().unwrap().attendees[0].0, agent("a"));
}

#[test]
fn payload_is_kept_as_json_writes_it() {
    let mut engine = Engine::in_memory().unwrap();
    let e = engine
        .schedule_event_with_id(
            9,
            EventKind::Meeting,
            NOW,
            0,
            agent("o"),
            vec![],
            0,
            " { \"b\" : 1, \"a\" : [true, null] } ".to_string(),
        )
        .unwrap();
    assert_eq!(e.payload, "{\"a\":[true,null],\"b\":1}");
    assert_eq!(engine.get_event(9).unwrap().unwrap().payload, "{\"a\":[true,null],\"b\":1}");
}

#[test]
fn payload_that_is_not_json_is_refused() {
    let mut engine = Engine::in_memory().unwrap();
    event_at(&mut engine, 1, 0, 0, &[]);
    let want = serde_json::from_str::<serde_json::Value>("{oops").unwrap_err().to_string();
    match engine.schedule_event(EventKind::Meeting, NOW, 0, agent("o"), vec![], 0, "{oops".to_string()) {
        Err(TMinusError::Serde(m)) => assert_eq!(m, want),
        other => panic!("unexpected {:?}", other),
    }
    let ids: Vec<u128> = engine.list_events().unwrap().iter().map(|e| e.id).collect();
    assert_eq!(ids, vec![1]);
}
