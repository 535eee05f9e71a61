use celestial_echo::{
    classify, format_round_trip, plan_mention, plan_sweep, record_post, Decimal, DedupGuard,
    MentionAction, PendingEvent, StoreError,
};

fn dec(negative: bool, mantissa: u128, scale: u32) -> Decimal {
    Decimal { negative, mantissa, scale }
}

fn text(mantissa: u128, scale: u32) -> String {
    format_round_trip(&dec(false, mantissa, scale))
}

fn event(id: u64, deadline: i128, replied: bool) -> PendingEvent {
    PendingEvent {
        message_id: id,
        celestial_body: "Mars".to_string(),
        replied,
        deadline_millis: deadline,
        round_trip: dec(false, 5400, 1),
    }
}

#[test]
fn tier_below_two_seconds() {
    assert_eq!(text(0, 0), "Round trip time: 0.0000s");
    assert_eq!(text(19999, 4), "Round trip time: 1.9999s");
    assert_eq!(text(10035, 4), "Round trip time: 1.0035s");
    assert_eq!(format_round_trip(&dec(true, 15, 1)), "Round trip time: -1.5000s");
}

#[test]
fn tier_boundary_at_two_seconds() {
    assert_eq!(text(2, 0), "Round trip time: 2.000s");
    assert_eq!(text(8325, 3), "Round trip time: 8.325s");
}

#[test]
fn tier_boundary_at_ten_seconds() {
    assert_eq!(text(99999, 4), "Round trip time: 10.000s");
    assert_eq!(text(10, 0), "Round trip time: 10.00s");
    assert_eq!(text(4853, 2), "Round trip time: 48.53s");
}

#[test]
fn tier_boundary_at_one_minute() {
    assert_eq!(text(5999, 2), "Round trip time: 59.99s");
    assert_eq!(text(60, 0), "Round trip time: 1m 0.0s");
    assert_eq!(text(632, 1), "Round trip time: 1m 3.2s");
}

#[test]
fn tier_boundary_at_ten_minutes() {
    assert_eq!(text(5999, 1), "Round trip time: 9m 59.9s");
    assert_eq!(text(600, 0), "Round trip time: 10m 0s");
    assert_eq!(text(7259, 1), "Round trip time: 12m 5s");
}

#[test]
fn wide_round_trips() {
    let minutes = 2 * 10u128.pow(32);
    assert_eq!(
        text(12 * 10u128.pow(33), 0),
        format!("Round trip time: {}h {}m", minutes / 60, minutes % 60)
    );
    assert_eq!(text(1, 36), "Round trip time: 0.0000s");
}

#[test]
fn tier_boundary_at_one_hour() {
    assert_eq!(text(3599, 0), "Round trip time: 59m 59s");
    assert_eq!(text(3600, 0), "Round trip time: 1h 0m");
    assert_eq!(text(46920, 0), "Round trip time: 13h 2m");
}

#[test]
fn rounding_ties_go_to_even() {
    assert_eq!(text(5, 5), "Round trip time: 0.0000s");
    assert_eq!(text(15, 5), "Round trip time: 0.0002s");
    assert_eq!(text(25, 5), "Round trip time: 0.0002s");
    assert_eq!(text(250006, 5), "Round trip time: 2.500s");
    assert_eq!(text(11995, 3), "Round trip time: 12.00s");
    assert_eq!(text(6125, 2), "Round trip time: 1m 1.2s");
}

#[test]
fn marked_mention_gets_no_second_reply() {
    let mut guard = DedupGuard::new();
    let out = "1 Mars (\n2 Mars II  \n";
    let first = plan_mention(9, "Mars", 0, classify(Some(2), out), guard.lookup(9));
    assert_eq!(
        first,
        MentionAction::Reply("Pick a number:\n1: Mars\n2: Mars II\n".to_string())
    );
    assert!(!guard.record_reply(9, false));
    assert!(!guard.is_ignored(9));
    assert!(guard.record_reply(9, true));
    assert!(guard.is_ignored(9));
    assert_eq!(guard.lookup_with(9, Ok(false)), Ok(true));
    assert_eq!(guard.lookup_with(10, Err(StoreError)), Err(StoreError));
    assert!(!guard.is_ignored(10));
    let second = plan_mention(9, "Mars", 0, classify(Some(2), out), guard.lookup(9));
    assert_eq!(second, MentionAction::Skip);
    let other = plan_mention(10, "Mars", 0, classify(Some(1), ""), guard.lookup(10));
    assert!(matches!(other, MentionAction::Reply(_)));
}

#[test]
fn failed_dedup_lookup_suppresses_the_reply() {
    let a = plan_mention(3, "Mars", 0, classify(Some(1), ""), Err(StoreError));
    assert_eq!(a, MentionAction::Skip);
}

#[test]
fn resolved_mention_is_recorded_whatever_the_guard_says() {
    let a = plan_mention(3, "Mars", 0, classify(Some(0), "a b 1"), Ok(true));
    match a {
        MentionAction::Record(e) => {
            assert_eq!(e.message_id, 3);
            assert_eq!(e.round_trip, dec(false, 120, 0));
            assert_eq!(e.deadline_millis, 120000);
        }
        other => panic!("unexpected {:?}", other),
    }
}

#[test]
fn sweep_posts_only_due_events() {
    let events = vec![event(1, 100, false), event(2, 500, false), event(3, 50, true), event(4, 99, false)];
    let plan = plan_sweep(&events, 200);
    let ids: Vec<(usize, u64)> = plan.iter().map(|p| (p.index, p.message_id)).collect();
    assert_eq!(ids, vec![(0, 1), (3, 4)]);
    assert_eq!(plan[0].text, "Round trip time: 9m 0.0s");
    assert!(plan_sweep(&events, 100).iter().all(|p| p.index == 3));
}

#[test]
fn second_sweep_after_successful_posts_does_nothing() {
    let mut events = vec![event(1, 100, false), event(2, 500, false)];
    let plan = plan_sweep(&events, 200);
    for p in &plan {
        record_post(&mut events, p.index, true);
    }
    assert!(events[0].replied);
    assert!(!events[1].replied);
    let snapshot = events.clone();
    assert!(plan_sweep(&events, 200).is_empty());
    assert_eq!(events, snapshot);
}

#[test]
fn failed_post_leaves_event_pending() {
    let mut events = vec![event(1, 100, false)];
    record_post(&mut events, 0, false);
    assert!(!events[0].replied);
    assert_eq!(plan_sweep(&events, 200).len(), 1);
}

#[test]
fn ingestion_stops_at_the_first_empty_page() {
    let c = celestial_echo::IngestionCursor::from_max_id(Some(41));
    assert_eq!(c.since_id, Some(41));
    assert!(c.keep_fetching(3));
    assert!(!c.keep_fetching(0));
}
