use pathlight_core::event::Timestamp;
use pathlight_core::history::{build_history, Query};
use pathlight_core::{ActivityEvent, Confidence, EventKind};

const ROOT: &str = "/Users/example/Downloads";

fn event(name: &str, seconds: u64, delta: Option<i64>) -> ActivityEvent {
    ActivityEvent {
        kind: EventKind::Modified,
        path: format!("{ROOT}/{name}"),
        root_path: ROOT.into(),
        timestamp: Timestamp::from_secs(seconds),
        byte_delta: delta,
        confidence: if delta.is_some() { Confidence::Confirmed } else { Confidence::Unknown },
        previous_path: None,
        affected_item_count: 1,
        process_name: None,
    }
}

#[test]
fn buckets_totals_and_newest_first_ordering() {
    let events = vec![event("a", 10, Some(100)), event("b", 3_650, Some(-40)), event("c", 3_700, None)];
    let history = build_history(&format!("{ROOT}/"), events, 3_600, 100, &Query::default(), Timestamp::from_secs(0));

    assert_eq!(history.root_path, ROOT);
    assert_eq!(history.total_net_byte_delta, 60);
    assert_eq!(history.event_count, 3);
    assert_eq!(history.unknown_size_event_count, 1);
    assert_eq!(history.buckets.len(), 2);
    assert_eq!(history.buckets[0].start, Timestamp::from_secs(0));
    assert_eq!(history.buckets[0].byte_delta, 100);
    assert_eq!(history.buckets[1].start, Timestamp::from_secs(3_600));
    assert_eq!(history.buckets[1].event_count, 2);
    assert_eq!(history.buckets[1].unknown_size_event_count, 1);
    let names: Vec<&str> = history.recent_events.iter().map(|e| e.path.rsplit('/').next().unwrap()).collect();
    assert_eq!(names, ["c", "b", "a"]);
}

#[test]
fn totals_cover_every_event_while_listing_one_page() {
    let events: Vec<ActivityEvent> = (0..10).map(|i| event(&format!("f{i}"), i, Some(10))).collect();

    let history = build_history(ROOT, events, 3_600, 3, &Query::default(), Timestamp::from_secs(0));

    assert_eq!(history.event_count, 10);
    assert_eq!(history.total_net_byte_delta, 100);
    assert_eq!(history.buckets[0].event_count, 10);
    assert_eq!(history.recent_events.len(), 3);
    assert!(history.is_truncated);
}

#[test]
fn one_kind_of_change_can_be_asked_for_on_its_own() {
    let mut deleted = event("gone.psd", 20, Some(-4_000));
    deleted.kind = EventKind::Deleted;
    let events = vec![event("kept.psd", 10, Some(1_000)), deleted];

    let history = build_history(
        ROOT,
        events,
        3_600,
        10,
        &Query { kind: Some(EventKind::Deleted), ..Query::default() },
        Timestamp::from_secs(0),
    );

    assert_eq!(history.event_count, 1);
    assert_eq!(history.total_net_byte_delta, -4_000);
    assert_eq!(history.recent_events[0].path, format!("{ROOT}/gone.psd"));
}

#[test]
fn a_search_pages_past_what_it_skipped_and_ranks_by_size() {
    let events = vec![event("Small.bin", 10, Some(5)), event("big.bin", 20, Some(-900)), event("other.txt", 30, Some(50))];
    let history = build_history(
        ROOT,
        events,
        3_600,
        1,
        &Query { text: "BIN".to_string(), kind: None, largest_first: true, skip: 1 },
        Timestamp::from_secs(0),
    );
    assert_eq!(history.event_count, 2);
    assert_eq!(history.total_net_byte_delta, -895);
    assert_eq!(history.recent_events.len(), 1);
    assert_eq!(history.recent_events[0].path, format!("{ROOT}/Small.bin"));
}
