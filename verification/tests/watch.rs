use pathlight_core::anomaly::{AnomalyKind, GROWTH_WINDOW, WINDOW};
use pathlight_core::event::{ActivityEvent, Confidence, EventKind, Timestamp};
use pathlight_core::watch::Alerts;

fn at(secs: u64) -> Timestamp {
    Timestamp::from_secs(secs)
}

fn row(kind: EventKind, delta: i64, items: u32, when: Timestamp) -> ActivityEvent {
    ActivityEvent {
        kind,
        path: "/watched/file.bin".to_owned(),
        root_path: "/watched".to_owned(),
        timestamp: when,
        byte_delta: Some(delta),
        confidence: Confidence::Confirmed,
        previous_path: None,
        affected_item_count: items,
        process_name: None,
    }
}

#[test]
fn a_finding_is_said_once_per_window() {
    let now = 1_700_000_000;
    let rows: Vec<_> = (0..2).map(|_| row(EventKind::Deleted, -1, 60, at(now))).collect();
    let mut alerts = Alerts::new();

    let news = alerts.news(&rows, 0, at(now));
    assert_eq!(news.len(), 1, "120 deleted items went unmentioned");
    assert_eq!(news[0].kind, AnomalyKind::Removal);
    assert!(alerts.news(&rows, 0, at(now + 60)).is_empty(), "the same finding was raised twice");
    assert_eq!(
        alerts.news(&rows, 0, at(now + WINDOW)).len(),
        1,
        "still happening a window later, and still worth saying"
    );
}

#[test]
fn a_quiet_folder_is_never_interrupted() {
    let now = 1_700_000_000;
    let ordinary = vec![row(EventKind::Modified, 4096, 1, at(now))];
    assert!(Alerts::new().news(&ordinary, 0, at(now)).is_empty());
    assert!(Alerts::watching(0, 0, at(now)).news(&ordinary, 100 * 1_000_000_000, at(now)).is_empty());
}

#[test]
fn a_folder_past_the_size_the_user_asked_about_says_so_once_a_day() {
    let now = 1_700_000_000;
    let quiet: Vec<ActivityEvent> = Vec::new();
    let mut alerts = Alerts::watching(1_000_000_000, 0, at(now));

    assert!(alerts.news(&quiet, 600_000_000, at(now)).is_empty());
    let news = alerts.news(&quiet, 600_000_000, at(now + 60));
    assert_eq!(news.len(), 1, "1.2 GB in a day went unmentioned");
    assert_eq!(news[0].kind, AnomalyKind::Growth);
    assert_eq!(news[0].bytes, 1_200_000_000);
    assert!(alerts.news(&quiet, 600_000_000, at(now + 120)).is_empty(), "the same day was reported twice");
    assert!(alerts.news(&quiet, 600_000_000, at(now + GROWTH_WINDOW)).is_empty());
}

#[test]
fn growth_recorded_before_a_restart_counts_toward_todays_alert() {
    let now = 1_700_000_000;
    let quiet: Vec<ActivityEvent> = Vec::new();
    let mut alerts = Alerts::watching(1_000_000_000, 700_000_000, at(now));

    let news = alerts.news(&quiet, 400_000_000, at(now + 60));

    assert_eq!(news.len(), 1, "the pre-restart growth was forgotten");
    assert_eq!(news[0].kind, AnomalyKind::Growth);
    assert_eq!(news[0].bytes, 1_100_000_000);
}
