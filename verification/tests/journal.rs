use pathlight_core::crypt::{readable, seal};
use pathlight_core::event::Timestamp;
use pathlight_core::journal::{judge, newest_first, trim_outcome, trim_plan, windows, written_lines, Verdict, DAY_SECS};
use pathlight_core::{ActivityEvent, Confidence, EventKind};

const ROOT: &str = "/Users/example/Downloads";
const NOW: u64 = 1_700_000_000;

fn event(name: &str, days_ago: u64) -> ActivityEvent {
    ActivityEvent {
        kind: EventKind::Modified,
        path: format!("{ROOT}/{name}"),
        root_path: ROOT.into(),
        timestamp: Timestamp::from_secs(NOW - days_ago * DAY_SECS),
        byte_delta: Some(1_024),
        confidence: Confidence::Confirmed,
        previous_path: None,
        affected_item_count: 1,
        process_name: None,
    }
}

fn now() -> Timestamp {
    Timestamp::from_secs(NOW)
}

/// What a trim keeps of `rows`, and how many it let go: kept detail in file
/// order, then the groups the rolled rows were folded into.
fn trimmed(rows: &[Option<ActivityEvent>], retention: u32, aggregate: u32) -> (Vec<Option<ActivityEvent>>, usize) {
    let w = windows(now(), retention, aggregate);
    let (keep, groups) = trim_plan(rows, &w);
    let mut kept: Vec<Option<ActivityEvent>> =
        rows.iter().zip(&keep).filter(|(_, keep)| **keep).map(|(row, _)| row.clone()).collect();
    let dropped = rows.len() - kept.len();
    kept.extend(groups.into_iter().map(Some));
    (kept, dropped)
}

fn readable_rows(rows: &[Option<ActivityEvent>]) -> Vec<ActivityEvent> {
    rows.iter().flatten().cloned().collect()
}

#[test]
fn rows_past_the_retention_window_are_dropped_and_the_rest_stay_readable() {
    let rows = vec![Some(event("old.bin", 400)), Some(event("recent.bin", 3))];

    let (kept, dropped) = trimmed(&rows, 180, 180);

    assert_eq!(dropped, 1);
    let kept = newest_first(readable_rows(&kept), ROOT, 100);
    assert_eq!(kept.len(), 1, "kept: {kept:#?}");
    assert!(kept[0].path.ends_with("recent.bin"));
}

#[test]
fn a_cap_drops_the_oldest_until_the_file_fits() {
    let lengths: Vec<u64> = vec![100; 10];
    let one_row = 101;

    let written = written_lines(&lengths, one_row * 3);

    assert_eq!(written.iter().filter(|w| !**w).count(), 7);
    assert_eq!(written, [false, false, false, false, false, false, false, true, true, true], "the newest three stay");
}

#[test]
fn encrypted_rows_are_unreadable_on_disk_and_readable_through_the_journal() {
    let key = [5u8; 32];
    let json = format!("{{\"path\":\"{ROOT}/secret.bin\"}}");
    let written = seal(&key, json.as_bytes()).unwrap();

    assert!(written.starts_with("pathlight:v1:aes-gcm:"), "{written:?}");
    assert!(!written.contains("secret.bin"), "{written:?}");
    assert_eq!(readable(&written, Some(&key)), Some(json.clone()));
    // A plain line reads as itself, with or without a key.
    assert_eq!(readable(&json, None), Some(json.clone()));
    // Without the key, nothing is read.
    assert_eq!(readable(&written, None), None);
    // And retention still applies to a row it can read; one it cannot is kept.
    let (_, dropped) = trimmed(&[Some(event("recent.bin", 1))], 180, 180);
    assert_eq!(dropped, 0);
    let (kept, dropped) = trimmed(&[None, Some(event("old.bin", 400))], 180, 180);
    assert_eq!(dropped, 1);
    assert_eq!(kept, [None]);
}

#[test]
fn a_trim_that_changes_nothing_leaves_the_file_alone() {
    assert_eq!(trim_outcome(10, 10, 10, 10), None);
    assert_eq!(trim_outcome(10, 8, 9, 9), Some(1), "two rows rolled into one");
    assert_eq!(trim_outcome(10, 10, 10, 7), Some(3), "the cap dropped three");
    assert_eq!(trim_outcome(2, 0, 5, 5), Some(0));
}

#[test]
fn a_trim_keeps_the_fresh_rows_and_rolls_the_old_ones_into_groups() {
    let w = windows(now(), 180, 365);
    let rows = vec![Some(event("new.txt", 3)), Some(event("old.txt", 200)), None, Some(event("older.txt", 200)), Some(event("ancient.txt", 400))];
    let (keep, groups) = trim_plan(&rows, &w);
    assert_eq!(keep, [true, false, true, false, false]);
    assert_eq!(groups.len(), 1);
    assert_eq!(groups[0].byte_delta, Some(2_048));
    assert_eq!(groups[0].affected_item_count, 2);
}

#[test]
fn a_cap_on_lengths_too_large_to_count_writes_every_line() {
    let (written, outcome) = pathlight_core::journal::capped(&[u64::MAX, 3], 10, 2, 2);
    assert_eq!(written, [true, true]);
    assert_eq!(outcome, None);
    let (written, outcome) = pathlight_core::journal::capped(&[9, 9, 9], 20, 3, 3);
    assert_eq!(written, [false, true, true]);
    assert_eq!(outcome, Some(1));
}
