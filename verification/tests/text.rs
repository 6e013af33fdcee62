use pathlight_core::anomaly::{Anomaly, AnomalyKind};
use pathlight_core::event::{EventKind, Timestamp};
use pathlight_core::text::{alert_body, alert_title, elapsed, human_bytes, kind_label, leaf};

#[test]
fn sizes_read_the_way_a_person_says_them() {
    assert_eq!(human_bytes(0), "+0 B");
    assert_eq!(human_bytes(-2048), "-2.0 KB");
    assert_eq!(human_bytes(1024 * 1024 * 3 / 2), "+1.5 MB");
    // The magnitude fits in u64 even at the extreme, which `abs` would not.
    assert!(human_bytes(i64::MIN).ends_with(" TB"));
}

#[test]
fn a_folder_is_named_by_its_last_component() {
    assert_eq!(leaf("C:/Users/x/Downloads"), "Downloads");
    assert_eq!(leaf("/watched/folder/"), "folder");
    assert_eq!(leaf("/"), "/");
}

/// A finding reads as a size rather than as a delta, and names the folder.
#[test]
fn a_flood_of_bytes_is_reported_with_its_size() {
    let alert = Anomaly {
        kind: AnomalyKind::Burst,
        items: 1,
        bytes: 5_000_000_000,
    };

    let body = alert_body(&alert);
    assert!(body.contains("4.7 GB"), "unexpected wording: {body}");
    assert!(!body.contains('+'), "a size was written as a delta: {body}");
    assert!(alert_title(&alert, "/watched").contains("watched"));
}

#[test]
fn sizes_keep_one_decimal_below_a_hundred_and_none_above() {
    assert_eq!(human_bytes(1023), "+1023 B");
    assert_eq!(human_bytes(1024), "+1.0 KB");
    assert_eq!(human_bytes(150 * 1024), "+150 KB");
    assert_eq!(human_bytes(-5_000_000_000), "-4.7 GB");
    assert_eq!(human_bytes(i64::MIN), "-8388608 TB");
}

#[test]
fn every_kind_has_one_word() {
    assert_eq!(kind_label(EventKind::Created), "new");
    assert_eq!(kind_label(EventKind::Modified), "changed");
    assert_eq!(kind_label(EventKind::Deleted), "deleted");
    assert_eq!(kind_label(EventKind::Moved), "moved");
    assert_eq!(kind_label(EventKind::Aggregate), "group");
}

#[test]
fn elapsed_time_reads_in_its_largest_unit() {
    let since = Timestamp::from_secs(1_000_000);
    let at = |secs: u64| Timestamp::from_secs(1_000_000 + secs);
    assert_eq!(elapsed(since, at(3)), "just now");
    assert_eq!(elapsed(since, at(42)), "42s ago");
    assert_eq!(elapsed(since, at(125)), "2m ago");
    assert_eq!(elapsed(since, at(7200)), "2h ago");
    assert_eq!(elapsed(since, at(3 * 86_400)), "3d ago");
    assert_eq!(elapsed(at(10), since), "just now");
}

#[test]
fn a_removal_names_how_many_and_how_much() {
    let alert = Anomaly { kind: AnomalyKind::Removal, items: 120, bytes: 1200 };
    assert_eq!(alert_body(&alert), "120 items (1.2 KB) removed in the last 10 minutes.");
    assert_eq!(alert_title(&alert, "/Users/x/Downloads/"), "Many files deleted in Downloads");
}

#[test]
fn counts_past_two_to_the_fifty_third_are_spelled_from_their_nearest_double() {
    assert_eq!(human_bytes(9_007_749_010_554_881), "+8192 TB");
    assert_eq!(human_bytes(9_007_199_254_740_993), "+8192 TB");
    assert_eq!(human_bytes(i64::MIN), "-8388608 TB");
    assert_eq!(human_bytes(i64::MAX), "+8388608 TB");
}
