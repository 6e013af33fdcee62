use std::cell::{Cell, RefCell};

use pathlight_core::event::Timestamp;
use pathlight_core::monitor::{Change, ChangeKind};
use pathlight_core::{ActivityAttributor, AggregationOptions, Attributor, Confidence, EventKind, SizeIndex, SizeLookup};

const SCOPE: &str = "short-term:/Users/example/Downloads";
const ROOT: &str = "/Users/example/Downloads";

fn gone(_: &str) -> bool {
    false
}

#[test]
fn new_watches_default_to_one_kibibyte_changes() {
    assert_eq!(AggregationOptions::long_term().minimum_recorded_byte_delta, 1_024);
    assert_eq!(AggregationOptions::short_term().minimum_recorded_byte_delta, 1_024);
}

fn change(kind: ChangeKind, name: &str, seconds: u64) -> Change {
    Change {
        kind,
        path: format!("{ROOT}/{name}"),
        root_path: ROOT.into(),
        timestamp: Timestamp::from_secs(seconds),
        process_name: None,
    }
}

fn renamed(from: Option<String>, name: &str, seconds: u64) -> Change {
    change(ChangeKind::Renamed { previous_path: from }, name, seconds)
}

#[test]
fn records_created_file_and_filters_below_threshold() {
    let size = |path: &str| if path.ends_with("big.dmg") { Some(4096) } else { Some(10) };
    let none = |_: &str| None;
    let known = |path: &str| path.ends_with("tiny.txt").then_some(0);
    let attributor = Attributor::new(
        AggregationOptions { minimum_recorded_byte_delta: 1024, ..AggregationOptions::short_term() },
        &size,
        &none,
        &known,
        &gone,
    );
    let events = attributor.process(&[change(ChangeKind::Created, "big.dmg", 1), change(ChangeKind::Modified, "tiny.txt", 2)]);
    assert_eq!(events.len(), 1);
    assert_eq!(events[0].kind, EventKind::Created);
    assert_eq!(events[0].byte_delta, Some(4096));
    assert_eq!(events[0].confidence, Confidence::Confirmed);
}

#[test]
fn first_modified_observation_has_unknown_growth_instead_of_the_whole_file_size() {
    let size = |_: &str| Some(8_192);
    let none = |_: &str| None;
    let attributor = Attributor::new(AggregationOptions::short_term(), &size, &none, &none, &gone);

    let events = attributor.process(&[change(ChangeKind::Modified, "existing.bin", 1)]);

    assert_eq!(events.len(), 1);
    assert_eq!(events[0].kind, EventKind::Modified);
    assert_eq!(events[0].byte_delta, None);
    assert_eq!(events[0].confidence, Confidence::Unknown);
}

#[test]
fn a_modification_in_the_batch_that_brought_the_file_adds_no_unknown_row() {
    let size = |_: &str| Some(2_383_872);
    let none = |_: &str| None;
    let attributor = Attributor::new(AggregationOptions::short_term(), &size, &none, &none, &gone);

    let events = attributor.process(&[
        change(ChangeKind::Modified, "Screenshot.png", 1),
        renamed(Some(format!("{ROOT}/.Screenshot.png")), "Screenshot.png", 1),
    ]);

    assert_eq!(events.len(), 1, "{events:?}");
    assert_eq!(events[0].kind, EventKind::Moved);
    assert_eq!(events[0].byte_delta, Some(2_383_872));
}

#[test]
fn deletions_and_departed_renames_use_prior_size() {
    let index = RefCell::new(SizeIndex::new());
    index.borrow_mut().record(SCOPE, &format!("{ROOT}/gone.zip"), Some(2048));
    index.borrow_mut().record(SCOPE, &format!("{ROOT}/moved.mov"), Some(99));
    let size = |_: &str| None;
    let prior = |path: &str| index.borrow_mut().take(SCOPE, path);
    let none = |_: &str| None;
    let attributor = Attributor::new(AggregationOptions::short_term(), &size, &prior, &none, &gone);

    let events = attributor.process(&[
        change(ChangeKind::Deleted, "gone.zip", 1),
        renamed(None, "moved.mov", 2),
        change(ChangeKind::Deleted, "unknown.bin", 3),
    ]);
    assert_eq!(events.len(), 2);
    assert_eq!(events[0].byte_delta, Some(-2048));
    assert_eq!(events[0].confidence, Confidence::Estimated);
    assert_eq!(events[1].kind, EventKind::Deleted);
    assert_eq!(events[1].byte_delta, None);
    assert_eq!(events[1].confidence, Confidence::Unknown);
    assert_eq!(index.borrow_mut().take(SCOPE, &format!("{ROOT}/gone.zip")), None, "prior size is consumed");
}

#[test]
fn a_rename_over_a_file_counts_only_its_growth() {
    let known = Cell::new(516_096i64);
    let size = |_: &str| {
        known.set(520_000);
        Some(520_000)
    };
    let known_size = |_: &str| Some(known.get());
    let none = |_: &str| None;
    let attributor = Attributor::new(AggregationOptions::short_term(), &size, &none, &known_size, &gone);
    let events = attributor.process(&[renamed(Some(format!("{ROOT}/.Preferences.7dlZ2a")), "Preferences", 1), renamed(None, "Preferences", 1)]);
    let deltas: Vec<_> = events.iter().map(|event| event.byte_delta).collect();
    assert_eq!(deltas, vec![Some(3_904)]);
}

#[test]
fn aggregates_same_parent_inside_window() {
    let size = |_: &str| Some(1024 * 1024 * 20);
    let none = |_: &str| None;
    let attributor = Attributor::new(AggregationOptions::long_term(), &size, &none, &none, &gone);
    let events = attributor.process(&[
        change(ChangeKind::Created, "a/1.bin", 10),
        change(ChangeKind::Created, "a/2.bin", 20),
        change(ChangeKind::Created, "b/3.bin", 30),
    ]);
    assert_eq!(events.len(), 2);
    assert_eq!(events[0].kind, EventKind::Aggregate);
    assert_eq!(events[0].path, format!("{ROOT}/a"));
    assert_eq!(events[0].affected_item_count, 2);
    assert_eq!(events[0].byte_delta, Some(2 * 1024 * 1024 * 20));
    assert_eq!(events[1].kind, EventKind::Aggregate);
    assert_eq!(events[1].path, format!("{ROOT}/b"));
    assert_eq!(events[1].affected_item_count, 1);
}

#[test]
fn modifications_report_growth_and_moves_inside_root_net_out() {
    let size = |_: &str| Some(5_000);
    let known = |path: &str| if path.ends_with("report.pdf") { Some(3_000) } else { None };
    let prior = |path: &str| if path.ends_with("draft.mov") { Some(5_000) } else { None };
    let attributor = Attributor::new(AggregationOptions::short_term(), &size, &prior, &known, &gone);

    let events = attributor.process(&[
        change(ChangeKind::Modified, "report.pdf", 1),
        change(ChangeKind::Created, "fresh.txt", 2),
        renamed(Some(format!("{ROOT}/draft.mov")), "final.mov", 3),
        renamed(Some("/Users/example/Desktop/clip.mov".into()), "clip.mov", 4),
        renamed(Some(format!("{ROOT}/mystery.mov")), "solved.mov", 5),
    ]);
    let deltas: Vec<Option<i64>> = events.iter().map(|e| e.byte_delta).collect();
    assert_eq!(deltas, [Some(2_000), Some(5_000), Some(5_000), Some(5_000)]);
    assert_eq!(events[3].confidence, Confidence::Estimated);
}

#[test]
fn a_second_creation_of_a_measured_file_is_growth() {
    let size = |_: &str| Some(3_000);
    let known = |_: &str| Some(1_000);
    let none = |_: &str| None;
    let attributor = Attributor::new(AggregationOptions::short_term(), &size, &none, &known, &gone);

    let events = attributor.process(&[change(ChangeKind::Created, "big.dmg", 1)]);

    assert_eq!(events.len(), 1);
    assert_eq!(events[0].kind, EventKind::Modified);
    assert_eq!(events[0].byte_delta, Some(2_000));
    assert_eq!(events[0].confidence, Confidence::Confirmed);
}

#[test]
fn small_deletions_respect_the_size_threshold() {
    let prior = |_: &str| Some(4_096);
    let none = |_: &str| None;
    let attributor = Attributor::new(
        AggregationOptions { minimum_recorded_byte_delta: 10 * 1024 * 1024, ..AggregationOptions::short_term() },
        &none,
        &prior,
        &none,
        &gone,
    );
    let events = attributor.process(&[change(ChangeKind::Deleted, "a.txt", 1), change(ChangeKind::Deleted, "b.txt", 2)]);
    assert!(events.is_empty());
}

#[test]
fn zero_growth_renames_respect_the_size_threshold() {
    let current = |_: &str| Some(4_096);
    let prior = |_: &str| Some(4_096);
    let none = |_: &str| None;
    let attributor = Attributor::new(
        AggregationOptions { minimum_recorded_byte_delta: 10 * 1024 * 1024, ..AggregationOptions::short_term() },
        &current,
        &prior,
        &none,
        &gone,
    );

    let events = attributor.process(&[renamed(Some(format!("{ROOT}/before.txt")), "after.txt", 1)]);

    assert!(events.is_empty());
}

fn grouped(minimum: i64) -> AggregationOptions {
    AggregationOptions {
        minimum_recorded_byte_delta: minimum,
        aggregation_window_secs: 300,
        records_file_names: false,
        min_file_bytes: None,
        max_file_bytes: None,
    }
}

#[test]
fn aggregated_zero_growth_renames_respect_the_size_threshold() {
    let current = |_: &str| Some(4_096);
    let prior = |_: &str| Some(4_096);
    let none = |_: &str| None;
    let attributor = Attributor::new(grouped(10 * 1024 * 1024), &current, &prior, &none, &gone);

    let events = attributor.process(&[renamed(Some(format!("{ROOT}/before.txt")), "after.txt", 1)]);

    assert!(events.is_empty());
}

#[test]
fn an_aggregated_removal_is_filtered_when_the_net_change_is_small() {
    let current = |path: &str| path.ends_with("arrived.txt").then_some(4_000);
    let prior = |path: &str| path.ends_with("gone.txt").then_some(4_096);
    let none = |_: &str| None;
    let attributor = Attributor::new(grouped(10 * 1024 * 1024), &current, &prior, &none, &gone);

    let events = attributor.process(&[change(ChangeKind::Deleted, "gone.txt", 1), change(ChangeKind::Created, "arrived.txt", 2)]);

    assert!(events.is_empty());
}

#[test]
fn aggregated_small_writes_are_judged_as_one_change() {
    let size = |_: &str| Some(600);
    let none = |_: &str| None;
    let attributor = Attributor::new(grouped(1_000), &size, &none, &none, &gone);
    let events = attributor.process(&[change(ChangeKind::Created, "a.txt", 1), change(ChangeKind::Created, "b.txt", 2)]);
    assert_eq!(events.len(), 1);
    assert_eq!(events[0].kind, EventKind::Aggregate);
    assert_eq!(events[0].byte_delta, Some(1_200));
    assert_eq!(events[0].affected_item_count, 2);
}

#[test]
fn small_modification_shrinkage_respects_the_threshold() {
    let current = |_: &str| Some(4_095);
    let known = |_: &str| Some(4_096);
    let none = |_: &str| None;
    let attributor = Attributor::new(
        AggregationOptions { minimum_recorded_byte_delta: 1_024, ..AggregationOptions::short_term() },
        &current,
        &none,
        &known,
        &gone,
    );

    let events = attributor.process(&[change(ChangeKind::Modified, "file.txt", 1)]);

    assert!(events.is_empty(), "a one-byte truncation bypassed the threshold");
}

#[test]
fn baselines_are_per_watch_not_per_path() {
    let mut index = SizeIndex::new();
    let path = format!("{ROOT}/shared.bin");
    index.record("long-term:/", &path, Some(4_096));
    index.record("short-term:/Users/example/Downloads", &path, Some(2_048));

    assert_eq!(index.take("long-term:/", &path), Some(4_096));
    assert_eq!(
        index.take("short-term:/Users/example/Downloads", &path),
        Some(2_048),
        "one watch consuming its baseline must not blind the other"
    );
}

#[test]
fn a_lone_change_loses_its_file_name_too() {
    let size = |_: &str| Some(4096);
    let none = |_: &str| None;
    let attributor = Attributor::new(grouped(0), &size, &none, &none, &gone);

    let events = attributor.process(&[change(ChangeKind::Created, "secret-report.pdf", 1)]);

    assert_eq!(events.len(), 1);
    assert_eq!(events[0].kind, EventKind::Aggregate);
    assert_eq!(events[0].path, ROOT, "the file name survived the setting");
    assert_eq!(events[0].byte_delta, Some(4096));
    assert_eq!(events[0].affected_item_count, 1);
}

#[test]
fn the_ffi_attributor_measures_through_the_hosts_lookups() {
    struct HostSizes;
    impl SizeLookup for HostSizes {
        fn size(&self, _path: String) -> Option<i64> {
            Some(5_000)
        }
        fn prior_size(&self, path: String) -> Option<i64> {
            path.ends_with("gone.zip").then_some(2_048)
        }
        fn known_size(&self, path: String) -> Option<i64> {
            path.ends_with("report.pdf").then_some(3_000)
        }
        fn is_present(&self, _path: String) -> bool {
            false
        }
    }

    let attributor = ActivityAttributor::new(AggregationOptions::short_term(), HostSizes);
    let events = attributor.process(vec![change(ChangeKind::Modified, "report.pdf", 1), change(ChangeKind::Deleted, "gone.zip", 2)]);

    let deltas: Vec<Option<i64>> = events.iter().map(|event| event.byte_delta).collect();
    assert_eq!(deltas, [Some(2_000), Some(-2_048)]);
    assert_eq!(events[0].path, format!("{ROOT}/report.pdf"));
}

fn bounded(min: Option<i64>, max: Option<i64>) -> AggregationOptions {
    AggregationOptions {
        minimum_recorded_byte_delta: 0,
        aggregation_window_secs: 0,
        records_file_names: true,
        min_file_bytes: min,
        max_file_bytes: max,
    }
}

#[test]
fn a_watch_records_only_files_inside_its_size_bounds() {
    let sizes = |path: &str| match path {
        _ if path.ends_with("tiny.txt") => Some(4_096),
        _ if path.ends_with("big.iso") => Some(8_000_000_000),
        _ => Some(50_000_000),
    };
    let none = |_: &str| None;
    let attributor = Attributor::new(bounded(Some(1_000_000), Some(1_000_000_000)), &sizes, &none, &none, &gone);

    let events = attributor.process(&[
        change(ChangeKind::Modified, "tiny.txt", 1),
        change(ChangeKind::Modified, "big.iso", 1),
        change(ChangeKind::Modified, "movie.mp4", 1),
    ]);

    assert_eq!(events.iter().map(|event| event.path.as_str()).collect::<Vec<_>>(), [format!("{ROOT}/movie.mp4")]);
}

#[test]
fn a_file_of_unknown_size_is_recorded_whatever_the_bounds_say() {
    let unknown = |_: &str| None;
    let attributor = Attributor::new(bounded(Some(1_000_000_000), Some(2_000_000_000)), &unknown, &unknown, &unknown, &gone);

    let events = attributor.process(&[change(ChangeKind::Deleted, "gone.bin", 1)]);

    assert_eq!(events.len(), 1);
    assert_eq!(events[0].byte_delta, None);
}

#[test]
fn a_removal_is_judged_by_the_size_the_watch_last_knew() {
    let vanished = |_: &str| None;
    let small = |_: &str| Some(4_096);
    let large = |_: &str| Some(4_000_000_000);
    let options = bounded(Some(1_000_000), None);

    let filtered = Attributor::new(options, &vanished, &small, &vanished, &gone).process(&[change(ChangeKind::Deleted, "scratch.tmp", 1)]);
    let kept = Attributor::new(options, &vanished, &large, &vanished, &gone).process(&[change(ChangeKind::Deleted, "backup.dmg", 1)]);

    assert!(filtered.is_empty());
    assert_eq!(kept.len(), 1);
}

#[test]
fn a_size_measured_before_a_restart_is_still_the_baseline_after_one() {
    let mut index = SizeIndex::new();
    index.record(SCOPE, "/a/big.bin", Some(4096));
    let written = index.take_pending();

    // What a host writes to disk is what it replays into the next process.
    let mut reopened = SizeIndex::new();
    for (key, size) in &written {
        let (scope, path) = key.split_once('\n').unwrap();
        reopened.record(scope, path, *size);
    }
    assert_eq!(written.len(), 1);
    assert_eq!(reopened.peek(SCOPE, "/a/big.bin"), Some(4096));
    assert_eq!(reopened.peek("another watch", "/a/big.bin"), None);
    assert_eq!(reopened.take(SCOPE, "/a/big.bin"), Some(4096));
    assert_eq!(reopened.peek(SCOPE, "/a/big.bin"), None);
}

#[test]
fn a_file_that_cannot_be_measured_is_still_recorded_but_one_that_is_gone_is_not() {
    let none = |_: &str| None;
    let present = |path: &str| path.ends_with("unreadable.bin");
    let attributor = Attributor::new(AggregationOptions::short_term(), &none, &none, &none, &present);
    let events = attributor.process(&[change(ChangeKind::Modified, "unreadable.bin", 1), change(ChangeKind::Modified, "gone.bin", 1)]);

    assert_eq!(events.len(), 1, "events: {events:#?}");
    assert!(events[0].path.ends_with("unreadable.bin"));
    assert_eq!(events[0].byte_delta, None);
    assert_eq!(events[0].confidence, Confidence::Unknown);
}
