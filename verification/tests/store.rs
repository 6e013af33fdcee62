use pathlight_core::event::{ActivityEvent, Confidence, EventKind, Timestamp};
use pathlight_core::paths;
use pathlight_core::store::{log_tail, rotated, row_count};
use pathlight_core::CoreError;
use pathlight_core::store::{
    default_patterns, Storage, WatchTarget, BACKGROUND_LATENCY_MS, DEFAULT_AGGREGATE_RETENTION_DAYS, DEFAULT_JOURNAL_LIMIT_BYTES,
    DEFAULT_RETENTION_DAYS,
};

fn watch(path: &str, enabled: bool) -> WatchTarget {
    WatchTarget { path: path.to_owned(), enabled }
}

fn reopened(storage: &Storage) -> Storage {
    Storage::reading(storage.dir(), storage.settings().clone())
}

#[test]
fn choosing_grouped_rows_gives_them_a_window_and_naming_files_takes_it_away() {
    let mut storage = Storage::at("/tmp/pathlight-test");

    let options = storage.options();
    assert!(options.records_file_names);
    assert_eq!(options.aggregation_window_secs, 0);

    storage.set_recording(false, 60);
    let options = storage.options();
    assert!(!options.records_file_names);
    assert_eq!(options.aggregation_window_secs, 60);

    storage.set_recording(true, 60);
    assert_eq!(storage.options().aggregation_window_secs, 0);

    assert_eq!(storage.aggregate_retention_days(), DEFAULT_AGGREGATE_RETENTION_DAYS);
    storage.set_aggregate_retention_days(365).unwrap();
    assert_eq!(storage.aggregate_retention_days(), 365);
    assert!(storage.set_aggregate_retention_days(0).is_err());
    assert_eq!(storage.aggregate_retention_days(), 365);
}

#[test]
fn records_can_be_counted_deleted_and_the_settings_put_back() {
    let mut storage = Storage::at("/tmp/pathlight-test");
    storage.forget_records(500);
    let generation = storage.records_generation();
    storage.set_watch_enabled("/watched", true);
    storage.set_retention(30, 2_000_000).unwrap();
    storage.restore_default_settings();
    assert_eq!(storage.records_generation(), generation, "the records were reset too");
    assert_eq!(storage.retention(), (DEFAULT_RETENTION_DAYS, DEFAULT_JOURNAL_LIMIT_BYTES));
    assert_eq!(storage.watches(), [watch("/watched", true)], "a settings reset took the folder list");
    let before = storage.records_epoch();
    storage.forget_records(1_000);
    assert!(storage.records_epoch() > before, "forgetting records left the generation where it was");
}

#[test]
fn own_storage_is_matched_on_path_boundaries() {
    let base = "/tmp/parent";
    let storage = Storage::at(&format!("{base}/pathlight"));

    assert!(storage.is_own(&format!("{base}/pathlight")));
    assert!(storage.is_own(&format!("{base}/pathlight/activity-events.jsonl")));
    assert!(!storage.is_own(&format!("{base}/pathlight-backup/x")));
    assert!(!storage.is_own(base));
    assert!(!storage.is_own(&format!("{base}/Documents/report.pdf")));
}

#[test]
fn the_journal_is_inside_the_directory_every_watch_excludes() {
    let storage = Storage::at("/tmp/pathlight-test");
    let journal = paths::normalize(&storage.journal());

    assert!(storage.is_own(&journal), "{journal} would be recorded");
}

#[test]
fn saved_size_bounds_survive_a_restart_and_default_to_no_bound() {
    let mut storage = Storage::at("/tmp/pathlight-test");

    assert_eq!(storage.size_bounds(), (None, None));
    storage.set_size_bounds(Some(1_000_000), None);

    assert_eq!(reopened(&storage).size_bounds(), (Some(1_000_000), None));
    storage.set_watch_enabled("/a", true);
    assert_eq!(reopened(&storage).size_bounds(), (Some(1_000_000), None));
}

#[test]
fn a_saved_folder_list_survives_a_restart() {
    let mut storage = Storage::at("/tmp/pathlight-test");

    assert!(storage.watches().is_empty());
    storage.set_watches(&[watch("/a", true), watch("/b", false)]);

    assert_eq!(reopened(&storage).watches(), [watch("/a", true), watch("/b", false)]);
    storage.set_watch_enabled("/b", true);
    storage.set_watch_enabled("/c", false);
    assert_eq!(reopened(&storage).watches(), [watch("/a", true), watch("/b", true), watch("/c", false)]);
}

#[test]
fn saved_settings_survive_a_restart_and_fall_back_to_the_shipped_ones() {
    let mut storage = Storage::at("/tmp/pathlight-test");

    assert_eq!(storage.retention(), (DEFAULT_RETENTION_DAYS, DEFAULT_JOURNAL_LIMIT_BYTES));
    assert_eq!(storage.latency_ms(), 5_000);
    assert_eq!(storage.patterns(), default_patterns());
    assert_eq!(storage.options().minimum_recorded_byte_delta, 1_024);
    assert_eq!(storage.growth_alert_bytes(), 0);

    storage.set_retention(30, 2_000_000).unwrap();
    storage.set_latency_ms(BACKGROUND_LATENCY_MS);
    storage.set_patterns(&["*.log".to_owned()]);
    storage.set_minimum_byte_delta(1024);
    storage.set_growth_alert_bytes(5_000_000_000);

    let mut again = reopened(&storage);
    assert_eq!(again.retention(), (30, 2_000_000));
    assert_eq!(again.latency_ms(), BACKGROUND_LATENCY_MS);
    assert_eq!(again.patterns(), ["*.log"]);
    assert_eq!(again.options().minimum_recorded_byte_delta, 1024);
    assert_eq!(again.growth_alert_bytes(), 5_000_000_000);
    again.set_patterns(&[]);
    assert!(reopened(&again).patterns().is_empty());
}

#[test]
fn a_retention_of_nothing_is_refused_and_changes_nothing() {
    let mut storage = Storage::at("/tmp/pathlight-test");
    assert!(storage.set_retention(0, 10).is_err());
    assert_eq!(storage.retention(), (DEFAULT_RETENTION_DAYS, DEFAULT_JOURNAL_LIMIT_BYTES));
}

fn grown(path: &str, delta: Option<i64>, secs: u64) -> ActivityEvent {
    ActivityEvent {
        kind: EventKind::Modified,
        path: path.into(),
        root_path: "/w".into(),
        timestamp: Timestamp::from_secs(secs),
        byte_delta: delta,
        confidence: Confidence::Confirmed,
        previous_path: None,
        affected_item_count: 1,
        process_name: None,
    }
}

#[test]
fn growth_since_a_moment_counts_only_what_grew_after_it() {
    let storage = Storage::at("/tmp/pathlight-test");
    let journal = vec![
        grown("/w/a", Some(100), 10),
        grown("/w/b", Some(-50), 20),
        grown("/w/c", Some(30), 30),
        grown("/w/d", None, 40),
        ActivityEvent { root_path: "/x".into(), ..grown("/x/e", Some(1_000), 50) },
        grown("/w/f", Some(7), 5),
    ];
    assert_eq!(storage.positive_growth_since(journal.clone(), "/w", Timestamp::from_secs(10)), 130);
    assert_eq!(storage.positive_growth_since(journal, "/w", Timestamp::from_secs(31)), 0);
    let huge = vec![grown("/w/a", Some(i64::MAX), 10), grown("/w/b", Some(i64::MAX), 11)];
    assert_eq!(storage.positive_growth_since(huge, "/w", Timestamp::from_secs(0)), i64::MAX);
}

#[test]
fn the_diary_tail_is_its_last_lines_newest_last() {
    assert_eq!(log_tail("", 5), "");
    assert_eq!(log_tail("a\nb\n\nc\n", 2), "b\nc");
    assert_eq!(log_tail("a\r\nb", 5), "a\nb");
    assert_eq!(log_tail("one\n", 0), "");
}

#[test]
fn a_diary_past_its_cap_keeps_whole_lines_from_the_middle_on() {
    assert_eq!(rotated("aaaa\nbbbb\ncccc\n"), "cccc\n");
    assert_eq!(rotated("abc"), "");
    assert_eq!(rotated(""), "");
}

#[test]
fn rows_are_the_lines_that_are_not_empty() {
    assert_eq!(row_count(b""), 0);
    assert_eq!(row_count(b"{}\n{}\n"), 2);
    assert_eq!(row_count(b"{}\n\n{}"), 2);
    assert_eq!(row_count(b"\n\n"), 0);
}

#[test]
fn hitting_the_inotify_watch_limit_says_which_limit_and_how_to_raise_it() {
    let error = CoreError::watch_limit_reached("8192");
    let CoreError::Watch { message } = error else {
        panic!("the watch limit is a watch error");
    };
    assert!(message.contains("fs.inotify.max_user_watches"), "{message}");
    assert!(message.contains("sysctl"), "{message}");
    assert!(message.contains("8192"), "{message}");
    assert!(!message.contains("No space left"), "{message}");
}

#[test]
fn a_writer_from_before_the_records_were_deleted_may_not_write() {
    let mut storage = Storage::at("/tmp/pathlight-test");
    let generation = storage.records_epoch();
    assert!(storage.in_generation(generation));
    storage.forget_records(7);
    assert!(!storage.in_generation(generation), "an old batch could re-create deleted records");
    assert!(storage.in_generation(storage.records_epoch()));
}
