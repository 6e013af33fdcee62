use pathlight_core::attribution::{compacted, compacting, IndexLine, COMPACT_AT};
use pathlight_core::event::Timestamp;
use pathlight_core::SizeIndex;

const SCOPE: &str = "long-term:/Users/example";

fn key(path: &str) -> String {
    format!("{}\n{}", SCOPE, path)
}

fn line(path: &str, size: Option<i64>, secs: Option<u64>) -> IndexLine {
    IndexLine { key: key(path), size, recorded_at: secs.map(Timestamp::from_secs) }
}

#[test]
fn the_last_line_for_a_path_is_the_baseline_that_loads() {
    let lines = vec![
        line("/Users/example/a", Some(10), Some(100)),
        line("/Users/example/b", Some(20), Some(100)),
        line("/Users/example/a", Some(30), Some(200)),
    ];
    let index = SizeIndex::replayed(&lines, None);
    assert_eq!(index.peek(SCOPE, "/Users/example/a"), Some(30));
    assert_eq!(index.peek(SCOPE, "/Users/example/b"), Some(20));
    assert_eq!(index.peek(SCOPE, "/Users/example/c"), None);
}

#[test]
fn a_removal_line_forgets_the_baseline_before_it() {
    let lines = vec![
        line("/Users/example/a", Some(10), Some(100)),
        line("/Users/example/a", None, Some(150)),
    ];
    let index = SizeIndex::replayed(&lines, None);
    assert_eq!(index.peek(SCOPE, "/Users/example/a"), None);
}

#[test]
fn a_baseline_older_than_the_cutoff_is_not_loaded_but_an_unstamped_one_is() {
    let lines = vec![
        line("/Users/example/old", Some(10), Some(100)),
        line("/Users/example/new", Some(20), Some(500)),
        line("/Users/example/unstamped", Some(30), None),
    ];
    let index = SizeIndex::replayed(&lines, Some(Timestamp::from_secs(400)));
    assert_eq!(index.peek(SCOPE, "/Users/example/old"), None);
    assert_eq!(index.peek(SCOPE, "/Users/example/new"), Some(20));
    assert_eq!(index.peek(SCOPE, "/Users/example/unstamped"), Some(30));
}

#[test]
fn a_baseline_recorded_exactly_at_the_cutoff_is_kept() {
    let lines = vec![line("/Users/example/a", Some(7), Some(400))];
    let index = SizeIndex::replayed(&lines, Some(Timestamp::from_secs(400)));
    assert_eq!(index.peek(SCOPE, "/Users/example/a"), Some(7));
}

#[test]
fn a_rewrite_keeps_the_last_live_baseline_of_each_path_in_order() {
    let lines = vec![
        line("/Users/example/a", Some(10), Some(100)),
        line("/Users/example/b", Some(20), Some(500)),
        line("/Users/example/c", Some(5), Some(50)),
        line("/Users/example/a", Some(30), Some(600)),
        line("/Users/example/d", Some(1), Some(700)),
        line("/Users/example/d", None, Some(800)),
    ];
    let out = compacted(&lines, Some(Timestamp::from_secs(400)));
    assert_eq!(
        out,
        vec![line("/Users/example/b", Some(20), Some(500)), line("/Users/example/a", Some(30), Some(600))]
    );
}

#[test]
fn a_rewritten_file_loads_what_the_original_loaded() {
    let cutoff = Some(Timestamp::from_secs(400));
    let lines = vec![
        line("/Users/example/a", Some(10), Some(100)),
        line("/Users/example/b", Some(20), Some(500)),
        line("/Users/example/a", Some(30), Some(600)),
        line("/Users/example/c", Some(3), None),
        line("/Users/example/b", None, Some(700)),
    ];
    let before = SizeIndex::replayed(&lines, cutoff);
    let after = SizeIndex::replayed(&compacted(&lines, cutoff), cutoff);
    for path in ["/Users/example/a", "/Users/example/b", "/Users/example/c", "/Users/example/d"] {
        assert_eq!(before.peek(SCOPE, path), after.peek(SCOPE, path));
    }
    assert_eq!(after.peek(SCOPE, "/Users/example/a"), Some(30));
    assert_eq!(after.peek(SCOPE, "/Users/example/c"), Some(3));
}

#[test]
fn a_file_is_rewritten_once_it_would_reach_the_limit() {
    assert_eq!(COMPACT_AT, 10_000);
    assert!(!compacting(9_998, 1));
    assert!(compacting(9_999, 1));
    assert!(compacting(0, 10_000));
    assert!(compacting(usize::MAX, usize::MAX));
    assert!(!compacting(0, 0));
}

#[test]
fn a_baseline_reads_back_through_changes_to_other_paths() {
    let mut index = SizeIndex::new();
    index.record(SCOPE, "/Users/example/a", Some(10));
    index.record(SCOPE, "/Users/example/b", Some(20));
    index.record("short-term:/Users/example", "/Users/example/a", Some(99));
    assert_eq!(index.take(SCOPE, "/Users/example/b"), Some(20));
    assert_eq!(index.peek(SCOPE, "/Users/example/a"), Some(10));
    assert_eq!(index.peek(SCOPE, "/Users/example/a"), Some(10), "a peek took the baseline");
    assert_eq!(index.take(SCOPE, "/Users/example/a"), Some(10));
    assert_eq!(index.peek(SCOPE, "/Users/example/a"), None);
}
