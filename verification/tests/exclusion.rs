use pathlight_core::exclusion::{normalized_pattern, normalized_patterns, ExclusionFilter};

fn owned(patterns: &[&str]) -> Vec<String> {
    patterns.iter().map(|p| p.to_string()).collect()
}

fn filter(patterns: &[&str], root: &str) -> ExclusionFilter {
    ExclusionFilter::new(&owned(patterns), root).expect("patterns compile").expect("patterns are not empty")
}

#[test]
fn an_empty_pattern_list_is_no_filter_at_all() {
    assert!(ExclusionFilter::new(&[], "/root").unwrap().is_none());
    assert!(ExclusionFilter::new(&owned(&["   ", ""]), "/root").unwrap().is_none());
}

#[test]
fn a_leaf_name_and_an_extension_both_match() {
    let filter = filter(&[".DS_Store", "*.tmp"], "/Users/example");
    assert!(filter.excludes("/Users/example/Documents/.DS_Store"));
    assert!(filter.excludes("/Users/example/scratch.tmp"));
    assert!(!filter.excludes("/Users/example/Documents/report.pdf"));
}

#[test]
fn a_directory_pattern_takes_everything_under_it() {
    let filter = filter(&[".Trash/", "**/Caches/"], "/Users/example");
    assert!(filter.excludes("/Users/example/.Trash/old/movie.mov"));
    assert!(filter.excludes("/Users/example/Library/Caches/com.app/blob.bin"));
    assert!(filter.excludes("/Users/example/Library/Caches"));
    assert!(!filter.excludes("/Users/example/Library/Preferences/com.app.plist"));
}

#[test]
fn a_deleted_directory_still_matches_a_directory_only_pattern() {
    let filter = filter(&["node_modules/"], "/Users/example");
    assert!(filter.excludes("/Users/example/project/node_modules"));
}

#[test]
fn a_path_outside_the_root_is_never_excluded() {
    let filter = filter(&[".DS_Store"], "/Users/example/Downloads");
    assert!(!filter.excludes("/Users/example/Documents/.DS_Store"));
    assert!(!filter.excludes("/Users/example/Downloads"));
}

#[test]
fn the_shipped_preset_patterns_match_what_they_name() {
    let filter = filter(&["private/var/folders/", "**/.Trash/", "Library/Caches/**", "**/*.sqlite-wal"], "/");
    assert!(filter.excludes("/private/var/folders/zz/T/scratch"));
    assert!(filter.excludes("/Users/example/.Trash/gone.mov"));
    assert!(filter.excludes("/Library/Caches/build/artifact.o"));
    assert!(filter.excludes("/Users/example/Library/Application Support/db.sqlite-wal"));
    assert!(!filter.excludes("/Users/example/Documents/report.pdf"));
}

#[test]
fn a_pattern_is_stored_one_way_however_it_was_typed() {
    let patterns = normalized_patterns(&owned(&[
        " node_modules/ ",
        r"build\",
        "./target/",
        "/dist/",
        "Library//Caches/",
        "node_modules/",
        "",
        "   ",
    ]));
    assert_eq!(patterns, ["node_modules/", "build/", "target/", "dist/", "Library/Caches/"]);
}

#[test]
fn a_pattern_of_nothing_but_separators_is_no_pattern() {
    assert_eq!(normalized_pattern(" // "), None);
    assert_eq!(normalized_pattern("././a//b///"), Some("a/b/".to_string()));
}

#[test]
fn a_pattern_the_matcher_refuses_is_an_encoding_error() {
    let result = ExclusionFilter::new(&owned(&["a[", "{x"]), "/root");
    match result {
        Err(pathlight_core::CoreError::Encoding { message }) => assert!(message.contains("invalid exclusion pattern"), "{message}"),
        Ok(_) => {}
        Err(other) => panic!("unexpected {other:?}"),
    }
}

#[test]
fn a_path_is_askable_only_where_the_matcher_can_take_the_root_off_it() {
    let f = filter(&["*.log"], "/r");
    assert!(f.askable_path("/r/a.log"));
    assert!(f.askable_path("/r/deep/a.log"));
    assert!(f.askable_path("/rx/a.log"), "a path outside the root is never asked about");
    assert!(!f.askable_path("/r//a.log"), "the crate would see a rooted path");
    let whole = filter(&["*.log"], "/");
    assert!(whole.askable_path("/a.log"));
    assert!(whole.excludes("/var/a.log"));
}

#[test]
fn a_relative_root_is_asked_about_without_taking_it_off() {
    let f = filter(&["*.log"], ".");
    assert!(f.askable_path("./a.log"));
    assert!(f.excludes("./a.log"));
    assert!(!f.excludes("./a.txt"));
    assert!(!f.askable_path("./c:a.log"), "a drive would root the path elsewhere");
    assert!(!filter(&["*.log"], "/r").askable_path("/r/a\\b.log"), "a backslash splits names elsewhere");
}
