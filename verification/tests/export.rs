use pathlight_core::event::Timestamp;
use pathlight_core::export::{csv, markdown};
use pathlight_core::{ActivityEvent, Confidence, EventKind};

fn event(path: &str) -> ActivityEvent {
    ActivityEvent {
        kind: EventKind::Modified,
        path: path.to_owned(),
        root_path: "/watched".to_owned(),
        timestamp: Timestamp::from_secs(1_700_000_000),
        byte_delta: Some(-4096),
        confidence: Confidence::Confirmed,
        previous_path: None,
        affected_item_count: 1,
        process_name: Some("rsync".to_owned()),
    }
}

#[test]
fn a_row_carries_the_time_it_happened_not_how_long_ago_it_was() {
    let text = csv(&[event("/watched/report.bin")]);
    let row = text.lines().nth(1).expect("one row");

    assert_eq!(row, "2023-11-14T22:13:20Z,changed,/watched/report.bin,,-4096,confirmed,rsync");
}

#[test]
fn a_report_says_where_inside_the_folder_the_bytes_went() {
    let mut big = event("/watched/Caches/blob.bin");
    big.byte_delta = Some(2_000_000_000);
    big.affected_item_count = 3;
    let mut moved = event("/watched/notes.txt");
    moved.previous_path = Some("/watched/old.txt".to_owned());
    moved.byte_delta = None;
    let text = markdown(&[event("/watched/report.bin"), big, moved], "/watched");

    assert!(text.starts_with("# Pathlight report: watched"), "{text}");
    assert!(text.contains("- Changes: 3 (1 with unknown size)"), "{text}");
    assert!(text.contains("- Net change: +1.9 GB"), "{text}");
    let table = text.split("## Where inside the folder").nth(1).unwrap();
    let rows: Vec<&str> = table.lines().filter(|line| line.starts_with('|')).collect();
    assert!(rows[2].starts_with("| Caches |"), "{table}");
    assert!(rows[2].contains("| 3 |"), "{table}");
    assert!(text.contains("- rsync: 3 changes"), "{text}");
    assert!(text.contains("(from `/watched/old.txt`)"), "{text}");
    assert!(text.contains("unknown size"), "{text}");
}

#[test]
fn a_pipe_in_a_name_stays_inside_its_own_cell() {
    let text = markdown(&[event("/watched/a|b.txt")], "/watched");
    assert!(text.contains(r"| a\|b.txt |"), "{text}");
}

#[test]
fn a_comma_in_a_name_stays_inside_its_own_cell() {
    let text = csv(&[event("/watched/a,b \"quoted\".txt")]);
    let row = text.lines().nth(1).expect("one row");

    assert_eq!(row.matches(',').count(), 7, "{row}");
    assert!(row.contains("\"/watched/a,b \"\"quoted\"\".txt\""), "{row}");
}

#[test]
fn a_name_a_spreadsheet_would_run_is_exported_as_text() {
    let mut event = event("/watched/report.bin");
    event.process_name = Some("=cmd|'/c calc'!A1".to_owned());
    let text = csv(&[event]);
    let row = text.lines().nth(1).expect("one row");

    assert!(row.contains(",'=cmd"), "{row}");
    assert!(row.contains(",-4096,"), "{row}");
}

#[test]
fn an_empty_export_is_just_the_header() {
    assert_eq!(csv(&[]), "time,change,path,moved from,bytes,confidence,process\n");
}

#[test]
fn csv_times_are_the_texts_it_is_handed() {
    let event = pathlight_core::ActivityEvent {
        kind: pathlight_core::EventKind::Created,
        path: "/w/a".to_owned(),
        root_path: "/w".to_owned(),
        timestamp: pathlight_core::event::Timestamp::from_secs(0),
        byte_delta: Some(5),
        confidence: pathlight_core::Confidence::Confirmed,
        previous_path: None,
        affected_item_count: 1,
        process_name: None,
    };
    let text = pathlight_core::export::csv_at(&[event.clone(), event], &[Some("2000-01-01T00:00:00Z".to_owned()), None]);
    assert_eq!(
        text,
        "time,change,path,moved from,bytes,confidence,process\n2000-01-01T00:00:00Z,new,/w/a,,5,confirmed,\n,new,/w/a,,5,confirmed,\n"
    );
}

#[test]
fn report_times_are_the_texts_it_is_handed() {
    let event = pathlight_core::ActivityEvent {
        kind: pathlight_core::EventKind::Modified,
        path: "/w/a".to_owned(),
        root_path: "/w".to_owned(),
        timestamp: pathlight_core::event::Timestamp::from_secs(0),
        byte_delta: Some(2048),
        confidence: pathlight_core::Confidence::Confirmed,
        previous_path: None,
        affected_item_count: 1,
        process_name: None,
    };
    let text = pathlight_core::export::markdown_at(
        &[event],
        "/w",
        &[Some("T1".to_owned())],
        &Some("FIRST".to_owned()),
        &None,
    );
    assert!(text.contains("- First change: FIRST\n"), "{text}");
    assert!(!text.contains("- Last change:"), "{text}");
    assert!(text.contains("- T1 changed `/w/a`"), "{text}");
}
