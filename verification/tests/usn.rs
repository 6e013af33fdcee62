use pathlight_core::usn::disk_of;

#[test]
fn only_a_local_disk_has_a_journal_to_read() {
    assert_eq!(disk_of(r"C:\Users\x"), Some('C'));
    assert_eq!(disk_of("D:/watched"), Some('D'));
    assert_eq!(disk_of(r"\\server\share\watched"), None);
}

#[test]
fn a_verbatim_drive_is_still_a_drive_and_letters_are_upper_case() {
    assert_eq!(disk_of(r"\\?\e:\x"), Some('E'));
    assert_eq!(disk_of(r"\\.\C:\x"), None);
    assert_eq!(disk_of("/home/x"), None);
    assert_eq!(disk_of("1:/x"), None);
}

use pathlight_core::monitor::{ChangeKind, Report};
use pathlight_core::usn::{
    kinds, records, resume_from, JournalState, Session, UsnRecord, CLOSE, DATA_EXTEND,
    FILE_CREATE, FILE_DELETE, MAX_PENDING, RENAME_NEW_NAME, RENAME_OLD_NAME,
};

#[test]
fn a_close_record_does_not_repeat_the_write_it_closes() {
    let mut session = Session::default();
    assert_eq!(session.fresh(7, FILE_CREATE), FILE_CREATE);
    assert_eq!(session.fresh(7, FILE_CREATE | DATA_EXTEND), DATA_EXTEND);
    assert_eq!(session.fresh(7, FILE_CREATE | DATA_EXTEND | CLOSE), CLOSE);
    // A second open of the same file reports its own writes again.
    assert_eq!(session.fresh(7, DATA_EXTEND), DATA_EXTEND);
}

#[test]
fn a_reason_this_watch_never_asked_for_is_not_a_change() {
    assert_eq!(kinds(CLOSE), vec![]);
    assert_eq!(kinds(FILE_DELETE), vec![ChangeKind::Deleted]);
    assert_eq!(
        kinds(FILE_CREATE | DATA_EXTEND),
        vec![ChangeKind::Created, ChangeKind::Modified]
    );
}

#[test]
fn another_file_starts_its_own_session() {
    let mut session = Session::new();
    assert_eq!(session.fresh(1, FILE_CREATE), FILE_CREATE);
    assert_eq!(session.fresh(2, FILE_CREATE), FILE_CREATE);
    assert_eq!(session.fresh(1, FILE_CREATE | DATA_EXTEND), FILE_CREATE | DATA_EXTEND);
}

fn put16(out: &mut Vec<u8>, at: usize, x: u16) {
    out[at..at + 2].copy_from_slice(&x.to_le_bytes());
}
fn put32(out: &mut Vec<u8>, at: usize, x: u32) {
    out[at..at + 4].copy_from_slice(&x.to_le_bytes());
}
fn put64(out: &mut Vec<u8>, at: usize, x: u64) {
    out[at..at + 8].copy_from_slice(&x.to_le_bytes());
}

/// A version 2 record as the journal lays it out.
fn record(file: u64, parent: u64, usn: i64, reason: u32, name: &str) -> Vec<u8> {
    let units: Vec<u16> = name.encode_utf16().collect();
    let len = (60 + units.len() * 2 + 7) / 8 * 8;
    let len = len.max(64);
    let mut out = vec![0u8; len];
    put32(&mut out, 0, len as u32);
    put16(&mut out, 4, 2);
    put64(&mut out, 8, file);
    put64(&mut out, 16, parent);
    put64(&mut out, 24, usn as u64);
    put32(&mut out, 40, reason);
    put16(&mut out, 56, (units.len() * 2) as u16);
    put16(&mut out, 58, 60);
    for (i, unit) in units.iter().enumerate() {
        put16(&mut out, 60 + 2 * i, *unit);
    }
    out
}

#[test]
fn a_journal_read_is_the_next_usn_then_its_records() {
    let mut buffer = 4096u64.to_le_bytes().to_vec();
    buffer.extend(record(5, 9, 100, FILE_CREATE, "a.txt"));
    buffer.extend(record(6, 9, 101, FILE_DELETE, "b.txt"));
    let (next, found) = records(&buffer).unwrap();
    assert_eq!(next, 4096);
    assert_eq!(found.len(), 2);
    assert_eq!(found[0].file, 5);
    assert_eq!(found[0].parent, 9);
    assert_eq!(found[0].usn, 100);
    assert_eq!(found[0].reason, FILE_CREATE);
    assert_eq!(found[0].name, Some("a.txt".encode_utf16().collect::<Vec<u16>>()));
    assert_eq!(found[1].file, 6);
    assert!(records(&[1, 2, 3]).is_none());
}

#[test]
fn a_record_of_another_version_ends_the_read() {
    let mut buffer = 1u64.to_le_bytes().to_vec();
    buffer.extend(record(5, 9, 100, FILE_CREATE, "a.txt"));
    let mut odd = record(6, 9, 101, FILE_CREATE, "b.txt");
    put16(&mut odd, 4, 3);
    buffer.extend(odd);
    buffer.extend(record(7, 9, 102, FILE_CREATE, "c.txt"));
    let (_, found) = records(&buffer).unwrap();
    assert_eq!(found.len(), 1);
}

fn rec(file: u64, parent: u64, usn: i64, reason: u32, name: &str) -> UsnRecord {
    UsnRecord {
        file,
        parent,
        usn,
        reason,
        name: Some(name.encode_utf16().collect()),
    }
}

/// Runs one record through the reader as a watch would, with `directory`
/// as what resolving its parent gives.
fn feed(state: &mut JournalState, r: &UsnRecord, live: i64, directory: Option<&str>) -> Vec<Report> {
    let (mut out, named) = state.accept(r, live);
    if let Some((reason, name)) = named {
        if state.needs_directory(r.parent) {
            state.remember(r.parent, directory.map(str::to_owned));
        }
        out.extend(state.place("C:/watched", r, reason, &name));
    }
    out
}

#[test]
fn a_created_file_inside_the_root_is_reported_once() {
    let mut state = JournalState::new();
    let created = rec(5, 9, 100, FILE_CREATE, "a.txt");
    let out = feed(&mut state, &created, 50, Some(r"\\?\C:\watched"));
    assert_eq!(
        out,
        vec![
            Report::CaughtUp { event_id: 100 },
            Report::Changed {
                kind: ChangeKind::Created,
                path: "C:/watched/a.txt".into(),
                event_id: 100
            }
        ]
    );
    // The closing record carries nothing new.
    let closed = rec(5, 9, 101, FILE_CREATE | CLOSE, "a.txt");
    assert_eq!(feed(&mut state, &closed, 50, Some(r"\\?\C:\watched")), vec![]);
}

#[test]
fn a_rename_is_one_change_from_its_old_name_to_its_new() {
    let mut state = JournalState::new();
    let old = rec(5, 9, 10, RENAME_OLD_NAME, "a.txt");
    assert_eq!(feed(&mut state, &old, 1000, Some(r"C:\watched")), vec![]);
    let new = rec(5, 9, 11, RENAME_NEW_NAME, "b.txt");
    assert_eq!(
        feed(&mut state, &new, 1000, Some(r"C:\watched")),
        vec![Report::Changed {
            kind: ChangeKind::Renamed {
                previous_path: Some("C:/watched/a.txt".into())
            },
            path: "C:/watched/b.txt".into(),
            event_id: 11
        }]
    );
    assert_eq!(state.departures("C:/watched"), Vec::<String>::new());
}

#[test]
fn a_move_out_of_the_root_is_a_departure() {
    let mut state = JournalState::new();
    let old = rec(5, 9, 10, RENAME_OLD_NAME, "a.txt");
    feed(&mut state, &old, 1000, Some(r"C:\watched"));
    let new = rec(5, 8, 11, RENAME_NEW_NAME, "a.txt");
    assert_eq!(
        feed(&mut state, &new, 1000, Some(r"C:\elsewhere")),
        vec![Report::Changed {
            kind: ChangeKind::Deleted,
            path: "C:/watched/a.txt".into(),
            event_id: 11
        }]
    );
}

#[test]
fn an_unnameable_tree_is_one_gap_until_a_name_resolves() {
    let mut state = JournalState::new();
    let first = rec(5, 9, 10, FILE_DELETE, "a.txt");
    assert_eq!(feed(&mut state, &first, 1000, None), vec![Report::Gap { event_id: 10 }]);
    let second = rec(6, 9, 11, FILE_DELETE, "b.txt");
    assert_eq!(feed(&mut state, &second, 1000, None), vec![]);
}

#[test]
fn a_name_that_is_not_utf16_is_a_gap() {
    let mut state = JournalState::new();
    let broken = UsnRecord {
        file: 5,
        parent: 9,
        usn: 10,
        reason: FILE_CREATE,
        name: Some(vec![0xD800]),
    };
    assert_eq!(feed(&mut state, &broken, 1000, Some(r"C:\watched")), vec![Report::Gap { event_id: 10 }]);
}

#[test]
fn stopping_reports_the_old_names_still_waiting_inside_the_root() {
    let mut state = JournalState::new();
    feed(&mut state, &rec(5, 9, 10, RENAME_OLD_NAME, "a.txt"), 1000, Some(r"C:\watched"));
    feed(&mut state, &rec(6, 8, 11, RENAME_OLD_NAME, "b.txt"), 1000, Some(r"C:\elsewhere"));
    assert_eq!(state.departures("C:/watched"), vec!["C:/watched/a.txt".to_string()]);
}

#[test]
fn a_rename_storm_past_the_bound_is_a_gap() {
    let mut state = JournalState::new();
    for i in 0..MAX_PENDING as u64 {
        assert_eq!(
            feed(&mut state, &rec(i + 1, 9, i as i64, RENAME_OLD_NAME, "a.txt"), 0, Some(r"C:\watched")).len(),
            if i == 0 { 1 } else { 0 }
        );
    }
    let out = feed(&mut state, &rec(99_999, 9, 5000, RENAME_OLD_NAME, "a.txt"), 0, Some(r"C:\watched"));
    assert_eq!(out, vec![Report::Gap { event_id: 5000 }]);
}

#[test]
fn a_stored_cursor_resumes_only_where_the_journal_still_reaches() {
    assert_eq!(resume_from(Some(50), 10, 100), (50, false));
    assert_eq!(resume_from(Some(5), 10, 100), (100, true));
    assert_eq!(resume_from(Some(500), 10, 100), (100, true));
    assert_eq!(resume_from(None, 10, 100), (100, false));
}

#[test]
fn the_replay_is_said_to_be_over_once() {
    let mut state = JournalState::new();
    assert_eq!(state.announce(5, 10), None);
    assert_eq!(state.announce(10, 10), Some(10));
    assert_eq!(state.announce(20, 10), None);
}
