use pathlight_core::fanotify::{
    candidates, changed, classify, events, handle, kinds, renamed, side, EventClass, ATTRIB,
    CREATE, INFO_DFID_NAME, INFO_FID, INFO_NEW_DFID_NAME, INFO_OLD_DFID_NAME, MODIFY, MOVED_FROM,
    ONDIR, Q_OVERFLOW, RENAME,
};
use pathlight_core::monitor::{ChangeKind, Report};

#[test]
fn a_move_is_reported_as_a_half_the_host_must_pair() {
    assert_eq!(
        kinds(MOVED_FROM),
        vec![ChangeKind::Renamed {
            previous_path: None
        }]
    );
    assert_eq!(kinds(CREATE | ONDIR), vec![ChangeKind::Created]);
    assert_eq!(kinds(MODIFY | ATTRIB), vec![ChangeKind::Modified]);
    // A mask this backend never asked for is not turned into a change.
    assert!(kinds(0x20).is_empty());
}

/// An information record: header, fsid, `file_handle` (bytes, type, handle),
/// then a NUL-terminated name.
fn info(kind: u8, handle_bytes: &[u8], name: &str) -> Vec<u8> {
    let mut body = vec![0u8; 8];
    body.extend((handle_bytes.len() as u32).to_le_bytes());
    body.extend(1i32.to_le_bytes());
    body.extend(handle_bytes);
    body.extend(name.as_bytes());
    body.push(0);
    while (body.len() + 4) % 4 != 0 {
        body.push(0);
    }
    let mut out = vec![kind, 0];
    out.extend(((body.len() + 4) as u16).to_le_bytes());
    out.extend(body);
    out
}

fn event(mask: u64, pid: i32, infos: &[Vec<u8>]) -> Vec<u8> {
    let len = 24 + infos.iter().map(Vec::len).sum::<usize>();
    let mut out = Vec::new();
    out.extend((len as u32).to_le_bytes());
    out.push(3);
    out.push(0);
    out.extend(24u16.to_le_bytes());
    out.extend(mask.to_le_bytes());
    out.extend((-1i32).to_le_bytes());
    out.extend(pid.to_le_bytes());
    for i in infos {
        out.extend(i);
    }
    out
}

#[test]
fn a_read_is_cut_into_its_events() {
    let mut buffer = event(CREATE, 42, &[info(INFO_DFID_NAME, &[1, 2, 3, 4], "a.txt")]);
    buffer.extend(event(Q_OVERFLOW, 0, &[]));
    buffer.extend([1, 2, 3]);
    let found = events(&buffer);
    assert_eq!(found.len(), 2);
    assert_eq!(found[0].mask, CREATE);
    assert_eq!(found[0].pid, 42);
    assert_eq!(found[0].metadata_len, 24);
    assert_eq!(classify(found[0].mask), EventClass::Change);
    assert_eq!(classify(found[1].mask), EventClass::Overflow);
    assert_eq!(classify(RENAME), EventClass::Rename);
}

#[test]
fn a_named_record_is_preferred_and_its_name_read_up_to_the_nul() {
    let bytes = event(
        CREATE,
        1,
        &[info(INFO_FID, &[9, 9], ""), info(INFO_DFID_NAME, &[1, 2, 3, 4], "a.txt")],
    );
    let found = events(&bytes);
    let e = &found[0];
    let (named, fallback) = candidates(&e.bytes, e.metadata_len, false);
    assert_eq!(named.len(), 1);
    assert_eq!(fallback.len(), 1);
    let (start, len) = named[0];
    let (h, name) = handle(&e.bytes[start..start + len], true).unwrap();
    assert_eq!(&h[..4], &4u32.to_le_bytes());
    assert_eq!(&h[8..], &[1, 2, 3, 4]);
    assert_eq!(name, b"a.txt".to_vec());
    let (start, len) = fallback[0];
    let (_, none) = handle(&e.bytes[start..start + len], false).unwrap();
    assert!(none.is_empty());
}

#[test]
fn both_sides_of_a_rename_are_found_by_their_types() {
    let bytes = event(
        RENAME,
        1,
        &[info(INFO_OLD_DFID_NAME, &[1], "a"), info(INFO_NEW_DFID_NAME, &[2], "b")],
    );
    let e = &events(&bytes)[0];
    assert!(side(&e.bytes, e.metadata_len, INFO_OLD_DFID_NAME).is_some());
    assert!(side(&e.bytes, e.metadata_len, INFO_NEW_DFID_NAME).is_some());
    assert!(side(&e.bytes, e.metadata_len, INFO_FID).is_none());
}

#[test]
fn a_rename_with_a_missing_side_is_a_gap_not_half_a_rename() {
    assert_eq!(
        renamed("/w", Some(("/w/a".into(), true)), None, 3),
        vec![Report::Gap { event_id: 3 }]
    );
    assert_eq!(
        renamed("/w", Some(("/w/a".into(), true)), Some(("/w/b".into(), true)), 4),
        vec![Report::Changed {
            kind: ChangeKind::Renamed { previous_path: Some("/w/a".into()) },
            path: "/w/b".into(),
            event_id: 4
        }]
    );
    assert_eq!(
        renamed("/w", Some(("/w/a".into(), true)), Some(("/x/b".into(), true)), 5),
        vec![Report::Changed { kind: ChangeKind::Deleted, path: "/w/a".into(), event_id: 5 }]
    );
    assert!(renamed("/w", Some(("/x/a".into(), true)), Some(("/x/b".into(), true)), 6).is_empty());
}

#[test]
fn a_change_outside_the_root_stops_here_and_an_unnamed_one_is_a_gap() {
    assert!(changed("/w", CREATE, Some(("/x/a".into(), true)), 1).is_empty());
    assert_eq!(changed("/w", CREATE, None, 1), vec![Report::Gap { event_id: 1 }]);
    assert_eq!(
        changed("/w", CREATE, Some(("/w/\u{fffd}".into(), false)), 1),
        vec![Report::Gap { event_id: 1 }]
    );
    assert_eq!(
        changed("/w", CREATE | MODIFY, Some(("/w/a".into(), true)), 7),
        vec![
            Report::Changed { kind: ChangeKind::Created, path: "/w/a".into(), event_id: 7 },
            Report::Changed { kind: ChangeKind::Modified, path: "/w/a".into(), event_id: 8 },
        ]
    );
}
