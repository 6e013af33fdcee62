use pathlight_core::measurement::{IdentityPlatform, ObjectIdentity};
use pathlight_core::monitor::{ChangeKind, Report};
use pathlight_core::notify_backend::{forward, NotifyEvent, NotifyKind, RootCheck};

fn event(kind: NotifyKind, paths: &[&str]) -> Option<NotifyEvent> {
    Some(NotifyEvent { kind, paths: paths.iter().map(|p| Some(p.to_string())).collect(), need_rescan: false })
}

#[test]
fn each_path_of_an_event_is_one_change_of_its_kind() {
    assert_eq!(
        forward("/w", event(NotifyKind::Create, &["/w/a", "/w/b"]), 3),
        vec![
            Report::Changed { kind: ChangeKind::Created, path: "/w/a".into(), event_id: 3 },
            Report::Changed { kind: ChangeKind::Created, path: "/w/b".into(), event_id: 3 },
        ]
    );
    assert_eq!(forward("/w", event(NotifyKind::Access, &["/w/a"]), 4), vec![]);
    assert_eq!(
        forward("/w", event(NotifyKind::Modify, &["/w/a"]), 5),
        vec![Report::Changed { kind: ChangeKind::Modified, path: "/w/a".into(), event_id: 5 }]
    );
}

#[test]
fn a_rename_with_both_sides_is_one_move() {
    assert_eq!(
        forward("/w", event(NotifyKind::Name { both: true }, &["/w/a/", "/w/b"]), 6),
        vec![Report::Changed {
            kind: ChangeKind::Renamed { previous_path: Some("/w/a".into()) },
            path: "/w/b".into(),
            event_id: 6
        }]
    );
    assert_eq!(
        forward("/w", event(NotifyKind::Name { both: false }, &["/w/a"]), 7),
        vec![Report::Changed { kind: ChangeKind::Renamed { previous_path: None }, path: "/w/a".into(), event_id: 7 }]
    );
}

#[test]
fn errors_lost_events_unspellable_paths_and_a_vanished_root_are_gaps() {
    assert_eq!(forward("/w", None, 1), vec![Report::Gap { event_id: 1 }]);
    let lost = NotifyEvent { kind: NotifyKind::Create, paths: vec![], need_rescan: true };
    assert_eq!(forward("/w", Some(lost), 2), vec![Report::Gap { event_id: 2 }]);
    let odd = NotifyEvent { kind: NotifyKind::Create, paths: vec![None], need_rescan: false };
    assert_eq!(forward("/w", Some(odd), 3), vec![Report::Gap { event_id: 3 }]);
    assert_eq!(forward("/w", event(NotifyKind::Remove, &["/w/"]), 4), vec![Report::Gap { event_id: 4 }]);
    // A change to the root that is not its removal or rename is an ordinary one.
    assert_eq!(
        forward("/w", event(NotifyKind::Modify, &["/w"]), 5),
        vec![Report::Changed { kind: ChangeKind::Modified, path: "/w".into(), event_id: 5 }]
    );
}

fn id(n: u8) -> ObjectIdentity {
    ObjectIdentity { platform: IdentityPlatform::Unix, volume_id: 1, file_id: vec![n; 8] }
}

#[test]
fn a_root_that_became_a_different_directory_is_noticed_once() {
    let mut check = RootCheck::new(Some(id(1)), 0);
    assert!(check.due(0));
    assert!(!check.drifted(0, Some(Some(id(1)))));
    // Inside the check window nothing is looked at, and nothing is invented.
    assert!(!check.due(500));
    assert!(!check.drifted(500, Some(Some(id(2)))));
    assert!(check.drifted(1_000, Some(Some(id(2)))));
    // Latched: the host has been told.
    assert!(!check.due(5_000));
    assert!(!check.drifted(5_000, None));
}

#[test]
fn an_unreadable_root_counts_as_drifted_and_an_unknown_one_only_by_vanishing() {
    let mut check = RootCheck::new(None, 0);
    assert!(!check.drifted(0, Some(Some(id(3)))));
    assert!(check.drifted(1_000, None));
}
