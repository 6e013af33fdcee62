use pathlight_core::event::Timestamp;
use pathlight_core::evidence::{EvidencePayload, NativePath};
use pathlight_core::measurement::{measured, FileKind, UnixStat};
use pathlight_core::monitor::Report;
use pathlight_core::notify_backend::{NotifyEvent, NotifyKind};
use pathlight_core::recording::{
    kind_name, session_refusal, session_step, snapshot_records, SessionAction, SessionEvent, SessionRefusal, SessionState,
};
use pathlight_core::snapshot::{ScanConsistency, ScanError, ScanErrorKind, ScanSnapshot};
use pathlight_core::walk::{descends, root_admitted};

fn node(ino: u64, kind: FileKind, len: u64) -> pathlight_core::measurement::FileMeasurement {
    measured(UnixStat { dev: 1, ino, kind, len, blocks: len / 512, nlink: 1 }, Timestamp::from_secs(5))
}

#[test]
fn a_session_is_refused_for_the_first_thing_wrong_with_it() {
    assert_eq!(session_refusal(1_000, true, true, false, None), None);
    assert_eq!(session_refusal(1_000, true, true, false, Some(1)), None);
    assert_eq!(session_refusal(0, true, false, true, Some(3)), Some(SessionRefusal::Duration));
    assert_eq!(session_refusal(1_000, false, true, false, None), Some(SessionRefusal::Duration));
    assert_eq!(session_refusal(1_000, true, false, true, None), Some(SessionRefusal::RootNotDirectory));
    assert_eq!(session_refusal(1_000, true, true, true, Some(3)), Some(SessionRefusal::JournalInsideRoot));
    assert_eq!(session_refusal(1_000, true, true, false, Some(2)), Some(SessionRefusal::JournalAliased));
    assert_eq!(SessionRefusal::JournalInsideRoot.message(), "journal must be outside the monitored tree");
    assert_eq!(SessionRefusal::Duration.message(), "duration must be positive and representable");
}

fn state() -> SessionState {
    SessionState { root: "/watched".to_owned(), deadline_ms: 10_000, event_id: 4, ended: false }
}

#[test]
fn a_session_waits_until_the_next_flush_or_its_deadline() {
    let (next, action) = session_step(&state(), SessionEvent::Woke { now_ms: 2_000, flush_due_ms: Some(2_100) });
    assert!(!next.ended);
    assert!(matches!(action, SessionAction::Wait { ms: 100 }));
    let (_, action) = session_step(&state(), SessionEvent::Woke { now_ms: 2_000, flush_due_ms: None });
    assert!(matches!(action, SessionAction::Wait { ms: 8_000 }));
    let (_, action) = session_step(&state(), SessionEvent::Woke { now_ms: 2_000, flush_due_ms: Some(1_500) });
    assert!(matches!(action, SessionAction::Wait { ms: 0 }));
}

#[test]
fn a_session_stops_at_its_deadline_and_fails_without_its_watcher() {
    let (next, action) = session_step(&state(), SessionEvent::Woke { now_ms: 10_000, flush_due_ms: None });
    assert!(next.ended);
    assert!(matches!(action, SessionAction::Stop));
    let (next, action) = session_step(&state(), SessionEvent::Disconnected);
    assert!(next.ended);
    assert!(matches!(action, SessionAction::Fail));
}

#[test]
fn an_arriving_event_is_numbered_and_forwarded() {
    let event = NotifyEvent { kind: NotifyKind::Create, paths: vec![Some("/watched/a.txt".to_owned())], need_rescan: false };
    let (next, action) = session_step(&state(), SessionEvent::Arrived { event: Some(event) });
    assert_eq!(next.event_id, 5);
    match action {
        SessionAction::Record { reports } => {
            assert_eq!(reports.len(), 1);
            assert!(matches!(&reports[0], Report::Changed { event_id: 5, .. }));
        }
        _ => panic!("an event was not recorded"),
    }
    let (next, action) = session_step(&state(), SessionEvent::Arrived { event: None });
    assert_eq!(next.event_id, 5);
    assert!(matches!(action, SessionAction::Record { reports } if matches!(reports.as_slice(), [Report::Gap { event_id: 5 }])));
}

#[test]
fn a_snapshot_becomes_its_errors_then_its_totals() {
    let snapshot = ScanSnapshot {
        root: "/watched".to_owned(),
        started_at: Timestamp::from_secs(1),
        finished_at: Timestamp::from_secs(2),
        consistency: ScanConsistency::ObservedInterval,
        entries: vec![("/watched".to_owned(), node(10, FileKind::Directory, 0)), ("/watched/a".to_owned(), node(11, FileKind::File, 4_096))],
        errors: vec![ScanError { path: "/watched/locked".to_owned(), kind: ScanErrorKind::PermissionDenied, message: "denied".to_owned() }],
    };
    let records = snapshot_records(&snapshot, vec![NativePath::Utf8("/watched/locked".to_owned())]);
    assert_eq!(records.len(), 2);
    assert_eq!(
        records[0],
        EvidencePayload::SnapshotError {
            path: NativePath::Utf8("/watched/locked".to_owned()),
            kind: "PermissionDenied".to_owned(),
            message: "denied".to_owned(),
        }
    );
    match &records[1] {
        EvidencePayload::Snapshot { started_at, measured_paths, partial, logical_bytes, .. } => {
            assert_eq!(*started_at, Timestamp::from_secs(1));
            assert_eq!(*measured_paths, 2);
            assert_eq!(*logical_bytes, Some(4_096));
            assert!(*partial);
        }
        other => panic!("the last record was {other:?}"),
    }
    assert_eq!(kind_name(&ScanErrorKind::NotFound), "NotFound");
}

#[test]
fn only_a_directory_is_walked_and_only_while_it_is_the_one_queued() {
    let dir = node(10, FileKind::Directory, 0);
    assert!(root_admitted(&dir));
    assert!(!root_admitted(&node(10, FileKind::Symlink, 0)));
    assert!(!root_admitted(&node(10, FileKind::File, 3)));
    assert!(descends(&dir.identity, &dir));
    assert!(!descends(&node(12, FileKind::Directory, 0).identity, &dir), "descended through a replacement");
    assert!(!descends(&dir.identity, &node(10, FileKind::Symlink, 0)));
}
