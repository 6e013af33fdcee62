use pathlight_core::fsevents::{
    dispatch, HISTORY_DONE, ITEM_CREATED, ITEM_REMOVED, ITEM_RENAMED, KERNEL_DROPPED, MUST_SCAN_SUB_DIRS,
};
use pathlight_core::monitor::{ChangeKind, Report};

#[test]
fn flags_map_onto_changes_the_way_the_swift_host_reads_them() {
    assert_eq!(dispatch(HISTORY_DONE | ITEM_CREATED, "/w/a", 9), Report::CaughtUp { event_id: 9 });
    assert_eq!(dispatch(KERNEL_DROPPED, "/w", 10), Report::Gap { event_id: 10 });
    assert_eq!(dispatch(MUST_SCAN_SUB_DIRS | ITEM_REMOVED, "/w", 11), Report::Gap { event_id: 11 });
    assert_eq!(
        dispatch(ITEM_CREATED | ITEM_REMOVED, "/w/a", 12),
        Report::Changed { kind: ChangeKind::Deleted, path: "/w/a".into(), event_id: 12 }
    );
    assert_eq!(
        dispatch(ITEM_CREATED | ITEM_RENAMED, "/w/dir/", 13),
        Report::Changed { kind: ChangeKind::Renamed { previous_path: None }, path: "/w/dir".into(), event_id: 13 }
    );
    assert_eq!(
        dispatch(ITEM_CREATED, "/w/a", 14),
        Report::Changed { kind: ChangeKind::Created, path: "/w/a".into(), event_id: 14 }
    );
    assert_eq!(
        dispatch(0, "/w/a", 15),
        Report::Changed { kind: ChangeKind::Modified, path: "/w/a".into(), event_id: 15 }
    );
}
