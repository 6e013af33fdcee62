use pathlight_core::event::Timestamp;
use pathlight_core::evidence::EvidencePayload;
use pathlight_core::monitor::{Capabilities, Change, ChangeKind};
use pathlight_core::recording::{marker, observation};
use pathlight_core::measurement::{measured, FileKind, UnixStat};
use pathlight_core::recording::{
    chunk_lengths, cursor_of, overflow_reason, Batch, RecordingSummary, SizeBounds, MAX_BATCH_BYTES, MAX_BATCH_RECORDS,
    SNAPSHOT_CHUNK_MAX_ENTRIES,
};

fn file_of(len: u64, kind: FileKind) -> pathlight_core::measurement::FileMeasurement {
    measured(UnixStat { dev: 1, ino: 2, kind, len, blocks: len / 512, nlink: 1 }, Timestamp::from_secs(0))
}

#[test]
fn bounds_judge_regular_files_by_their_allocation_and_keep_the_rest() {
    let bounds = SizeBounds { min_bytes: Some(1_000_000), max_bytes: None };
    assert!(!bounds.records(Some(&file_of(4_096, FileKind::File))));
    assert!(bounds.records(Some(&file_of(8_000_000, FileKind::File))));
    assert!(bounds.records(Some(&file_of(4_096, FileKind::Directory))), "a directory's rename was dropped");
    assert!(bounds.records(None), "an unmeasured change was dropped");
    assert!(SizeBounds::default().records(Some(&file_of(1, FileKind::File))));
}

#[test]
fn a_batch_goes_to_the_journal_before_it_is_too_large_for_it() {
    let mut batch: Batch<u32> = Batch::new();
    let mut written: Vec<Vec<u32>> = Vec::new();
    for record in 0..(MAX_BATCH_RECORDS as u32 + 10) {
        written.extend(batch.push(record, 100));
    }
    assert_eq!(written.len(), 1);
    assert_eq!(written[0].len(), MAX_BATCH_RECORDS);
    assert_eq!(batch.take(), (MAX_BATCH_RECORDS as u32..MAX_BATCH_RECORDS as u32 + 10).collect::<Vec<_>>());

    let mut bytes: Batch<u32> = Batch::new();
    assert!(bytes.push(1, MAX_BATCH_BYTES - 10).is_empty());
    let flushed = bytes.push(2, 20);
    assert_eq!(flushed, vec![vec![1]], "the waiting record was not written before the one that overflows it");
    assert!(!bytes.is_empty());
}

#[test]
fn snapshot_entries_are_cut_into_bounded_records() {
    assert!(chunk_lengths(&[]).is_empty());
    assert_eq!(chunk_lengths(&[10; 600]), vec![SNAPSHOT_CHUNK_MAX_ENTRIES, SNAPSHOT_CHUNK_MAX_ENTRIES, 88]);
    assert_eq!(chunk_lengths(&[300_000, 300_000, 10]), vec![1, 2]);
    assert_eq!(chunk_lengths(&[2_000_000, 5]), vec![1, 1], "an entry larger than the target is a record of its own");
}

#[test]
fn gaps_say_what_was_lost_and_cursors_skip_the_fresh_start_marker() {
    assert_eq!(overflow_reason(3), "Recorder queue overflow: 3 received observations were dropped");
    assert_eq!(cursor_of(0), None);
    assert_eq!(cursor_of(42), Some(42));
    let mut summary = RecordingSummary::default();
    summary.tally(5, 3, 1);
    summary.tally(u64::MAX, 0, 0);
    assert_eq!(summary, RecordingSummary { records_written: u64::MAX, observations: 3, gaps: 1 });
}

#[test]
fn a_change_is_observed_with_its_measurement_or_the_reason_it_failed() {
    let change = Change {
        kind: ChangeKind::Created,
        path: "/w/a".into(),
        root_path: "/w".into(),
        timestamp: Timestamp::from_secs(5),
        process_name: None,
    };
    let small = SizeBounds { min_bytes: None, max_bytes: Some(100) };
    let (payload, cursor) = observation(change.clone(), 7, Err("gone".into()), &small).unwrap();
    assert_eq!(cursor, Some(7));
    match payload {
        EvidencePayload::Observation { measurement, measurement_error, .. } => {
            assert!(measurement.is_none());
            assert_eq!(measurement_error.as_deref(), Some("gone"));
        }
        other => panic!("{other:?}"),
    }
    assert!(observation(change.clone(), 7, Ok(file_of(4096, FileKind::File)), &small).is_none());
    assert!(observation(change, 0, Ok(file_of(50, FileKind::File)), &small).unwrap().1.is_none());
    let caps = Capabilities { resumable_cursor: true, pairs_renames: false, reports_process: true, may_drop_events: true };
    let (ready, cursor, is_ready) = marker(false, 0, caps);
    assert_eq!(ready, EvidencePayload::Ready { resumable: true, pairs_renames: false });
    assert_eq!((cursor, is_ready), (None, true));
    let (gap, cursor, is_ready) = marker(true, 9, caps);
    assert!(matches!(gap, EvidencePayload::Gap { .. }));
    assert_eq!((cursor, is_ready), (Some(9), false));
}
