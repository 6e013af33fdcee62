use pathlight_core::event::Timestamp;
use pathlight_core::evidence::{validate, EvidencePayload, EvidenceRecord, NativePath, SourceIdentity};

fn record(version: u32, backend: &str, payload: EvidencePayload) -> EvidenceRecord {
    EvidenceRecord {
        schema_version: version,
        source: SourceIdentity { backend: backend.into(), epoch: "1-2".into() },
        sequence: 1,
        source_cursor: None,
        observed_at: Timestamp::from_secs(10),
        payload,
    }
}

#[test]
fn a_record_is_refused_for_its_version_its_source_or_a_reversed_interval() {
    assert_eq!(validate(&record(1, "inotify", EvidencePayload::SessionEnded)), Ok(()));
    assert_eq!(validate(&record(2, "inotify", EvidencePayload::SessionEnded)), Err("unsupported evidence schema version".into()));
    assert_eq!(validate(&record(1, "", EvidencePayload::SessionEnded)), Err("source identity must include backend and epoch".into()));
    let reversed = EvidencePayload::Snapshot {
        started_at: Timestamp::from_secs(20),
        finished_at: Timestamp::from_secs(10),
        logical_bytes: None,
        allocated_bytes: None,
        measured_paths: 0,
        measured_objects: None,
        partial: false,
    };
    assert_eq!(validate(&record(1, "inotify", reversed)), Err("snapshot interval is reversed".into()));
    assert_eq!(validate(&record(1, "inotify", EvidencePayload::SessionStarted { root: NativePath::Utf8("/w".into()) })), Ok(()));
}
