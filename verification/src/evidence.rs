//! Versioned evidence, separate from the activity journal. An observation and
//! a later size measurement are independent evidence, never a write-I/O
//! count. Source keys make retries explicit: a record is identified by its
//! source and its sequence within that source.

use vstd::prelude::*;

use crate::event::Timestamp;
use crate::measurement::FileMeasurement;
use crate::monitor::Change;

verus! {

/// The schema version this build writes and reads.
pub const CURRENT_SCHEMA_VERSION: u32 = 1;

/// Which recorder wrote a record: the backend and the epoch it started in.
#[derive(Debug, Clone, PartialEq, Eq, Hash)]
pub struct SourceIdentity {
    pub backend: String,
    pub epoch: String,
}

/// A path spelled losslessly for storage, never for display or as a key.
#[derive(Debug, Clone, PartialEq, Eq)]
pub enum NativePath {
    UnixBytes(Vec<u8>),
    WindowsWide(Vec<u16>),
    Utf8(String),
}

/// What a record says happened.
#[derive(Debug, Clone, PartialEq)]
pub enum EvidencePayload {
    SessionStarted { root: NativePath },
    /// The recorder stopped and drained its accepted queue. This does not
    /// assert an operating-system delivery barrier, absence of gaps, or
    /// complete history.
    SessionEnded,
    /// Scope that could not be measured.
    SnapshotError { path: NativePath, kind: String, message: String },
    Observation { change: Change, measurement: Option<FileMeasurement>, measurement_error: Option<String> },
    Gap { reason: String },
    /// Completed traversal over an interval, never an atomic snapshot or proof
    /// that an earlier history gap was repaired. Totals may be unavailable.
    Snapshot {
        started_at: Timestamp,
        finished_at: Timestamp,
        logical_bytes: Option<u64>,
        allocated_bytes: Option<u64>,
        measured_paths: u64,
        measured_objects: Option<u64>,
        partial: bool,
    },
    Ready { resumable: bool, pairs_renames: bool },
}

/// One record of the evidence journal.
#[derive(Debug, Clone, PartialEq)]
pub struct EvidenceRecord {
    pub schema_version: u32,
    pub source: SourceIdentity,
    /// Ordering and deduplication identity within this source epoch.
    pub sequence: u64,
    /// The native cursor is source-specific; it is not a global sequence.
    pub source_cursor: Option<u64>,
    pub observed_at: Timestamp,
    pub payload: EvidencePayload,
}

/// Why a record is refused, or `None` for one this build accepts: the
/// schema version is checked first, then the source, then a snapshot's
/// interval.
pub open spec fn refusal_of(record: EvidenceRecord) -> Option<Seq<char>> {
    if record.schema_version != CURRENT_SCHEMA_VERSION {
        Some("unsupported evidence schema version"@)
    } else if record.source.backend@.len() == 0 || record.source.epoch@.len() == 0 {
        Some("source identity must include backend and epoch"@)
    } else if record.payload matches EvidencePayload::Snapshot { started_at, finished_at, .. }
        && !started_at.no_later_than(finished_at) {
        Some("snapshot interval is reversed"@)
    } else {
        None
    }
}

/// Whether `record` is one this build writes and reads, with the reason it
/// is not.
pub fn validate(record: &EvidenceRecord) -> (r: Result<(), String>)
    ensures
        r is Ok <==> refusal_of(*record) is None,
        r matches Err(m) ==> refusal_of(*record) == Some(m@),
{
    if record.schema_version != CURRENT_SCHEMA_VERSION {
        return Err("unsupported evidence schema version".to_string());
    }
    if crate::chars::chars_of(record.source.backend.as_str()).len() == 0
        || crate::chars::chars_of(record.source.epoch.as_str()).len() == 0 {
        return Err("source identity must include backend and epoch".to_string());
    }
    match &record.payload {
        EvidencePayload::Snapshot { started_at, finished_at, .. } => {
            if !started_at.is_no_later_than(finished_at) {
                return Err("snapshot interval is reversed".to_string());
            }
        },
        _ => {},
    }
    Ok(())
}

} // verus!
