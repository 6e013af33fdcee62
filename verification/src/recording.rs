//! Bounded, explicit monitoring sessions producing an evidence journal.
//!
//! Callbacks only enqueue observations; metadata reads, snapshots and journal
//! I/O happen on the host's thread. This module is what a session decides:
//! which observations it keeps, when a batch of records goes to the journal,
//! how a snapshot is cut into records, and what it counts.

use vstd::prelude::*;

use crate::attribution::{in_bounds, size_in_bounds};
use crate::chars::{chars_of, decimal, decimal_of, push_all, push_str, string_of};
use crate::evidence::{EvidencePayload, NativePath};
use crate::measurement::{FileKind, FileMeasurement};
use crate::monitor::{report_views, Report, ReportView};
use crate::notify_backend::{event_view, forward, forwarded, NotifyEvent};
use crate::snapshot::{totals_of, ScanErrorKind, ScanSnapshot};

verus! {

/// The most records one batch hands the journal.
pub const MAX_BATCH_RECORDS: usize = 256;

/// The most bytes one batch hands the journal.
pub const MAX_BATCH_BYTES: usize = 8388608;

/// The bytes of snapshot entries one record aims to hold.
pub const SNAPSHOT_CHUNK_TARGET_BYTES: usize = 524288;

/// The most snapshot entries one record holds.
pub const SNAPSHOT_CHUNK_MAX_ENTRIES: usize = 256;

/// What a session wrote.
#[derive(Debug, Default, Clone, Copy, PartialEq, Eq, Structural)]
pub struct RecordingSummary {
    pub records_written: u64,
    pub observations: u64,
    pub gaps: u64,
}

/// The sizes of file a recording keeps observations for, in bytes; `None` is
/// no bound. Only regular files are judged: a directory or a symlink has no
/// size worth comparing, and dropping those observations would take the
/// renames and deletions a reader reconstructs the history from. A file that
/// could not be measured is kept for the same reason.
#[derive(Clone, Copy, Debug, Default, PartialEq, Eq, Structural)]
pub struct SizeBounds {
    pub min_bytes: Option<i64>,
    pub max_bytes: Option<i64>,
}

/// The size a measurement is judged by: a regular file's allocated size where
/// the filesystem reports one, its length otherwise, as a signed number.
pub open spec fn judged_size(measurement: Option<FileMeasurement>) -> Option<i64> {
    match measurement {
        Some(m) => if m.kind == FileKind::File {
            Some(
                match m.allocated_bytes {
                    Some(a) => a as i64,
                    None => m.logical_bytes as i64,
                },
            )
        } else {
            None
        },
        None => None,
    }
}

impl SizeBounds {
    /// Whether an observation whose path measured as `measurement` is kept.
    pub fn records(&self, measurement: Option<&FileMeasurement>) -> (r: bool)
        ensures
            r == in_bounds(
                judged_size(match measurement { Some(m) => Some(*m), None => None }),
                self.min_bytes,
                self.max_bytes,
            ),
    {
        let size: Option<i64> = match measurement {
            Some(m) => match m.kind {
                FileKind::File => {
                    let bytes: u64 = match m.allocated_bytes {
                        Some(a) => a,
                        None => m.logical_bytes,
                    };
                    Some(#[verifier::truncate] (bytes as i64))
                },
                _ => None,
            },
            None => None,
        };
        size_in_bounds(size, self.min_bytes, self.max_bytes)
    }
}

/// The sum of `sizes`.
pub open spec fn total(sizes: Seq<usize>) -> int
    decreases sizes.len(),
{
    if sizes.len() == 0 { 0 } else { total(sizes.drop_last()) + sizes.last() }
}

/// Records waiting to be handed to the journal together, with the bytes each
/// takes as a journal line.
pub struct Batch<T> {
    pending: Vec<T>,
    sizes: Vec<usize>,
    bytes: usize,
}

/// The batches flattened into one run of records.
pub open spec fn flattened<T>(batches: Seq<Vec<T>>) -> Seq<T>
    decreases batches.len(),
{
    if batches.len() == 0 { seq![] } else { flattened(batches.drop_last()) + batches.last()@ }
}

impl<T> Batch<T> {
    /// What waits, in the order it arrived.
    pub closed spec fn waiting(&self) -> Seq<T> {
        self.pending@
    }

    /// The bytes of what waits.
    pub closed spec fn waiting_bytes(&self) -> int {
        self.bytes as int
    }

    /// What waits is below both limits, so it is never handed over too large
    /// for the journal to take in one batch.
    pub closed spec fn wf(&self) -> bool {
        &&& self.sizes@.len() == self.pending@.len()
        &&& self.bytes == total(self.sizes@)
        &&& self.pending@.len() < MAX_BATCH_RECORDS
        &&& self.bytes < MAX_BATCH_BYTES
    }

    /// Nothing waiting.
    pub fn new() -> (b: Batch<T>)
        ensures
            b.wf(),
            b.waiting() == Seq::<T>::empty(),
            b.waiting_bytes() == 0,
    {
        Batch { pending: Vec::new(), sizes: Vec::new(), bytes: 0 }
    }

    /// Whether nothing waits.
    pub fn is_empty(&self) -> (r: bool)
        ensures
            r == (self.waiting().len() == 0),
    {
        self.pending.len() == 0
    }

    /// Everything that waits, as one batch, leaving nothing waiting.
    pub fn take(&mut self) -> (batch: Vec<T>)
        ensures
            batch@ == old(self).waiting(),
            final(self).wf(),
            final(self).waiting() == Seq::<T>::empty(),
            final(self).waiting_bytes() == 0,
    {
        let mut pending: Vec<T> = Vec::new();
        std::mem::swap(&mut pending, &mut self.pending);
        self.sizes = Vec::new();
        self.bytes = 0;
        pending
    }

    /// Adds `record`, which takes `bytes` as a journal line, and returns the
    /// batches that must be written now, in order: what waited, when the
    /// record would take it past the byte limit, and then everything, when
    /// either limit is reached. Nothing is lost or reordered.
    pub fn push(&mut self, record: T, bytes: usize) -> (written: Vec<Vec<T>>)
        requires
            old(self).wf(),
            bytes <= usize::MAX - MAX_BATCH_BYTES,
        ensures
            final(self).wf(),
            flattened(written@) + final(self).waiting() == old(self).waiting().push(record),
            forall|i: int| 0 <= i < written@.len() ==> #[trigger] written@[i]@.len() > 0
                && written@[i]@.len() <= MAX_BATCH_RECORDS,
            written@.len() <= 2,
            old(self).waiting().len() > 0 && old(self).waiting_bytes() + bytes > MAX_BATCH_BYTES
                ==> written@.len() > 0 && written@[0]@ == old(self).waiting(),
            final(self).waiting().len() > 0 ==> final(self).waiting_bytes() == (
                if old(self).waiting().len() > 0 && old(self).waiting_bytes() + bytes > MAX_BATCH_BYTES {
                    bytes as int
                } else {
                    old(self).waiting_bytes() + bytes
                }
            ),
    {
        let mut written: Vec<Vec<T>> = Vec::new();
        let ghost before = self.pending@;
        let ghost record_ghost = record;
        if self.pending.len() > 0 && self.bytes + bytes > MAX_BATCH_BYTES {
            let batch = self.take();
            written.push(batch);
            proof {
                assert(flattened(written@) =~= flattened(Seq::<Vec<T>>::empty()) + before) by {
                    assert(written@.drop_last() =~= Seq::<Vec<T>>::empty());
                }
            }
        }
        let ghost mid = flattened(written@);
        let ghost mid_bytes = self.bytes;
        proof {
            assert(mid + self.pending@ =~= before);
        }
        let ghost sizes_before = self.sizes@;
        self.pending.push(record);
        self.sizes.push(bytes);
        self.bytes = self.bytes + bytes;
        proof {
            assert(self.sizes@.drop_last() =~= sizes_before);
            assert(total(self.sizes@) == total(sizes_before) + bytes);
        }
        if self.pending.len() >= MAX_BATCH_RECORDS || self.bytes >= MAX_BATCH_BYTES {
            let ghost waiting = self.pending@;
            let batch = self.take();
            let ghost before_push = written@;
            written.push(batch);
            proof {
                assert(written@.drop_last() =~= before_push);
                assert(flattened(written@) =~= mid + waiting);
                assert(mid + waiting =~= before.push(record_ghost));
                assert(flattened(written@) + self.pending@ =~= before.push(record_ghost));
            }
        } else {
            proof {
                assert(mid + self.pending@ =~= before.push(record_ghost));
            }
        }
        written
    }
}

/// How snapshot entries of `sizes` bytes each are cut into records, greedily
/// and in order: an entry starts a new record when the record being filled is
/// not empty and is full, or would go past the byte target with it. The
/// lengths of the records, and the bytes of the last one.
pub open spec fn chunking(sizes: Seq<usize>) -> (Seq<nat>, int)
    decreases sizes.len(),
{
    if sizes.len() == 0 {
        (seq![], 0)
    } else {
        let (before, open_bytes) = chunking(sizes.drop_last());
        let open_len: nat = if before.len() == 0 { 0 } else { before.last() };
        let b = sizes.last();
        if open_len > 0 && (open_len >= SNAPSHOT_CHUNK_MAX_ENTRIES || open_bytes + b > SNAPSHOT_CHUNK_TARGET_BYTES) {
            (before.push(1), b as int)
        } else if before.len() == 0 {
            (seq![1], b as int)
        } else {
            (before.drop_last().push(open_len + 1), open_bytes + b)
        }
    }
}

/// The sum of `lengths`.
pub open spec fn count(lengths: Seq<nat>) -> int
    decreases lengths.len(),
{
    if lengths.len() == 0 { 0 } else { count(lengths.drop_last()) + lengths.last() }
}

/// Every entry lands in exactly one record, in order, and every record holds
/// at least one entry and no more than a record may.
pub proof fn chunks_cover_every_entry(sizes: Seq<usize>)
    ensures
        count(chunking(sizes).0) == sizes.len(),
        forall|i: int| 0 <= i < chunking(sizes).0.len()
            ==> 1 <= #[trigger] chunking(sizes).0[i] <= SNAPSHOT_CHUNK_MAX_ENTRIES,
        sizes.len() > 0 <==> chunking(sizes).0.len() > 0,
    decreases sizes.len(),
{
    if sizes.len() > 0 {
        chunks_cover_every_entry(sizes.drop_last());
        let (before, open_bytes) = chunking(sizes.drop_last());
        let lengths = chunking(sizes).0;
        if before.len() > 0 {
            assert(count(before) == count(before.drop_last()) + before.last());
            let open_len = before.last();
            if !(open_len >= SNAPSHOT_CHUNK_MAX_ENTRIES || open_bytes + sizes.last() > SNAPSHOT_CHUNK_TARGET_BYTES) {
                assert(lengths.drop_last() =~= before.drop_last());
                assert forall|i: int| 0 <= i < lengths.len() implies 1 <= #[trigger] lengths[i] <= SNAPSHOT_CHUNK_MAX_ENTRIES by {
                    if i < lengths.len() - 1 {
                        assert(lengths[i] == before[i]);
                    }
                }
            } else {
                assert(lengths.drop_last() =~= before);
            }
        } else {
            assert(lengths =~= seq![1nat]);
            assert(count(seq![1nat].drop_last()) == 0);
        }
    }
}

/// The lengths of the records snapshot entries of `sizes` bytes each are cut
/// into.
pub fn chunk_lengths(sizes: &[usize]) -> (lengths: Vec<usize>)
    ensures
        lengths@.len() == chunking(sizes@).0.len(),
        forall|i: int| 0 <= i < lengths@.len() ==> lengths@[i] == #[trigger] chunking(sizes@).0[i],
{
    let mut lengths: Vec<usize> = Vec::new();
    let mut open_bytes: usize = 0;
    let mut i: usize = 0;
    proof {
        assert(sizes@.take(0) =~= Seq::<usize>::empty());
    }
    while i < sizes.len()
        invariant
            i <= sizes@.len(),
            lengths@.len() == chunking(sizes@.take(i as int)).0.len(),
            forall|k: int| 0 <= k < lengths@.len() ==> lengths@[k] == #[trigger] chunking(sizes@.take(i as int)).0[k],
            open_bytes == chunking(sizes@.take(i as int)).1,
            forall|k: int| 0 <= k < lengths@.len() ==> lengths@[k] <= i,
        decreases sizes@.len() - i,
    {
        let b = sizes[i];
        let ghost prefix = sizes@.take(i as int);
        let ghost before = chunking(prefix).0;
        proof {
            assert(sizes@.take(i + 1).drop_last() =~= prefix);
            assert(sizes@.take(i + 1).last() == b);
        }
        let n = lengths.len();
        if n > 0 && (lengths[n - 1] >= SNAPSHOT_CHUNK_MAX_ENTRIES || b > SNAPSHOT_CHUNK_TARGET_BYTES
            || open_bytes > SNAPSHOT_CHUNK_TARGET_BYTES - b) {
            lengths.push(1);
            open_bytes = b;
        } else if n == 0 {
            lengths.push(1);
            open_bytes = b;
        } else {
            let last = lengths[n - 1];
            lengths.set(n - 1, last + 1);
            open_bytes = open_bytes + b;
        }
        proof {
            let after = chunking(sizes@.take(i + 1)).0;
            assert(lengths@.len() == after.len());
            assert forall|k: int| 0 <= k < lengths@.len() implies lengths@[k] == #[trigger] after[k] by {
                if k < n as int && !(k == n - 1 && after.len() == n) {
                    assert(after[k] == before[k]);
                }
            }
        }
        i = i + 1;
    }
    proof {
        assert(sizes@.take(sizes@.len() as int) =~= sizes@);
    }
    lengths
}

/// The reason a gap is recorded when the queue between the watcher and the
/// recorder overflowed and `dropped` observations were lost.
pub open spec fn overflow_reason_of(dropped: u64) -> Seq<char> {
    "Recorder queue overflow: "@ + decimal(dropped as nat) + " received observations were dropped"@
}

/// Exec form of [`overflow_reason_of`].
pub fn overflow_reason(dropped: u64) -> (r: String)
    ensures
        r@ == overflow_reason_of(dropped),
{
    let mut out = chars_of("Recorder queue overflow: ");
    let digits = decimal_of(dropped);
    push_all(&mut out, digits.as_slice());
    push_str(&mut out, " received observations were dropped");
    string_of(out.as_slice())
}

/// The reason a gap is recorded when the backend reports that history was
/// lost.
pub fn rescan_reason() -> (r: String)
    ensures
        r@ == "Backend reported incomplete observation history; state reconciliation does not restore missing operations"@,
{
    "Backend reported incomplete observation history; state reconciliation does not restore missing operations".to_string()
}

/// The cursor a record carries for an event: none for the zero that fresh
/// starts use, the event's own otherwise.
pub fn cursor_of(event_id: u64) -> (r: Option<u64>)
    ensures
        r == (if event_id == 0 { None::<u64> } else { Some(event_id) }),
{
    if event_id == 0 { None } else { Some(event_id) }
}

/// `n` as a count that stops at the largest `u64` rather than wrapping.
pub open spec fn saturated(n: int) -> int {
    if n > u64::MAX { u64::MAX as int } else { n }
}

impl RecordingSummary {
    /// The summary after a batch of `written` records went to the journal,
    /// `observations` of them observations and `gaps` of them gaps. Counts
    /// saturate rather than wrap.
    pub fn tally(&mut self, written: u64, observations: u64, gaps: u64)
        ensures
            final(self).records_written == saturated(old(self).records_written + written),
            final(self).observations == saturated(old(self).observations + observations),
            final(self).gaps == saturated(old(self).gaps + gaps),
    {
        self.records_written = self.records_written.saturating_add(written);
        self.observations = self.observations.saturating_add(observations);
        self.gaps = self.gaps.saturating_add(gaps);
    }
}


/// The cursor a record carries for an event ID.
pub open spec fn cursor_spec(event_id: u64) -> Option<u64> {
    if event_id == 0 { None } else { Some(event_id) }
}

/// What a recorder writes for a change the watcher reported, given what
/// measuring its path gave: an observation with the measurement or the
/// reason it failed, under the event's cursor — or nothing, when the file is
/// outside the sizes this session records.
pub open spec fn observation_of(
    change: crate::monitor::Change,
    event_id: u64,
    measured: Result<FileMeasurement, String>,
    bounds: SizeBounds,
) -> Option<(crate::evidence::EvidencePayload, Option<u64>)> {
    let measurement = match measured {
        Ok(m) => Some(m),
        Err(_) => None,
    };
    if !in_bounds(judged_size(measurement), bounds.min_bytes, bounds.max_bytes) {
        None
    } else {
        Some((
            crate::evidence::EvidencePayload::Observation {
                change,
                measurement,
                measurement_error: match measured {
                    Ok(_) => None,
                    Err(e) => Some(e),
                },
            },
            cursor_spec(event_id),
        ))
    }
}

/// What a recorder writes for a change, and under which cursor; `None` when
/// the bounds leave the file out.
pub fn observation(
    change: crate::monitor::Change,
    event_id: u64,
    measured: Result<FileMeasurement, String>,
    bounds: &SizeBounds,
) -> (r: Option<(crate::evidence::EvidencePayload, Option<u64>)>)
    ensures
        r == observation_of(change, event_id, measured, *bounds),
{
    let (measurement, measurement_error) = match measured {
        Ok(m) => (Some(m), None),
        Err(e) => (None, Some(e)),
    };
    let keep = match &measurement {
        Some(m) => bounds.records(Some(m)),
        None => bounds.records(None),
    };
    if !keep {
        return None;
    }
    Some((crate::evidence::EvidencePayload::Observation { change, measurement, measurement_error }, cursor_of(event_id)))
}

/// What a recorder writes for a watcher's marker: a gap when history was
/// lost, the watcher's readiness — with what it promises — when the replay
/// caught up. The second is what ends the wait for a watcher to be ready.
pub fn marker(rescan: bool, event_id: u64, capabilities: crate::monitor::Capabilities) -> (r: (crate::evidence::EvidencePayload, Option<u64>, bool))
    ensures
        r.1 == cursor_spec(event_id),
        r.2 == !rescan,
        rescan ==> (r.0 matches crate::evidence::EvidencePayload::Gap { reason } && reason@
            == "Backend reported incomplete observation history; state reconciliation does not restore missing operations"@),
        !rescan ==> r.0 == (crate::evidence::EvidencePayload::Ready {
            resumable: capabilities.resumable_cursor,
            pairs_renames: capabilities.pairs_renames,
        }),
{
    if rescan {
        (crate::evidence::EvidencePayload::Gap { reason: rescan_reason() }, cursor_of(event_id), false)
    } else {
        (
            crate::evidence::EvidencePayload::Ready {
                resumable: capabilities.resumable_cursor,
                pairs_renames: capabilities.pairs_renames,
            },
            cursor_of(event_id),
            true,
        )
    }
}


/// How `std::io::ErrorKind`'s `Debug` names each kind of scan error.
pub open spec fn kind_text(kind: ScanErrorKind) -> Seq<char> {
    match kind {
        ScanErrorKind::NotFound => "NotFound"@,
        ScanErrorKind::PermissionDenied => "PermissionDenied"@,
        ScanErrorKind::InvalidData => "InvalidData"@,
        ScanErrorKind::InvalidInput => "InvalidInput"@,
        ScanErrorKind::Other => "Other"@,
    }
}

/// The name a snapshot error record gives a kind of scan error.
pub fn kind_name(kind: &ScanErrorKind) -> (r: String)
    ensures
        r@ == kind_text(*kind),
{
    match kind {
        ScanErrorKind::NotFound => "NotFound".to_string(),
        ScanErrorKind::PermissionDenied => "PermissionDenied".to_string(),
        ScanErrorKind::InvalidData => "InvalidData".to_string(),
        ScanErrorKind::InvalidInput => "InvalidInput".to_string(),
        ScanErrorKind::Other => "Other".to_string(),
    }
}

/// Whether `record` reports scan error `i` of `s`, whose path is spelled `path`.
pub open spec fn is_error_record(record: EvidencePayload, s: ScanSnapshot, i: int, path: NativePath) -> bool {
    &&& record matches EvidencePayload::SnapshotError { path: p, kind, message }
    &&& record->path == path
    &&& record->kind@ == kind_text(s.errors@[i].kind)
    &&& record->message@ == s.errors@[i].message@
}

/// The record that closes a snapshot: when it ran and what it measured.
pub open spec fn totals_record(s: ScanSnapshot) -> EvidencePayload {
    let t = totals_of(s);
    EvidencePayload::Snapshot {
        started_at: s.started_at,
        finished_at: s.finished_at,
        logical_bytes: t.logical_bytes,
        allocated_bytes: t.allocated_bytes,
        measured_paths: t.measured_paths,
        measured_objects: t.measured_objects,
        partial: t.partial,
    }
}

/// The records a snapshot becomes: one for each scope it could not measure,
/// in the order they were met, each under the path the host spelled for it
/// (`paths[i]` for error `i`), then one with its totals.
pub fn snapshot_records(s: &ScanSnapshot, paths: Vec<NativePath>) -> (r: Vec<EvidencePayload>)
    requires
        paths@.len() == s.errors@.len(),
    ensures
        r@.len() == s.errors@.len() + 1,
        forall|i: int| 0 <= i < s.errors@.len() ==> is_error_record(#[trigger] r@[i], *s, i, paths@[i]),
        r@[r@.len() - 1] == totals_record(*s),
{
    let mut out: Vec<EvidencePayload> = Vec::new();
    let mut rest = paths;
    let ghost all = rest@;
    let mut i: usize = 0;
    while i < s.errors.len()
        invariant
            i <= s.errors@.len(),
            all.len() == s.errors@.len(),
            rest@ == all.skip(i as int),
            out@.len() == i,
            forall|k: int| 0 <= k < i ==> is_error_record(#[trigger] out@[k], *s, k, all[k]),
        decreases s.errors@.len() - i,
    {
        let path = rest.remove(0);
        let error = &s.errors[i];
        let record = EvidencePayload::SnapshotError { path, kind: kind_name(&error.kind), message: error.message.clone() };
        proof {
            assert(all.skip(i as int)[0] == all[i as int]);
            assert(all.skip(i + 1) =~= all.skip(i as int).drop_first());
        }
        out.push(record);
        i = i + 1;
    }
    let t = s.totals();
    out.push(EvidencePayload::Snapshot {
        started_at: s.started_at,
        finished_at: s.finished_at,
        logical_bytes: t.logical_bytes,
        allocated_bytes: t.allocated_bytes,
        measured_paths: t.measured_paths,
        measured_objects: t.measured_objects,
        partial: t.partial,
    });
    out
}

/// Why a recording session was refused before it started.
#[derive(Clone, Copy, Debug, PartialEq, Eq, Structural)]
pub enum SessionRefusal {
    /// The duration is zero, or its deadline cannot be represented.
    Duration,
    /// The watched root is not a directory.
    RootNotDirectory,
    /// The journal lies inside the watched tree and would record itself.
    JournalInsideRoot,
    /// The journal has other names a reader of the tree could reach it by.
    JournalAliased,
}

impl SessionRefusal {
    /// The message a refused session fails with.
    pub fn message(&self) -> (m: String)
        ensures
            m@ == (match *self {
                SessionRefusal::Duration => "duration must be positive and representable"@,
                SessionRefusal::RootNotDirectory => "watch root must be a directory"@,
                SessionRefusal::JournalInsideRoot => "journal must be outside the monitored tree"@,
                SessionRefusal::JournalAliased => "journal must not have hard-link aliases"@,
            }),
    {
        match self {
            SessionRefusal::Duration => "duration must be positive and representable".to_string(),
            SessionRefusal::RootNotDirectory => "watch root must be a directory".to_string(),
            SessionRefusal::JournalInsideRoot => "journal must be outside the monitored tree".to_string(),
            SessionRefusal::JournalAliased => "journal must not have hard-link aliases".to_string(),
        }
    }
}

/// Whether a recording session may start, checked in the order a session
/// checks: its duration (positive, with a deadline the clock can hold),
/// its root (a directory), its journal (outside the root, and not a file
/// with more than one link). `journal_links` is `None` for a journal that
/// does not exist yet or whose link count the platform does not report.
pub fn session_refusal(
    duration_ms: u64,
    deadline_fits: bool,
    root_is_dir: bool,
    journal_inside_root: bool,
    journal_links: Option<u64>,
) -> (r: Option<SessionRefusal>)
    ensures
        r is None <==> (duration_ms > 0 && deadline_fits && root_is_dir && !journal_inside_root
            && (journal_links matches Some(n) ==> n <= 1)),
        r == Some(SessionRefusal::Duration) <==> !(duration_ms > 0 && deadline_fits),
        r == Some(SessionRefusal::RootNotDirectory) <==> (duration_ms > 0 && deadline_fits && !root_is_dir),
        r == Some(SessionRefusal::JournalInsideRoot) <==> (duration_ms > 0 && deadline_fits && root_is_dir
            && journal_inside_root),
        r == Some(SessionRefusal::JournalAliased) <==> (duration_ms > 0 && deadline_fits && root_is_dir
            && !journal_inside_root && (journal_links matches Some(n) && n > 1)),
{
    if duration_ms == 0 || !deadline_fits {
        Some(SessionRefusal::Duration)
    } else if !root_is_dir {
        Some(SessionRefusal::RootNotDirectory)
    } else if journal_inside_root {
        Some(SessionRefusal::JournalInsideRoot)
    } else {
        match journal_links {
            Some(n) => if n > 1 { Some(SessionRefusal::JournalAliased) } else { None },
            None => None,
        }
    }
}

/// Where a running recording session is: the root it watches, its deadline
/// in milliseconds since it started, how many events have arrived, and
/// whether it is over.
#[derive(Debug)]
pub struct SessionState {
    pub root: String,
    pub deadline_ms: u64,
    pub event_id: u64,
    pub ended: bool,
}

/// What the host hands a session: it woke at `now_ms` (with the next flush
/// due at `flush_due_ms`, if any), an event arrived (`None` for an error the
/// watcher reported), or the watcher went away.
pub enum SessionEvent {
    Woke { now_ms: u64, flush_due_ms: Option<u64> },
    Arrived { event: Option<NotifyEvent> },
    Disconnected,
}

/// What a session asks the host to do next.
pub enum SessionAction {
    /// Wait this long for an event.
    Wait { ms: u64 },
    /// Record these reports.
    Record { reports: Vec<Report> },
    /// The deadline has come: take the closing snapshot and drain.
    Stop,
    /// The watcher is gone: the session fails.
    Fail,
}

/// The action a session takes, as values.
pub enum ActionView {
    Wait(u64),
    Record(Seq<ReportView>),
    Stop,
    Fail,
}

impl SessionAction {
    pub open spec fn view_of(&self) -> ActionView {
        match self {
            SessionAction::Wait { ms } => ActionView::Wait(*ms),
            SessionAction::Record { reports } => ActionView::Record(report_views(reports@)),
            SessionAction::Stop => ActionView::Stop,
            SessionAction::Fail => ActionView::Fail,
        }
    }
}

/// How long a session waits: until the next flush or the deadline,
/// whichever comes first, and not at all once that has passed.
pub open spec fn wait_ms(now_ms: u64, flush_due_ms: Option<u64>, deadline_ms: u64) -> u64 {
    let until = match flush_due_ms {
        Some(d) => if d < deadline_ms { d } else { deadline_ms },
        None => deadline_ms,
    };
    if until > now_ms { (until - now_ms) as u64 } else { 0 }
}

/// The step a session takes on `e`: the state it is in after, and what it
/// asks the host to do.
pub open spec fn step_of(s: SessionState, e: SessionEvent) -> (SessionState, ActionView) {
    match e {
        SessionEvent::Woke { now_ms, flush_due_ms } => if now_ms >= s.deadline_ms {
            (SessionState { ended: true, ..s }, ActionView::Stop)
        } else {
            (s, ActionView::Wait(wait_ms(now_ms, flush_due_ms, s.deadline_ms)))
        },
        SessionEvent::Arrived { event } => {
            let id = (s.event_id + 1) as u64;
            (SessionState { event_id: id, ..s }, ActionView::Record(forwarded(s.root@, event_view(event), id)))
        },
        SessionEvent::Disconnected => (SessionState { ended: true, ..s }, ActionView::Fail),
    }
}

/// One step of a recording session.
pub fn session_step(s: &SessionState, e: SessionEvent) -> (r: (SessionState, SessionAction))
    requires
        e is Arrived ==> s.event_id < u64::MAX,
    ensures
        r.0 == step_of(*s, e).0,
        r.1.view_of() == step_of(*s, e).1,
{
    let root = s.root.clone();
    match e {
        SessionEvent::Woke { now_ms, flush_due_ms } => {
            if now_ms >= s.deadline_ms {
                (SessionState { root, deadline_ms: s.deadline_ms, event_id: s.event_id, ended: true }, SessionAction::Stop)
            } else {
                let until = match flush_due_ms {
                    Some(d) => if d < s.deadline_ms { d } else { s.deadline_ms },
                    None => s.deadline_ms,
                };
                let ms = if until > now_ms { until - now_ms } else { 0 };
                (SessionState { root, deadline_ms: s.deadline_ms, event_id: s.event_id, ended: s.ended }, SessionAction::Wait { ms })
            }
        },
        SessionEvent::Arrived { event } => {
            let id = s.event_id + 1;
            let reports = forward(s.root.as_str(), event, id);
            (SessionState { root, deadline_ms: s.deadline_ms, event_id: id, ended: s.ended }, SessionAction::Record { reports })
        },
        SessionEvent::Disconnected => {
            (SessionState { root, deadline_ms: s.deadline_ms, event_id: s.event_id, ended: true }, SessionAction::Fail)
        },
    }
}

} // verus!
