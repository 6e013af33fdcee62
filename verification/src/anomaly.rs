//! What is worth interrupting somebody for.
//!
//! Two findings clear that bar on their own: a folder losing a lot at once (a
//! mistake, or ransomware) and a folder filling up fast. A third is the one a
//! user asks for: a folder growing past a size they named within a day. The
//! window and the thresholds live here because every host notifies from
//! them, and a second definition of "anomaly" means one host stays quiet
//! through what the other calls an emergency.

use vstd::prelude::*;

use crate::event::{ActivityEvent, EventKind, Timestamp};
use crate::num::{saturating_add_i64, saturating_neg_i64};

verus! {

/// The span the thresholds are measured over, in seconds.
pub const WINDOW: u64 = 600;
/// The span a growth threshold is measured over, in seconds: one UTC day.
pub const GROWTH_WINDOW: u64 = 86_400;
/// Enough gone at once that nobody deleted it one file at a time.
pub const REMOVED_ITEMS: u64 = 100;
/// Or enough bytes gone that the count does not matter.
pub const REMOVED_BYTES: i64 = 1_000_000_000;
/// Arriving this fast is either a copy the user started or one they did not.
pub const WRITTEN_BYTES: i64 = 5_000_000_000;

#[derive(Debug, Clone, Copy, PartialEq, Eq, Structural)]
pub enum AnomalyKind {
    /// A lot of this folder just stopped existing.
    Removal,
    /// A lot of this folder just arrived.
    Burst,
    /// The folder gained more in a day than the user said it may.
    Growth,
}

#[derive(Debug, Clone, Copy, PartialEq, Eq, Structural)]
pub struct Anomaly {
    pub kind: AnomalyKind,
    pub items: u64,
    /// Always positive: the size of what happened, not its direction.
    pub bytes: i64,
}

/// `a + b`, held at the largest `u64`.
pub open spec fn sat_u64(a: int, b: int) -> int {
    if a + b > u64::MAX { u64::MAX as int } else { a + b }
}

/// `a + b`, held inside the `i64` range.
pub open spec fn sat_i64(a: int, b: int) -> int {
    if a + b > i64::MAX { i64::MAX as int } else if a + b < i64::MIN { i64::MIN as int } else { a + b }
}

/// The earliest instant inside the window that ends at `now`.
pub open spec fn window_start(now: Timestamp) -> Timestamp {
    if now.secs >= WINDOW {
        Timestamp { secs: (now.secs - WINDOW) as u64, nanos: now.nanos }
    } else {
        Timestamp { secs: 0, nanos: 0 }
    }
}

/// Whether a row stamped `at` counts as of `now`: inside the window, and not
/// in the future.
pub open spec fn in_window(at: Timestamp, now: Timestamp) -> bool {
    window_start(now).no_later_than(at) && at.no_later_than(now)
}

/// The four running totals: items and bytes removed, items and bytes written.
pub struct Tally {
    pub removed_items: u64,
    pub removed_bytes: i64,
    pub written_items: u64,
    pub written_bytes: i64,
}

pub open spec fn delta_of(event: ActivityEvent) -> int {
    match event.byte_delta {
        Some(d) => d as int,
        None => 0,
    }
}

/// Whether `event` counts towards what was removed.
pub open spec fn removes(event: ActivityEvent) -> bool {
    event.kind == EventKind::Deleted || delta_of(event) < 0
}

/// The totals over `events` as of `now`, in the order they are listed.
pub open spec fn tally(events: Seq<ActivityEvent>, now: Timestamp) -> (int, int, int, int)
    decreases events.len(),
{
    if events.len() == 0 {
        (0, 0, 0, 0)
    } else {
        let (ri, rb, wi, wb) = tally(events.drop_last(), now);
        let e = events.last();
        let d = delta_of(e);
        if !in_window(e.timestamp, now) {
            (ri, rb, wi, wb)
        } else {
            let (ri2, rb2) = if removes(e) {
                (sat_u64(ri, e.affected_item_count as int), sat_i64(rb, if d < 0 { d } else { 0 }))
            } else {
                (ri, rb)
            };
            let (wi2, wb2) = if d > 0 {
                (sat_u64(wi, e.affected_item_count as int), sat_i64(wb, d))
            } else {
                (wi, wb)
            };
            (ri2, rb2, wi2, wb2)
        }
    }
}

/// The findings for a set of totals.
pub open spec fn findings(t: (int, int, int, int)) -> Seq<Anomaly> {
    let (ri, rb, wi, wb) = t;
    let removed = if rb == i64::MIN { i64::MAX as int } else { -rb };
    let first = if ri >= REMOVED_ITEMS || removed >= REMOVED_BYTES {
        seq![Anomaly { kind: AnomalyKind::Removal, items: ri as u64, bytes: removed as i64 }]
    } else {
        seq![]
    };
    if wb >= WRITTEN_BYTES {
        first.push(Anomaly { kind: AnomalyKind::Burst, items: wi as u64, bytes: wb as i64 })
    } else {
        first
    }
}

/// The findings in `events` as of `now`.
pub open spec fn anomalies_of(events: Seq<ActivityEvent>, now: Timestamp) -> Seq<Anomaly> {
    findings(tally(events, now))
}

proof fn tally_in_range(events: Seq<ActivityEvent>, now: Timestamp)
    ensures
        ({
            let (ri, rb, wi, wb) = tally(events, now);
            &&& 0 <= ri <= u64::MAX
            &&& i64::MIN <= rb <= 0
            &&& 0 <= wi <= u64::MAX
            &&& 0 <= wb <= i64::MAX
        }),
    decreases events.len(),
{
    if events.len() > 0 {
        tally_in_range(events.drop_last(), now);
    }
}

/// What the rows inside the window lost, added up without bound: every
/// negative delta, whatever kind of change it came with.
pub open spec fn lost_in_window(events: Seq<ActivityEvent>, now: Timestamp) -> int
    decreases events.len(),
{
    if events.len() == 0 {
        0
    } else {
        let e = events.last();
        lost_in_window(events.drop_last(), now) + (match e.byte_delta {
            Some(d) => if in_window(e.timestamp, now) && d < 0 { d as int } else { 0 },
            None => 0,
        })
    }
}

proof fn removed_bytes_are_what_was_lost(events: Seq<ActivityEvent>, now: Timestamp)
    ensures
        tally(events, now).1 == (if lost_in_window(events, now) < i64::MIN { i64::MIN as int } else { lost_in_window(events, now) }),
        lost_in_window(events, now) <= 0,
    decreases events.len(),
{
    if events.len() > 0 {
        removed_bytes_are_what_was_lost(events.drop_last(), now);
    }
}

/// A folder that lost at least [`REMOVED_BYTES`] inside the window is
/// reported as a removal, whatever kind of change each loss came with: a
/// file that shrank is as gone as one that was deleted.
pub proof fn a_large_loss_is_a_removal(events: Seq<ActivityEvent>, now: Timestamp)
    requires
        lost_in_window(events, now) <= -REMOVED_BYTES,
    ensures
        anomalies_of(events, now).len() >= 1,
        anomalies_of(events, now)[0].kind == AnomalyKind::Removal,
        anomalies_of(events, now)[0].bytes >= REMOVED_BYTES,
{
    removed_bytes_are_what_was_lost(events, now);
    tally_in_range(events, now);
}

/// What arrived inside the window, added up without bound: every positive
/// delta.
pub open spec fn gained_in_window(events: Seq<ActivityEvent>, now: Timestamp) -> int
    decreases events.len(),
{
    if events.len() == 0 {
        0
    } else {
        let e = events.last();
        gained_in_window(events.drop_last(), now) + (match e.byte_delta {
            Some(d) => if in_window(e.timestamp, now) && d > 0 { d as int } else { 0 },
            None => 0,
        })
    }
}

/// How many items went inside the window: those of every deletion and of
/// every change that lost bytes.
pub open spec fn items_gone_in_window(events: Seq<ActivityEvent>, now: Timestamp) -> int
    decreases events.len(),
{
    if events.len() == 0 {
        0
    } else {
        let e = events.last();
        let lost = e.kind == EventKind::Deleted || (e.byte_delta matches Some(d) && d < 0);
        items_gone_in_window(events.drop_last(), now)
            + (if in_window(e.timestamp, now) && lost { e.affected_item_count as int } else { 0 })
    }
}

proof fn tallies_are_what_happened(events: Seq<ActivityEvent>, now: Timestamp)
    ensures
        tally(events, now).3 == (if gained_in_window(events, now) > i64::MAX { i64::MAX as int } else { gained_in_window(events, now) }),
        gained_in_window(events, now) >= 0,
        tally(events, now).0 == (if items_gone_in_window(events, now) > u64::MAX { u64::MAX as int } else { items_gone_in_window(events, now) }),
        items_gone_in_window(events, now) >= 0,
    decreases events.len(),
{
    if events.len() > 0 {
        tallies_are_what_happened(events.drop_last(), now);
    }
}

/// A folder that gained at least [`WRITTEN_BYTES`] inside the window is
/// reported as a burst, after any removal.
pub proof fn a_large_gain_is_a_burst(events: Seq<ActivityEvent>, now: Timestamp)
    requires
        gained_in_window(events, now) >= WRITTEN_BYTES,
    ensures
        anomalies_of(events, now).len() >= 1,
        anomalies_of(events, now).last().kind == AnomalyKind::Burst,
        anomalies_of(events, now).last().bytes >= WRITTEN_BYTES,
{
    tallies_are_what_happened(events, now);
    tally_in_range(events, now);
}

/// A folder that lost at least [`REMOVED_ITEMS`] items inside the window is
/// reported as a removal, however few bytes they held.
pub proof fn many_items_gone_is_a_removal(events: Seq<ActivityEvent>, now: Timestamp)
    requires
        items_gone_in_window(events, now) >= REMOVED_ITEMS,
    ensures
        anomalies_of(events, now).len() >= 1,
        anomalies_of(events, now)[0].kind == AnomalyKind::Removal,
        anomalies_of(events, now)[0].items >= REMOVED_ITEMS,
{
    tallies_are_what_happened(events, now);
    tally_in_range(events, now);
}

/// The findings in `events` as of `now`, in whatever order the rows come.
///
/// A caller passing a bounded list measures from what it kept: the thresholds
/// are floors, and a floor that is crossed is still crossed. A row stamped in
/// the future is ignored rather than counted, because a clock that jumped is
/// not a folder that changed.
pub fn anomalies(events: &[ActivityEvent], now: Timestamp) -> (found: Vec<Anomaly>)
    ensures
        found@ == anomalies_of(events@, now),
        forall|i: int| 0 <= i < found@.len() ==> found@[i].bytes >= 0,
{
    let cutoff = if now.secs >= WINDOW {
        Timestamp { secs: now.secs - WINDOW, nanos: now.nanos }
    } else {
        Timestamp { secs: 0, nanos: 0 }
    };
    let mut removed_items: u64 = 0;
    let mut removed_bytes: i64 = 0;
    let mut written_items: u64 = 0;
    let mut written_bytes: i64 = 0;
    let mut i: usize = 0;
    while i < events.len()
        invariant
            i <= events@.len(),
            cutoff == window_start(now),
            tally(events@.take(i as int), now) == (
                removed_items as int,
                removed_bytes as int,
                written_items as int,
                written_bytes as int,
            ),
        decreases events@.len() - i,
    {
        proof {
            assert(events@.take(i + 1).drop_last() =~= events@.take(i as int));
            tally_in_range(events@.take(i as int), now);
        }
        let event = &events[i];
        if cutoff.is_no_later_than(&event.timestamp) && event.timestamp.is_no_later_than(&now) {
            let delta: i64 = match event.byte_delta {
                Some(d) => d,
                None => 0,
            };
            if event.kind == EventKind::Deleted || delta < 0 {
                removed_items = removed_items.saturating_add(event.affected_item_count as u64);
                removed_bytes = saturating_add_i64(removed_bytes, if delta < 0 { delta } else { 0 });
            }
            if delta > 0 {
                written_items = written_items.saturating_add(event.affected_item_count as u64);
                written_bytes = saturating_add_i64(written_bytes, delta);
            }
        }
        i = i + 1;
    }
    proof {
        assert(events@.take(events@.len() as int) =~= events@);
        tally_in_range(events@, now);
    }
    let mut found: Vec<Anomaly> = Vec::new();
    let removed: i64 = saturating_neg_i64(removed_bytes);
    if removed_items >= REMOVED_ITEMS || removed >= REMOVED_BYTES {
        found.push(Anomaly { kind: AnomalyKind::Removal, items: removed_items, bytes: removed });
    }
    if written_bytes >= WRITTEN_BYTES {
        found.push(Anomaly { kind: AnomalyKind::Burst, items: written_items, bytes: written_bytes });
    }
    assert(found@ =~= anomalies_of(events@, now));
    found
}

/// [`anomalies`] for a host that hands over what it kept by value.
pub fn activity_anomalies(events: Vec<ActivityEvent>, now: Timestamp) -> (found: Vec<Anomaly>)
    ensures
        found@ == anomalies_of(events@, now),
{
    anomalies(events.as_slice(), now)
}

/// The window, for a host whose message has to say how long "recently" is.
pub fn activity_anomaly_window_secs() -> (secs: u64)
    ensures
        secs == WINDOW,
{
    WINDOW
}

/// A growth finding when `gained` bytes in one day reach a `threshold` the
/// user set; a threshold of zero or less is one nobody set.
pub open spec fn growth_of(gained: i64, threshold: i64) -> Option<Anomaly> {
    if threshold > 0 && gained >= threshold {
        Some(Anomaly { kind: AnomalyKind::Growth, items: 0, bytes: gained })
    } else {
        None
    }
}

/// Exec form of [`growth_of`].
pub fn growth(gained: i64, threshold: i64) -> (found: Option<Anomaly>)
    ensures
        found == growth_of(gained, threshold),
{
    if threshold > 0 && gained >= threshold {
        Some(Anomaly { kind: AnomalyKind::Growth, items: 0, bytes: gained })
    } else {
        None
    }
}

} // verus!
