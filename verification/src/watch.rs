//! The decisions a running watch makes: what its counters and its screen of
//! rows become when a batch is written, which findings are worth saying now
//! and which were said too recently, and what row a difference found after a
//! gap becomes.
//!
//! The watch itself — the watcher, the worker thread, the timers, writing the
//! journal and the diary — is the host's part. It asks these about each batch.

use vstd::prelude::*;

use crate::anomaly::{anomalies, anomalies_of, growth, growth_of, Anomaly, AnomalyKind, GROWTH_WINDOW, WINDOW};
use crate::event::{ActivityEvent, Confidence, EventKind, Timestamp};
use crate::paths::{normalize, normalized};
use crate::snapshot::{find, opt_text, BindingChange, BindingChangeKind, ScanSnapshot};

verus! {

/// How many rows the screen of a watch keeps.
pub const MAX_ROWS: usize = 500;

/// What the UI reads. Every field is cumulative for the life of the session.
#[derive(Debug)]
pub struct Live {
    /// Newest first, at most [`MAX_ROWS`].
    pub rows: Vec<ActivityEvent>,
    pub total_byte_delta: i64,
    pub event_count: u64,
    /// Times the backend admitted it lost events. A gap means the numbers
    /// are a floor, not a total, and the UI says so.
    pub gaps: u64,
    /// Changes found by comparing the folder against its baseline after a
    /// gap.
    pub recovered: u64,
    pub dropped: u64,
    pub started_at: Timestamp,
    /// Set when a row could not be written. The row is still on screen, so
    /// saying nothing here would be the difference between a record and a
    /// display nobody can get back.
    pub error: Option<String>,
}

/// `rows` with `events` put in front one at a time, newest first, the
/// oldest falling off past [`MAX_ROWS`].
pub open spec fn pushed_front(rows: Seq<ActivityEvent>, events: Seq<ActivityEvent>) -> Seq<ActivityEvent>
    decreases events.len(),
{
    if events.len() == 0 {
        rows
    } else {
        let before = pushed_front(rows, events.drop_last());
        let grown = seq![events.last()] + before;
        if grown.len() > MAX_ROWS { grown.drop_last() } else { grown }
    }
}

pub open spec fn arrived_of(events: Seq<ActivityEvent>) -> int
    decreases events.len(),
{
    if events.len() == 0 {
        0
    } else {
        let d = match events.last().byte_delta { Some(d) => if d > 0 { d as int } else { 0 }, None => 0 };
        let s = arrived_of(events.drop_last()) + d;
        if s > i64::MAX { i64::MAX as int } else { s }
    }
}

pub open spec fn net_of(events: Seq<ActivityEvent>) -> int
    decreases events.len(),
{
    if events.len() == 0 {
        0
    } else {
        net_of(events.drop_last()) + match events.last().byte_delta { Some(d) => d as int, None => 0 }
    }
}

impl Live {
    /// A session that has seen nothing yet, started at `started_at`.
    pub fn new(started_at: Timestamp) -> (live: Live)
        ensures
            live.rows@.len() == 0,
            live.total_byte_delta == 0,
            live.event_count == 0,
            live.gaps == 0,
            live.recovered == 0,
            live.dropped == 0,
            live.started_at == started_at,
            live.error is None,
    {
        Live {
            rows: Vec::new(),
            total_byte_delta: 0,
            event_count: 0,
            gaps: 0,
            recovered: 0,
            dropped: 0,
            started_at,
            error: None,
        }
    }

    /// Takes in a batch the journal accepted, and `dropped` observations the
    /// backend lost: the totals grow, the rows go on screen newest first,
    /// and what comes back is how many bytes arrived, held at the largest
    /// `i64`.
    pub fn absorb(&mut self, events: Vec<ActivityEvent>, dropped: u64) -> (arrived: i64)
        requires
            old(self).rows@.len() <= MAX_ROWS,
            old(self).dropped + dropped <= u64::MAX,
            old(self).event_count + events@.len() <= u64::MAX,
            forall|k: int| 0 <= k <= events@.len() ==> i64::MIN <= old(self).total_byte_delta + #[trigger] net_of(events@.take(k)) <= i64::MAX,
        ensures
            arrived == arrived_of(events@),
            final(self).rows@ == pushed_front(old(self).rows@, events@),
            final(self).rows@.len() <= MAX_ROWS,
            final(self).total_byte_delta == old(self).total_byte_delta + net_of(events@),
            final(self).event_count == old(self).event_count + events@.len(),
            final(self).dropped == old(self).dropped + dropped,
            final(self).gaps == old(self).gaps,
            final(self).recovered == old(self).recovered,
            final(self).started_at == old(self).started_at,
            final(self).error == old(self).error,
    {
        self.dropped = self.dropped + dropped;
        let ghost start_rows = self.rows@;
        let ghost start_total = self.total_byte_delta;
        let ghost start_count = self.event_count;
        let ghost start_dropped = self.dropped;
        let ghost start_gaps = self.gaps;
        let ghost start_recovered = self.recovered;
        let ghost start_at = self.started_at;
        let ghost start_error = self.error;
        let mut arrived: i64 = 0;
        let mut i: usize = 0;
        while i < events.len()
            invariant
                i <= events@.len(),
                self.rows@ == pushed_front(start_rows, events@.take(i as int)),
                self.rows@.len() <= MAX_ROWS,
                self.total_byte_delta == start_total + net_of(events@.take(i as int)),
                self.event_count == start_count + i,
                self.dropped == start_dropped,
                self.gaps == start_gaps,
                self.recovered == start_recovered,
                self.started_at == start_at,
                self.error == start_error,
                start_count + events@.len() <= u64::MAX,
                arrived == arrived_of(events@.take(i as int)),
                0 <= arrived,
                forall|k: int| 0 <= k <= events@.len() ==> i64::MIN <= start_total + #[trigger] net_of(events@.take(k)) <= i64::MAX,
            decreases events@.len() - i,
        {
            let e = events[i].copy();
            proof {
                assert(events@.take(i + 1).drop_last() =~= events@.take(i as int));
                assert(events@.take(i + 1).last() == events@[i as int]);
                assert(i64::MIN <= start_total + net_of(events@.take(i + 1)) <= i64::MAX);
            }
            let delta: i64 = match e.byte_delta { Some(d) => d, None => 0 };
            self.total_byte_delta = self.total_byte_delta + delta;
            let gain: i64 = if delta > 0 { delta } else { 0 };
            arrived = if arrived > i64::MAX - gain { i64::MAX } else { arrived + gain };
            self.event_count = self.event_count + 1;
            let ghost before = self.rows@;
            self.rows.insert(0, e);
            if self.rows.len() > MAX_ROWS {
                self.rows.pop();
            }
            proof {
                assert(seq![events@[i as int]] + before =~= before.insert(0, events@[i as int]));
                if before.len() + 1 > MAX_ROWS {
                    assert(self.rows@ =~= (seq![events@[i as int]] + before).drop_last());
                }
            }
            i = i + 1;
        }
        proof {
            assert(events@.take(events@.len() as int) =~= events@);
        }
        arrived
    }
}

/// Remembers what has already been said, so one finding is one notification.
#[derive(Debug, Clone, Copy, PartialEq, Eq, Structural)]
pub struct Alerts {
    /// When each kind was last raised. A folder being emptied stays a folder
    /// being emptied for as long as it takes; saying so every flush would
    /// teach the user to ignore it.
    pub said_removal: Option<Timestamp>,
    pub said_burst: Option<Timestamp>,
    pub said_growth: Option<Timestamp>,
    /// How much this folder may gain in a day before the user is told, or
    /// zero for never.
    pub threshold: i64,
    /// The day being added up, and what has arrived inside it.
    pub day: Option<Day>,
}

/// A UTC day being added up: when it started and what arrived inside it.
#[derive(Debug, Clone, Copy, PartialEq, Eq, Structural)]
pub struct Day {
    pub start: Timestamp,
    pub gained: i64,
}

/// When a kind of finding was last said.
pub open spec fn said_of(a: Alerts, kind: AnomalyKind) -> Option<Timestamp> {
    match kind {
        AnomalyKind::Removal => a.said_removal,
        AnomalyKind::Burst => a.said_burst,
        AnomalyKind::Growth => a.said_growth,
    }
}

/// How long a kind of finding stays said, in seconds: a window for the two a
/// window measures, a day for growth, because that is the span the threshold
/// is about.
pub open spec fn cooldown_of(kind: AnomalyKind) -> u64 {
    match kind {
        AnomalyKind::Removal => WINDOW,
        AnomalyKind::Burst => WINDOW,
        AnomalyKind::Growth => GROWTH_WINDOW,
    }
}

/// Whether a finding said at `said` is still too recent to say again at
/// `now`; a clock that went backwards counts as no time at all.
pub open spec fn too_recent(said: Option<Timestamp>, now: Timestamp, cooldown: u64) -> bool {
    match said {
        Some(s) => now.value() - s.value() < cooldown * 1_000_000_000,
        None => false,
    }
}

pub open spec fn said_now(a: Alerts, kind: AnomalyKind, now: Timestamp) -> Alerts {
    match kind {
        AnomalyKind::Removal => Alerts { said_removal: Some(now), ..a },
        AnomalyKind::Burst => Alerts { said_burst: Some(now), ..a },
        AnomalyKind::Growth => Alerts { said_growth: Some(now), ..a },
    }
}

/// The findings of `found` worth saying at `now`, in order, and what is
/// remembered after saying them.
pub open spec fn said_once(a: Alerts, found: Seq<Anomaly>, now: Timestamp) -> (Alerts, Seq<Anomaly>)
    decreases found.len(),
{
    if found.len() == 0 {
        (a, seq![])
    } else {
        let (before, kept) = said_once(a, found.drop_last(), now);
        let alert = found.last();
        if too_recent(said_of(before, alert.kind), now, cooldown_of(alert.kind)) {
            (before, kept)
        } else {
            (said_now(before, alert.kind, now), kept.push(alert))
        }
    }
}

pub open spec fn sat_add(a: i64, b: i64) -> i64 {
    if a + b > i64::MAX { i64::MAX } else if a + b < i64::MIN { i64::MIN } else { (a + b) as i64 }
}

/// What `arrived` bytes at `now` do to the day being added up, and whether
/// the day is now past the threshold. The total starts over at the UTC day
/// boundary; no threshold is no day to add up.
pub open spec fn grown_of(a: Alerts, arrived: i64, now: Timestamp) -> (Alerts, Option<Anomaly>) {
    if a.threshold <= 0 {
        (a, None)
    } else {
        let today = now.day_start_spec();
        let gained = match a.day {
            Some(d) => if d.start == today { d.gained } else { 0 },
            None => 0,
        };
        let total = sat_add(gained, arrived);
        (Alerts { day: Some(Day { start: today, gained: total }), ..a }, growth_of(total, a.threshold))
    }
}

/// What a batch is worth saying about, given that `arrived` bytes of it are
/// new, and what is remembered afterwards.
pub open spec fn news_of(a: Alerts, rows: Seq<ActivityEvent>, arrived: i64, now: Timestamp) -> (Alerts, Seq<Anomaly>) {
    let (grown, g) = grown_of(a, arrived, now);
    let found = anomalies_of(rows, now) + match g { Some(x) => seq![x], None => seq![] };
    said_once(grown, found, now)
}

impl Alerts {
    /// Alerts with nothing said and no growth threshold.
    pub fn new() -> (a: Alerts)
        ensures
            a == (Alerts { said_removal: None, said_burst: None, said_growth: None, threshold: 0, day: None }),
    {
        Alerts { said_removal: None, said_burst: None, said_growth: None, threshold: 0, day: None }
    }

    /// Alerts that also watch for a folder gaining `threshold` bytes in a
    /// day, with `initial_growth` bytes already recorded today.
    pub fn watching(threshold: i64, initial_growth: i64, now: Timestamp) -> (a: Alerts)
        ensures
            a == (Alerts {
                said_removal: None,
                said_burst: None,
                said_growth: None,
                threshold,
                day: Some(Day { start: now.day_start_spec(), gained: if initial_growth < 0 { 0 } else { initial_growth } }),
            }),
    {
        Alerts {
            said_removal: None,
            said_burst: None,
            said_growth: None,
            threshold,
            day: Some(Day { start: now.day_start(), gained: if initial_growth < 0 { 0 } else { initial_growth } }),
        }
    }

    fn grown(&mut self, arrived: i64, now: Timestamp) -> (found: Option<Anomaly>)
        ensures
            (*final(self), found) == grown_of(*old(self), arrived, now),
    {
        if self.threshold <= 0 {
            return None;
        }
        let today = now.day_start();
        let gained = match self.day {
            Some(d) => if d.start == today { d.gained } else { 0 },
            None => 0,
        };
        let total = crate::num::saturating_add_i64(gained, arrived);
        self.day = Some(Day { start: today, gained: total });
        growth(total, self.threshold)
    }

    /// Whether this finding has gone unsaid for its cooldown; if so it is
    /// remembered as said now.
    fn once(&mut self, alert: &Anomaly, now: Timestamp) -> (say: bool)
        ensures
            say == !too_recent(said_of(*old(self), alert.kind), now, cooldown_of(alert.kind)),
            *final(self) == (if say { said_now(*old(self), alert.kind, now) } else { *old(self) }),
    {
        let (said, cooldown) = match alert.kind {
            AnomalyKind::Removal => (self.said_removal, WINDOW),
            AnomalyKind::Burst => (self.said_burst, WINDOW),
            AnomalyKind::Growth => (self.said_growth, GROWTH_WINDOW),
        };
        let recent = match said {
            Some(s) => {
                let n: u128 = now.secs as u128 * 1_000_000_000 + now.nanos as u128;
                let t: u128 = s.secs as u128 * 1_000_000_000 + s.nanos as u128;
                n < t || n - t < cooldown as u128 * 1_000_000_000
            },
            None => false,
        };
        if recent {
            return false;
        }
        match alert.kind {
            AnomalyKind::Removal => self.said_removal = Some(now),
            AnomalyKind::Burst => self.said_burst = Some(now),
            AnomalyKind::Growth => self.said_growth = Some(now),
        }
        true
    }

    /// What is worth saying about these rows right now, given that `arrived`
    /// bytes of them are new. `rows` is newest first and bounded, so a long
    /// enough burst is measured from what was kept: the thresholds are
    /// floors, and a floor that is crossed is still crossed.
    pub fn news(&mut self, rows: &[ActivityEvent], arrived: i64, now: Timestamp) -> (news: Vec<Anomaly>)
        ensures
            (*final(self), news@) == news_of(*old(self), rows@, arrived, now),
    {
        let mut found = anomalies(rows, now);
        let g = self.grown(arrived, now);
        match g {
            Some(x) => found.push(x),
            None => {},
        }
        let ghost all = found@;
        let ghost start = *self;
        proof {
            assert(all =~= anomalies_of(rows@, now) + match g { Some(x) => seq![x], None => seq![] });
        }
        let mut news: Vec<Anomaly> = Vec::new();
        let mut i: usize = 0;
        while i < found.len()
            invariant
                i <= found@.len(),
                found@ == all,
                (*self, news@) == said_once(start, all.take(i as int), now),
            decreases found@.len() - i,
        {
            proof {
                assert(all.take(i + 1).drop_last() =~= all.take(i as int));
                assert(all.take(i + 1).last() == all[i as int]);
            }
            let alert = found[i];
            if self.once(&alert, now) {
                news.push(alert);
            }
            i = i + 1;
        }
        proof {
            assert(all.take(all.len() as int) =~= all);
        }
        news
    }
}

/// The allocated size recorded for `path`, as a signed byte count held at
/// the largest `i64`.
pub open spec fn allocated_in(entries: Seq<(String, crate::measurement::FileMeasurement)>, path: Seq<char>) -> Option<int> {
    match find(entries, path) {
        Some(m) => match m.allocated_bytes {
            Some(b) => Some(if b > i64::MAX { i64::MAX as int } else { b as int }),
            None => None,
        },
        None => None,
    }
}

pub open spec fn recovered_kind(kind: BindingChangeKind) -> EventKind {
    match kind {
        BindingChangeKind::Created | BindingChangeKind::HardLinkAdded => EventKind::Created,
        BindingChangeKind::Removed | BindingChangeKind::HardLinkRemoved => EventKind::Deleted,
        BindingChangeKind::Replaced => EventKind::Modified,
        BindingChangeKind::Renamed => EventKind::Moved,
        BindingChangeKind::Modified => EventKind::Modified,
    }
}

fn allocated_at(snapshot: &ScanSnapshot, path: &str) -> (size: Option<i64>)
    requires
        snapshot.wf(),
    ensures
        match size {
            Some(s) => allocated_in(snapshot.entries@, path@) == Some(s as int),
            None => allocated_in(snapshot.entries@, path@) is None,
        },
{
    match snapshot.get(path) {
        Some(m) => match m.allocated_bytes {
            Some(b) => Some(if b > i64::MAX as u64 { i64::MAX } else { b as i64 }),
            None => None,
        },
        None => None,
    }
}

/// One difference between two observations of `scope`, as a row stamped
/// `now`: nobody knows when inside a gap anything happened. It says what is
/// different, never what happened, so it is always `Estimated`; its size is
/// what the path holds now less what its earlier name held then.
pub fn recovered_row(binding: &BindingChange, previous: &ScanSnapshot, current: &ScanSnapshot, scope: &str, now: Timestamp) -> (row: ActivityEvent)
    requires
        previous.wf(),
        current.wf(),
    ensures
        row.kind == recovered_kind(binding.kind),
        row.path@ == normalized(binding.path@),
        row.root_path@ == scope@,
        row.timestamp == now,
        row.byte_delta == (match (
            allocated_in(current.entries@, binding.path@),
            allocated_in(previous.entries@, match binding.previous_path { Some(p) => p@, None => binding.path@ }),
        ) {
            (None, None) => None,
            (gained, lost) => Some(
                ((match gained { Some(g) => g, None => 0 }) - (match lost { Some(l) => l, None => 0 })) as i64,
            ),
        }),
        row.confidence == Confidence::Estimated,
        opt_text(row.previous_path) == (match binding.previous_path { Some(p) => Some(normalized(p@)), None => None }),
        row.affected_item_count == 1,
        row.process_name is None,
{
    let gained = allocated_at(current, binding.path.as_str());
    let lost = match &binding.previous_path {
        Some(p) => allocated_at(previous, p.as_str()),
        None => allocated_at(previous, binding.path.as_str()),
    };
    let kind = match binding.kind {
        BindingChangeKind::Created | BindingChangeKind::HardLinkAdded => EventKind::Created,
        BindingChangeKind::Removed | BindingChangeKind::HardLinkRemoved => EventKind::Deleted,
        BindingChangeKind::Replaced => EventKind::Modified,
        BindingChangeKind::Renamed => EventKind::Moved,
        BindingChangeKind::Modified => EventKind::Modified,
    };
    let byte_delta = match (gained, lost) {
        (None, None) => None,
        (g, l) => {
            let a: i64 = match g { Some(x) => x, None => 0 };
            let b: i64 = match l { Some(x) => x, None => 0 };
            Some(a - b)
        },
    };
    ActivityEvent {
        kind,
        path: normalize(binding.path.as_str()),
        root_path: scope.to_string(),
        timestamp: now,
        byte_delta,
        confidence: Confidence::Estimated,
        previous_path: match &binding.previous_path {
            Some(p) => Some(normalize(p.as_str())),
            None => None,
        },
        affected_item_count: 1,
        process_name: None,
    }
}

/// How long a worker waits between flushes on a backend that hands events
/// over as they come: the configured latency, at least a millisecond.
pub fn worker_flush_millis(latency_ms: u64) -> (ms: u64)
    ensures
        ms == (if latency_ms < 1 { 1 } else { latency_ms }),
{
    if latency_ms < 1 { 1 } else { latency_ms }
}

} // verus!
