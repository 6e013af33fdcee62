//! The rules of the append-only journal: which rows a trim keeps, which it
//! folds into one grouped row per root and UTC day, which it drops, how much
//! the size cap takes off the front, and the order rows are read back in.
//!
//! The file itself — reading lines, decrypting, parsing, writing the trimmed
//! copy and renaming it over the journal — is the host's part. It asks these
//! rules about each line and writes what they keep.

use vstd::prelude::*;

use crate::chars::chars_of;
use crate::event::{ActivityEvent, Confidence, EventKind, Timestamp};
use crate::history::newer;
use crate::order::{is_text_less, text_less};
use crate::paths::{normalize, normalized};

verus! {

/// Seconds in a day, the width of a grouped row.
pub const DAY_SECS: u64 = 86_400;

/// What the retention windows say about one line.
#[derive(Clone, Copy, Debug, PartialEq, Eq, Structural)]
pub enum Verdict {
    /// Too new to age out, or a row this build cannot read.
    Keep,
    /// Past its detail but still inside the grouped window.
    Roll,
    /// Past every window.
    Drop,
}

/// The instants before which rows age out: `None` is a window of forever.
#[derive(Clone, Copy, Debug, PartialEq, Eq, Structural)]
pub struct Windows {
    /// Whether anything ages out at all.
    pub ages: bool,
    /// Detailed rows older than this go.
    pub detailed: Option<Timestamp>,
    /// Grouped rows, and the detail they would be made of, older than this go.
    pub aggregate: Option<Timestamp>,
}

/// The instant `days` days before `now`, or `None` for zero days or a day
/// before the epoch.
pub open spec fn cutoff_of(now: Timestamp, days: u32) -> Option<Timestamp> {
    if days == 0 || now.secs < days * DAY_SECS {
        None
    } else {
        Some(Timestamp { secs: (now.secs - days * DAY_SECS) as u64, nanos: now.nanos })
    }
}

pub open spec fn windows_of(now: Timestamp, retention_days: u32, aggregate_days: u32) -> Windows {
    Windows {
        ages: retention_days > 0 || aggregate_days > 0,
        detailed: cutoff_of(now, retention_days),
        // Grouped rows outlive the detailed rows they were made of, but zero
        // still means forever.
        aggregate: if aggregate_days == 0 {
            None
        } else {
            cutoff_of(now, if aggregate_days < retention_days { retention_days } else { aggregate_days })
        },
    }
}

/// The instant `days` days before `now`, or `None` for zero days or a day
/// before the epoch.
pub fn cutoff(now: Timestamp, days: u32) -> (c: Option<Timestamp>)
    ensures
        c == cutoff_of(now, days),
{
    let span: u64 = days as u64 * DAY_SECS;
    if days == 0 || now.secs < span {
        None
    } else {
        Some(Timestamp { secs: now.secs - span, nanos: now.nanos })
    }
}

/// The retention windows at `now` for a journal kept `retention_days` days,
/// with grouped rows kept `aggregate_days`; zero is forever for either.
pub fn windows(now: Timestamp, retention_days: u32, aggregate_days: u32) -> (w: Windows)
    ensures
        w == windows_of(now, retention_days, aggregate_days),
{
    Windows {
        ages: retention_days > 0 || aggregate_days > 0,
        detailed: cutoff(now, retention_days),
        aggregate: if aggregate_days == 0 {
            None
        } else {
            cutoff(now, if aggregate_days < retention_days { retention_days } else { aggregate_days })
        },
    }
}

/// Whether `at` is not before the cutoff; no cutoff keeps everything.
pub open spec fn within(cutoff: Option<Timestamp>, at: Timestamp) -> bool {
    match cutoff {
        Some(c) => c.no_later_than(at),
        None => true,
    }
}

/// What the windows say about a line, given the row it holds when this build
/// can read it. A row this build cannot read is not aged out on a guess.
pub open spec fn verdict_of(row: Option<ActivityEvent>, w: Windows) -> Verdict {
    if !w.ages {
        Verdict::Keep
    } else {
        match row {
            None => Verdict::Keep,
            Some(e) => {
                let inside_groups = within(w.aggregate, e.timestamp);
                if e.kind == EventKind::Aggregate {
                    if inside_groups { Verdict::Keep } else { Verdict::Drop }
                } else if within(w.detailed, e.timestamp) {
                    Verdict::Keep
                } else if inside_groups {
                    Verdict::Roll
                } else {
                    Verdict::Drop
                }
            },
        }
    }
}

fn is_within(cutoff: Option<Timestamp>, at: Timestamp) -> (r: bool)
    ensures
        r == within(cutoff, at),
{
    match cutoff {
        Some(c) => c.is_no_later_than(&at),
        None => true,
    }
}

/// Exec form of [`verdict_of`].
pub fn judge(row: &Option<ActivityEvent>, w: &Windows) -> (v: Verdict)
    ensures
        v == verdict_of(*row, *w),
{
    if !w.ages {
        return Verdict::Keep;
    }
    match row {
        None => Verdict::Keep,
        Some(e) => {
            let inside_groups = is_within(w.aggregate, e.timestamp);
            if e.kind == EventKind::Aggregate {
                if inside_groups { Verdict::Keep } else { Verdict::Drop }
            } else if is_within(w.detailed, e.timestamp) {
                Verdict::Keep
            } else if inside_groups {
                Verdict::Roll
            } else {
                Verdict::Drop
            }
        },
    }
}

/// The UTC day a row falls on, as the second it starts.
pub open spec fn day_of(at: Timestamp) -> u64 {
    (at.secs / DAY_SECS * DAY_SECS) as u64
}

/// Whether group key `(root_a, day_a)` sorts before `(root_b, day_b)`.
pub open spec fn key_before(root_a: Seq<char>, day_a: u64, root_b: Seq<char>, day_b: u64) -> bool {
    text_less(root_a, root_b) || (root_a == root_b && day_a < day_b)
}

/// Whether a grouped row is the group of `root` on `day`.
pub open spec fn is_group(g: ActivityEvent, root: Seq<char>, day: u64) -> bool {
    g.root_path@ == root && g.timestamp == Timestamp { secs: day, nanos: 0 }
}

pub open spec fn sat_add_u32(a: u32, b: u32) -> u32 {
    if a + b > u32::MAX { u32::MAX } else { (a + b) as u32 }
}

pub open spec fn sat_add_i64(a: i64, b: i64) -> i64 {
    if a + b > i64::MAX { i64::MAX } else if a + b < i64::MIN { i64::MIN } else { (a + b) as i64 }
}

/// `group` with one more expired row folded in: counts add up, a delta
/// nobody knew makes the total unknown, and the group stays confirmed only
/// while everything in it was.
pub open spec fn folded(group: ActivityEvent, e: ActivityEvent) -> ActivityEvent {
    let delta = match (group.byte_delta, e.byte_delta) {
        (Some(t), Some(d)) => Some(sat_add_i64(t, d)),
        _ => None,
    };
    ActivityEvent {
        affected_item_count: sat_add_u32(group.affected_item_count, e.affected_item_count),
        byte_delta: delta,
        confidence: if delta is None {
            Confidence::Unknown
        } else if group.confidence == Confidence::Confirmed && e.confidence == Confidence::Confirmed {
            Confidence::Confirmed
        } else {
            Confidence::Estimated
        },
        ..group
    }
}

/// The empty group a row's root and day start with.
pub open spec fn fresh_group(e: ActivityEvent) -> ActivityEvent {
    ActivityEvent {
        kind: EventKind::Aggregate,
        path: e.root_path,
        root_path: e.root_path,
        timestamp: Timestamp { secs: day_of(e.timestamp), nanos: 0 },
        byte_delta: Some(0),
        confidence: Confidence::Confirmed,
        previous_path: None,
        affected_item_count: 0,
        process_name: None,
    }
}

/// The groups, ordered by root then day, with `e` folded into its own group,
/// which is started where it sorts when there is none yet.
pub open spec fn rolled_into(groups: Seq<ActivityEvent>, e: ActivityEvent) -> Seq<ActivityEvent>
    decreases groups.len(),
{
    let root = e.root_path@;
    let day = day_of(e.timestamp);
    if groups.len() == 0 {
        seq![folded(fresh_group(e), e)]
    } else if is_group(groups[0], root, day) {
        seq![folded(groups[0], e)] + groups.drop_first()
    } else if key_before(root, day, groups[0].root_path@, groups[0].timestamp.secs) {
        seq![folded(fresh_group(e), e)] + groups
    } else {
        seq![groups[0]] + rolled_into(groups.drop_first(), e)
    }
}

/// Every expired row of `rows` folded into its group, in the order given.
pub open spec fn rolled(rows: Seq<ActivityEvent>) -> Seq<ActivityEvent>
    decreases rows.len(),
{
    if rows.len() == 0 {
        seq![]
    } else {
        rolled_into(rolled(rows.drop_last()), rows.last())
    }
}

/// Whether the groups are ordered by root then day, one per key.
pub open spec fn ordered_groups(groups: Seq<ActivityEvent>) -> bool {
    forall|i: int, j: int| 0 <= i < j < groups.len() ==> key_before(
        (#[trigger] groups[i]).root_path@, groups[i].timestamp.secs,
        (#[trigger] groups[j]).root_path@, groups[j].timestamp.secs)
}

fn is_key_before(root_a: &str, day_a: u64, root_b: &str, day_b: u64) -> (r: bool)
    ensures
        r == key_before(root_a@, day_a, root_b@, day_b),
{
    let a = chars_of(root_a);
    let b = chars_of(root_b);
    if is_text_less(a.as_slice(), b.as_slice()) {
        true
    } else {
        root_a.to_string() == root_b.to_string() && day_a < day_b
    }
}

fn fold_exec(group: &ActivityEvent, e: &ActivityEvent) -> (out: ActivityEvent)
    ensures
        out == folded(*group, *e),
{
    let delta = match (group.byte_delta, e.byte_delta) {
        (Some(t), Some(d)) => Some(crate::num::saturating_add_i64(t, d)),
        _ => None,
    };
    let count = if group.affected_item_count as u64 + e.affected_item_count as u64 > u32::MAX as u64 {
        u32::MAX
    } else {
        group.affected_item_count + e.affected_item_count
    };
    let confidence = if delta.is_none() {
        Confidence::Unknown
    } else if group.confidence == Confidence::Confirmed && e.confidence == Confidence::Confirmed {
        Confidence::Confirmed
    } else {
        Confidence::Estimated
    };
    let mut out = group.copy();
    out.affected_item_count = count;
    out.byte_delta = delta;
    out.confidence = confidence;
    out
}

fn fresh_exec(e: &ActivityEvent) -> (out: ActivityEvent)
    ensures
        out == fresh_group(*e),
{
    let day = e.timestamp.secs / DAY_SECS * DAY_SECS;
    ActivityEvent {
        kind: EventKind::Aggregate,
        path: e.root_path.clone(),
        root_path: e.root_path.clone(),
        timestamp: Timestamp { secs: day, nanos: 0 },
        byte_delta: Some(0),
        confidence: Confidence::Confirmed,
        previous_path: None,
        affected_item_count: 0,
        process_name: None,
    }
}

/// The grouped rows a trim writes for the detailed rows it expires: one per
/// root and UTC day, ordered by root and then day.
pub struct Rollups {
    groups: Vec<ActivityEvent>,
    rows: Ghost<Seq<ActivityEvent>>,
}

impl Rollups {
    /// The rows folded in so far.
    pub closed spec fn rows(&self) -> Seq<ActivityEvent> {
        self.rows@
    }

    pub closed spec fn groups(&self) -> Seq<ActivityEvent> {
        self.groups@
    }

    pub closed spec fn wf(&self) -> bool {
        self.groups@ == rolled(self.rows@)
    }

    pub fn new() -> (r: Rollups)
        ensures
            r.wf(),
            r.rows() == Seq::<ActivityEvent>::empty(),
    {
        Rollups { groups: Vec::new(), rows: Ghost(Seq::empty()) }
    }

    fn stops_at(&self, e: &ActivityEvent, day: u64, at: usize) -> (r: bool)
        requires
            at < self.groups@.len(),
        ensures
            r == (is_group(self.groups@[at as int], e.root_path@, day)
                || key_before(e.root_path@, day, self.groups@[at as int].root_path@, self.groups@[at as int].timestamp.secs)),
    {
        let g = &self.groups[at];
        let same = g.root_path.as_str().to_string() == e.root_path.as_str().to_string() && g.timestamp.secs == day
            && g.timestamp.nanos == 0;
        same || is_key_before(e.root_path.as_str(), day, g.root_path.as_str(), g.timestamp.secs)
    }

    /// Folds one expired detailed row into its root-and-UTC-day group.
    pub fn roll_up(&mut self, e: &ActivityEvent)
        requires
            old(self).wf(),
        ensures
            final(self).wf(),
            final(self).rows() == old(self).rows().push(*e),
    {
        let ghost before = self.groups@;
        let day = e.timestamp.secs / DAY_SECS * DAY_SECS;
        let mut at: usize = 0;
        proof {
            assert(before.take(0) =~= Seq::<ActivityEvent>::empty());
            assert(before.skip(0) =~= before);
        }
        while at < self.groups.len() && !self.stops_at(e, day, at)
            invariant
                at <= self.groups@.len(),
                self.groups@ == before,
                day == day_of(e.timestamp),
                rolled_into(before, *e) == before.take(at as int) + rolled_into(before.skip(at as int), *e),
            decreases self.groups@.len() - at,
        {
            proof {
                let rest = before.skip(at as int);
                assert(rest[0] == before[at as int]);
                assert(rest.drop_first() =~= before.skip(at + 1));
                assert(before.take(at + 1) =~= before.take(at as int).push(before[at as int]));
                assert(before.take(at as int) + (seq![rest[0]] + rolled_into(rest.drop_first(), *e))
                    =~= before.take(at + 1) + rolled_into(before.skip(at + 1), *e));
            }
            at = at + 1;
        }
        let ghost rest = before.skip(at as int);
        if at < self.groups.len() && self.groups[at].root_path.as_str().to_string() == e.root_path.as_str().to_string()
            && self.groups[at].timestamp.secs == day && self.groups[at].timestamp.nanos == 0 {
            let merged = fold_exec(&self.groups[at], e);
            self.groups.set(at, merged);
            proof {
                assert(rest[0] == before[at as int]);
                assert(rest.drop_first() =~= before.skip(at + 1));
                assert(self.groups@ =~= before.take(at as int) + (seq![folded(before[at as int], *e)] + rest.drop_first()));
            }
        } else {
            let fresh = fresh_exec(e);
            let group = fold_exec(&fresh, e);
            self.groups.insert(at, group);
            proof {
                if at < before.len() {
                    assert(rest[0] == before[at as int]);
                    assert(self.groups@ =~= before.take(at as int) + (seq![folded(fresh_group(*e), *e)] + rest));
                } else {
                    assert(rest =~= Seq::<ActivityEvent>::empty());
                    assert(self.groups@ =~= before.take(at as int) + seq![folded(fresh_group(*e), *e)]);
                }
            }
        }
        proof {
            let rows = self.rows@.push(*e);
            assert(rows.drop_last() =~= self.rows@);
            self.rows = Ghost(rows);
        }
    }

    /// The grouped rows, ordered by root then day.
    pub fn finish(self) -> (groups: Vec<ActivityEvent>)
        requires
            self.wf(),
        ensures
            groups@ == rolled(self.rows()),
    {
        self.groups
    }
}

/// Whether `groups` holds a group of `root` stamped `secs`.
pub open spec fn has_group(groups: Seq<ActivityEvent>, root: Seq<char>, secs: u64) -> bool {
    exists|k: int| 0 <= k < groups.len() && (#[trigger] groups[k]).root_path@ == root && groups[k].timestamp.secs == secs
}

/// Whether every group is stamped at the start of a UTC day.
pub open spec fn stamped_on_days(groups: Seq<ActivityEvent>) -> bool {
    forall|k: int| 0 <= k < groups.len() ==> (#[trigger] groups[k]).timestamp.secs % DAY_SECS == 0
}

proof fn day_starts_a_day(secs: u64)
    ensures
        day_of(Timestamp { secs, nanos: 0 }) % DAY_SECS == 0,
        day_of(Timestamp { secs, nanos: 0 }) <= secs,
{
    let d: int = DAY_SECS as int;
    let q: int = secs as int / d;
    assert((q * d) % d == 0) by (nonlinear_arith) requires d > 0, q >= 0;
    assert(q * d <= secs) by (nonlinear_arith) requires d > 0, q == secs as int / d, secs >= 0;
}

proof fn rolling_in_keeps_days(groups: Seq<ActivityEvent>, e: ActivityEvent)
    requires
        stamped_on_days(groups),
    ensures
        stamped_on_days(rolled_into(groups, e)),
        has_group(rolled_into(groups, e), e.root_path@, (e.timestamp.secs / DAY_SECS * DAY_SECS) as u64),
        forall|k: int| 0 <= k < groups.len() ==> has_group(rolled_into(groups, e), (#[trigger] groups[k]).root_path@, groups[k].timestamp.secs),
    decreases groups.len(),
{
    day_starts_a_day(e.timestamp.secs);
    assert(day_of(e.timestamp) == day_of(Timestamp { secs: e.timestamp.secs, nanos: 0 }));
    let out = rolled_into(groups, e);
    let root = e.root_path@;
    let day = day_of(e.timestamp);
    if groups.len() == 0 {
        assert(out[0].root_path@ == root && out[0].timestamp.secs == day);
    } else if is_group(groups[0], root, day) {
        assert(out[0].root_path@ == root && out[0].timestamp.secs == day);
        assert forall|k: int| 0 <= k < out.len() implies (#[trigger] out[k]).timestamp.secs % DAY_SECS == 0 by {
            if k > 0 { assert(out[k] == groups[k]); }
        }
        assert forall|k: int| 0 <= k < groups.len() implies has_group(out, (#[trigger] groups[k]).root_path@, groups[k].timestamp.secs) by {
            assert(out[k].root_path == groups[k].root_path && out[k].timestamp == groups[k].timestamp);
        }
    } else if key_before(root, day, groups[0].root_path@, groups[0].timestamp.secs) {
        assert(out[0].root_path@ == root && out[0].timestamp.secs == day);
        assert forall|k: int| 0 <= k < out.len() implies (#[trigger] out[k]).timestamp.secs % DAY_SECS == 0 by {
            if k > 0 { assert(out[k] == groups[k - 1]); }
        }
        assert forall|k: int| 0 <= k < groups.len() implies has_group(out, (#[trigger] groups[k]).root_path@, groups[k].timestamp.secs) by {
            assert(out[k + 1] == groups[k]);
        }
    } else {
        let rest = groups.drop_first();
        assert forall|k: int| 0 <= k < rest.len() implies (#[trigger] rest[k]).timestamp.secs % DAY_SECS == 0 by {
            assert(rest[k] == groups[k + 1]);
        }
        rolling_in_keeps_days(rest, e);
        let tail = rolled_into(rest, e);
        assert(out == seq![groups[0]] + tail);
        assert forall|k: int| 0 <= k < out.len() implies (#[trigger] out[k]).timestamp.secs % DAY_SECS == 0 by {
            if k > 0 { assert(out[k] == tail[k - 1]); }
        }
        let w = choose|k: int| 0 <= k < tail.len() && (#[trigger] tail[k]).root_path@ == root && tail[k].timestamp.secs == day;
        assert(out[w + 1] == tail[w]);
        assert forall|k: int| 0 <= k < groups.len() implies has_group(out, (#[trigger] groups[k]).root_path@, groups[k].timestamp.secs) by {
            if k == 0 {
                assert(out[0] == groups[0]);
            } else {
                assert(rest[k - 1] == groups[k]);
                assert(has_group(tail, rest[k - 1].root_path@, rest[k - 1].timestamp.secs));
                let v = choose|v: int| 0 <= v < tail.len() && (#[trigger] tail[v]).root_path@ == rest[k - 1].root_path@
                    && tail[v].timestamp.secs == rest[k - 1].timestamp.secs;
                assert(out[v + 1] == tail[v]);
            }
        }
    }
}

/// Expired rows roll up into one group per root and UTC day: every group is
/// stamped at the start of a day, no two groups share a root and a day, and
/// each rolled row has the group of its root and day. So two rows of one
/// root on one day are in the same group, and rows of different days never
/// are.
pub proof fn one_group_per_root_and_day(rows: Seq<ActivityEvent>)
    ensures
        stamped_on_days(rolled(rows)),
        forall|k: int| 0 <= k < rolled(rows).len() ==> (#[trigger] rolled(rows)[k]).timestamp.nanos == 0,
        forall|a: int, b: int| 0 <= a < b < rolled(rows).len() ==> !((#[trigger] rolled(rows)[a]).root_path@ == (#[trigger] rolled(rows)[b]).root_path@
            && rolled(rows)[a].timestamp.secs == rolled(rows)[b].timestamp.secs),
        forall|j: int| 0 <= j < rows.len() ==> has_group(rolled(rows), (#[trigger] rows[j]).root_path@, (rows[j].timestamp.secs / DAY_SECS * DAY_SECS) as u64),
    decreases rows.len(),
{
    rolled_groups_are_ordered(rows);
    let g = rolled(rows);
    assert forall|a: int, b: int| 0 <= a < b < g.len() implies !((#[trigger] g[a]).root_path@ == (#[trigger] g[b]).root_path@
        && g[a].timestamp.secs == g[b].timestamp.secs) by {
        assert(key_before(g[a].root_path@, g[a].timestamp.secs, g[b].root_path@, g[b].timestamp.secs));
        if g[a].root_path@ == g[b].root_path@ {
            crate::order::text_less_irreflexive(g[a].root_path@);
        }
    }
    if rows.len() > 0 {
        one_group_per_root_and_day(rows.drop_last());
        let before = rolled(rows.drop_last());
        rolling_in_keeps_days(before, rows.last());
        assert forall|j: int| 0 <= j < rows.len() implies has_group(g, (#[trigger] rows[j]).root_path@, (rows[j].timestamp.secs / DAY_SECS * DAY_SECS) as u64) by {
            if j < rows.len() - 1 {
                assert(rows.drop_last()[j] == rows[j]);
                assert(has_group(before, rows[j].root_path@, (rows[j].timestamp.secs / DAY_SECS * DAY_SECS) as u64));
                let k = choose|k: int| 0 <= k < before.len() && (#[trigger] before[k]).root_path@ == rows[j].root_path@
                    && before[k].timestamp.secs == (rows[j].timestamp.secs / DAY_SECS * DAY_SECS) as u64;
                assert(has_group(g, before[k].root_path@, before[k].timestamp.secs));
            }
        }
    }
}

/// Folding keeps the groups ordered by root and day, one per key: whatever
/// order expired rows arrive in, a trim writes each root's days once, in
/// order.
pub proof fn rolled_groups_are_ordered(rows: Seq<ActivityEvent>)
    ensures
        ordered_groups(rolled(rows)),
        forall|i: int| 0 <= i < rolled(rows).len() ==> (#[trigger] rolled(rows)[i]).timestamp.nanos == 0,
    decreases rows.len(),
{
    if rows.len() > 0 {
        rolled_groups_are_ordered(rows.drop_last());
        rolled_into_keeps_order(rolled(rows.drop_last()), rows.last());
    }
}

/// Every group of `groups` and `e`'s own key sort after `(ra, da)`, so every
/// group after folding `e` in does too.
proof fn rolled_into_above(groups: Seq<ActivityEvent>, e: ActivityEvent, ra: Seq<char>, da: u64)
    requires
        key_before(ra, da, e.root_path@, day_of(e.timestamp)),
        forall|j: int| 0 <= j < groups.len() ==> key_before(ra, da, (#[trigger] groups[j]).root_path@, groups[j].timestamp.secs),
    ensures
        forall|i: int| 0 <= i < rolled_into(groups, e).len() ==> key_before(ra, da,
            (#[trigger] rolled_into(groups, e)[i]).root_path@, rolled_into(groups, e)[i].timestamp.secs),
    decreases groups.len(),
{
    let out = rolled_into(groups, e);
    let root = e.root_path@;
    let day = day_of(e.timestamp);
    if groups.len() == 0 {
    } else if is_group(groups[0], root, day) {
        assert forall|i: int| 0 <= i < out.len() implies key_before(ra, da,
            (#[trigger] out[i]).root_path@, out[i].timestamp.secs) by {
            if i > 0 {
                assert(out[i] == groups[i]);
            }
        }
    } else if key_before(root, day, groups[0].root_path@, groups[0].timestamp.secs) {
        assert forall|i: int| 0 <= i < out.len() implies key_before(ra, da,
            (#[trigger] out[i]).root_path@, out[i].timestamp.secs) by {
            if i > 0 {
                assert(out[i] == groups[i - 1]);
            }
        }
    } else {
        let rest = groups.drop_first();
        assert forall|j: int| 0 <= j < rest.len() implies key_before(ra, da, (#[trigger] rest[j]).root_path@, rest[j].timestamp.secs) by {
            assert(rest[j] == groups[j + 1]);
        }
        rolled_into_above(rest, e, ra, da);
        let tail = rolled_into(rest, e);
        assert forall|i: int| 0 <= i < out.len() implies key_before(ra, da,
            (#[trigger] out[i]).root_path@, out[i].timestamp.secs) by {
            if i > 0 {
                assert(out[i] == tail[i - 1]);
            }
        }
    }
}

proof fn rolled_into_keeps_order(groups: Seq<ActivityEvent>, e: ActivityEvent)
    requires
        ordered_groups(groups),
        forall|i: int| 0 <= i < groups.len() ==> (#[trigger] groups[i]).timestamp.nanos == 0,
    ensures
        ordered_groups(rolled_into(groups, e)),
        forall|i: int| 0 <= i < rolled_into(groups, e).len() ==> (#[trigger] rolled_into(groups, e)[i]).timestamp.nanos == 0,
    decreases groups.len(),
{
    let out = rolled_into(groups, e);
    let root = e.root_path@;
    let day = day_of(e.timestamp);
    if groups.len() == 0 {
    } else if is_group(groups[0], root, day) {
        assert forall|i: int, j: int| 0 <= i < j < out.len() implies key_before(
            (#[trigger] out[i]).root_path@, out[i].timestamp.secs,
            (#[trigger] out[j]).root_path@, out[j].timestamp.secs) by {
            assert(out[j] == groups[j]);
            if i > 0 {
                assert(out[i] == groups[i]);
            } else {
                assert(key_before(groups[0].root_path@, groups[0].timestamp.secs, groups[j].root_path@, groups[j].timestamp.secs));
            }
        }
        assert forall|i: int| 0 <= i < out.len() implies (#[trigger] out[i]).timestamp.nanos == 0 by {
            if i > 0 {
                assert(out[i] == groups[i]);
            }
        }
    } else if key_before(root, day, groups[0].root_path@, groups[0].timestamp.secs) {
        assert forall|i: int, j: int| 0 <= i < j < out.len() implies key_before(
            (#[trigger] out[i]).root_path@, out[i].timestamp.secs,
            (#[trigger] out[j]).root_path@, out[j].timestamp.secs) by {
            assert(out[j] == groups[j - 1]);
            if i > 0 {
                assert(out[i] == groups[i - 1]);
            } else if j - 1 > 0 {
                assert(key_before(groups[0].root_path@, groups[0].timestamp.secs, groups[j - 1].root_path@, groups[j - 1].timestamp.secs));
                key_before_transitive(root, day, groups[0].root_path@, groups[0].timestamp.secs, groups[j - 1].root_path@, groups[j - 1].timestamp.secs);
            }
        }
        assert forall|i: int| 0 <= i < out.len() implies (#[trigger] out[i]).timestamp.nanos == 0 by {
            if i > 0 {
                assert(out[i] == groups[i - 1]);
            }
        }
    } else {
        let rest = groups.drop_first();
        assert forall|i: int, j: int| 0 <= i < j < rest.len() implies key_before(
            (#[trigger] rest[i]).root_path@, rest[i].timestamp.secs,
            (#[trigger] rest[j]).root_path@, rest[j].timestamp.secs) by {
            assert(rest[i] == groups[i + 1]);
            assert(rest[j] == groups[j + 1]);
        }
        assert forall|i: int| 0 <= i < rest.len() implies (#[trigger] rest[i]).timestamp.nanos == 0 by {
            assert(rest[i] == groups[i + 1]);
        }
        rolled_into_keeps_order(rest, e);
        let tail = rolled_into(rest, e);
        let r0 = groups[0].root_path@;
        let d0 = groups[0].timestamp.secs;
        key_before_total(root, day, r0, d0);
        assert(key_before(r0, d0, root, day));
        assert forall|j: int| 0 <= j < rest.len() implies key_before(r0, d0, (#[trigger] rest[j]).root_path@, rest[j].timestamp.secs) by {
            assert(rest[j] == groups[j + 1]);
        }
        rolled_into_above(rest, e, r0, d0);
        assert forall|i: int, j: int| 0 <= i < j < out.len() implies key_before(
            (#[trigger] out[i]).root_path@, out[i].timestamp.secs,
            (#[trigger] out[j]).root_path@, out[j].timestamp.secs) by {
            assert(out[j] == tail[j - 1]);
            if i > 0 {
                assert(out[i] == tail[i - 1]);
            }
        }
        assert forall|i: int| 0 <= i < out.len() implies (#[trigger] out[i]).timestamp.nanos == 0 by {
            if i > 0 {
                assert(out[i] == tail[i - 1]);
            }
        }
    }
}

proof fn key_before_transitive(ra: Seq<char>, da: u64, rb: Seq<char>, db: u64, rc: Seq<char>, dc: u64)
    requires
        key_before(ra, da, rb, db),
        key_before(rb, db, rc, dc),
    ensures
        key_before(ra, da, rc, dc),
{
    if text_less(ra, rb) && text_less(rb, rc) {
        crate::order::text_less_transitive(ra, rb, rc);
    }
}

proof fn key_before_total(ra: Seq<char>, da: u64, rb: Seq<char>, db: u64)
    ensures
        key_before(ra, da, rb, db) || key_before(rb, db, ra, da) || (ra == rb && da == db),
{
    crate::order::text_less_total(ra, rb);
}

/// `event` placed among rows listed newest first: after every row it is not
/// newer than, so rows that tie keep the order they arrived in.
pub open spec fn insert_newest(rows: Seq<ActivityEvent>, event: ActivityEvent) -> Seq<ActivityEvent>
    decreases rows.len(),
{
    if rows.len() == 0 {
        seq![event]
    } else if newer(event, rows[0]) {
        seq![event] + rows
    } else {
        seq![rows[0]] + insert_newest(rows.drop_first(), event)
    }
}

/// `rows` newest first, then by path descending, ties in the order given.
pub open spec fn by_newest(rows: Seq<ActivityEvent>) -> Seq<ActivityEvent>
    decreases rows.len(),
{
    if rows.len() == 0 {
        seq![]
    } else {
        insert_newest(by_newest(rows.drop_last()), rows.last())
    }
}

/// The rows of `rows` recorded under the folder spelled `root`.
pub open spec fn under_root(rows: Seq<ActivityEvent>, root: Seq<char>) -> Seq<ActivityEvent> {
    rows.filter(|e: ActivityEvent| normalized(e.root_path@) == normalized(root))
}

/// What a journal read gives back for one folder: its rows, newest first,
/// at most `limit` of them.
pub open spec fn read_back(rows: Seq<ActivityEvent>, root: Seq<char>, limit: u32) -> Seq<ActivityEvent> {
    let listed = by_newest(under_root(rows, root));
    if listed.len() <= limit { listed } else { listed.take(limit as int) }
}

proof fn insert_newest_at(rows: Seq<ActivityEvent>, event: ActivityEvent, at: int)
    requires
        0 <= at <= rows.len(),
        forall|j: int| 0 <= j < at ==> !newer(event, #[trigger] rows[j]),
        at == rows.len() || newer(event, rows[at]),
    ensures
        insert_newest(rows, event) == rows.take(at).push(event) + rows.skip(at),
    decreases rows.len(),
{
    if at == 0 {
        if rows.len() == 0 {
            assert(rows.take(0).push(event) + rows.skip(0) =~= seq![event]);
        } else {
            assert(rows.take(0).push(event) + rows.skip(0) =~= seq![event] + rows);
        }
    } else {
        let rest = rows.drop_first();
        assert forall|j: int| 0 <= j < at - 1 implies !newer(event, #[trigger] rest[j]) by {
            assert(rest[j] == rows[j + 1]);
        }
        if at < rows.len() {
            assert(rest[at - 1] == rows[at]);
        }
        insert_newest_at(rest, event, at - 1);
        assert(seq![rows[0]] + (rest.take(at - 1).push(event) + rest.skip(at - 1))
            =~= rows.take(at).push(event) + rows.skip(at));
    }
}


fn is_newer(a: &ActivityEvent, b: &ActivityEvent) -> (r: bool)
    ensures
        r == newer(*a, *b),
{
    if a.timestamp != b.timestamp {
        b.timestamp.is_no_later_than(&a.timestamp)
    } else {
        let pa = chars_of(a.path.as_str());
        let pb = chars_of(b.path.as_str());
        is_text_less(pb.as_slice(), pa.as_slice())
    }
}

/// One folder's rows as a journal read gives them back: only the rows
/// recorded under `root_path` (however either spelling ends), newest first
/// and then by path descending, at most `limit` of them.
pub fn newest_first(rows: Vec<ActivityEvent>, root_path: &str, limit: u32) -> (out: Vec<ActivityEvent>)
    ensures
        out@ == read_back(rows@, root_path@, limit),
{
    let root = normalize(root_path);
    let ghost keep = |e: ActivityEvent| normalized(e.root_path@) == normalized(root_path@);
    let mut out: Vec<ActivityEvent> = Vec::new();
    let mut i: usize = 0;
    while i < rows.len()
        invariant
            i <= rows@.len(),
            root@ == normalized(root_path@),
            keep == (|e: ActivityEvent| normalized(e.root_path@) == normalized(root_path@)),
            out@ == by_newest(rows@.take(i as int).filter(keep)),
        decreases rows@.len() - i,
    {
        proof {
            assert(rows@.take(i + 1) =~= rows@.take(i as int).push(rows@[i as int]));
            rows@.take(i as int).lemma_filter_push(rows@[i as int], keep);
        }
        if normalize(rows[i].root_path.as_str()) == root {
            let event = rows[i].copy();
            let mut at: usize = 0;
            while at < out.len() && !is_newer(&event, &out[at])
                invariant
                    at <= out@.len(),
                    forall|j: int| 0 <= j < at ==> !newer(event, #[trigger] out@[j]),
                decreases out@.len() - at,
            {
                at = at + 1;
            }
            proof {
                insert_newest_at(out@, event, at as int);
                assert(out@.take(at as int).push(event) + out@.skip(at as int) =~= out@.insert(at as int, event));
                let f = rows@.take(i + 1).filter(keep);
                assert(f.drop_last() =~= rows@.take(i as int).filter(keep));
            }
            out.insert(at, event);
        }
        i = i + 1;
    }
    proof {
        assert(rows@.take(rows@.len() as int) =~= rows@);
    }
    if out.len() > limit as usize {
        out.truncate(limit as usize);
    }
    out
}

/// How many bytes the size cap has to take off the front: what the kept
/// lines need beyond `limit_bytes`, or nothing when there is no cap.
pub open spec fn over_of(kept_bytes: u64, limit_bytes: u64) -> u64 {
    if limit_bytes == 0 || kept_bytes <= limit_bytes { 0 } else { (kept_bytes - limit_bytes) as u64 }
}

/// The bytes each line takes on disk, its newline included.
pub open spec fn line_bytes(lengths: Seq<u64>) -> int
    decreases lengths.len(),
{
    if lengths.len() == 0 { 0 } else { line_bytes(lengths.drop_last()) + lengths.last() + 1 }
}

/// Which lines the cap writes, front to back: the front is oldest for an
/// append-only file, so lines go from there until `over` bytes have gone.
pub open spec fn written_of(lengths: Seq<u64>, over: int) -> Seq<bool>
    decreases lengths.len(),
{
    if lengths.len() == 0 {
        seq![]
    } else if over > 0 {
        seq![false] + written_of(lengths.drop_first(), if over - (lengths[0] + 1) < 0 { 0 } else { over - (lengths[0] + 1) })
    } else {
        seq![true] + written_of(lengths.drop_first(), 0)
    }
}

proof fn line_bytes_monotone(lengths: Seq<u64>, i: int)
    requires
        0 <= i <= lengths.len(),
    ensures
        line_bytes(lengths.take(i)) <= line_bytes(lengths),
        line_bytes(lengths.take(i)) >= 0,
    decreases lengths.len() - i,
{
    if i < lengths.len() {
        line_bytes_monotone(lengths.drop_last(), if i <= lengths.len() - 1 { i } else { lengths.len() - 1 });
        if i <= lengths.len() - 1 {
            assert(lengths.drop_last().take(i) =~= lengths.take(i));
        }
    } else {
        assert(lengths.take(i) =~= lengths);
        line_bytes_nonnegative(lengths);
    }
}

proof fn line_bytes_nonnegative(lengths: Seq<u64>)
    ensures
        line_bytes(lengths) >= 0,
    decreases lengths.len(),
{
    if lengths.len() > 0 {
        line_bytes_nonnegative(lengths.drop_last());
    }
}

/// Which of the lines a trim keeps — the kept detailed rows in file order,
/// then the grouped rows — survive a cap of `limit_bytes`, given each line's
/// length without its newline. Zero is no cap.
pub fn written_lines(lengths: &[u64], limit_bytes: u64) -> (written: Vec<bool>)
    requires
        line_bytes(lengths@) <= u64::MAX,
    ensures
        written@ == written_of(lengths@, over_of(line_bytes(lengths@) as u64, limit_bytes) as int),
{
    let mut kept_bytes: u64 = 0;
    let mut i: usize = 0;
    while i < lengths.len()
        invariant
            i <= lengths@.len(),
            line_bytes(lengths@) <= u64::MAX,
            kept_bytes == line_bytes(lengths@.take(i as int)),
        decreases lengths@.len() - i,
    {
        proof {
            assert(lengths@.take(i + 1).drop_last() =~= lengths@.take(i as int));
            line_bytes_monotone(lengths@, i + 1);
        }
        kept_bytes = kept_bytes + lengths[i] + 1;
        i = i + 1;
    }
    proof {
        assert(lengths@.take(lengths@.len() as int) =~= lengths@);
    }
    let mut over: u64 = if limit_bytes == 0 || kept_bytes <= limit_bytes { 0 } else { kept_bytes - limit_bytes };
    let ghost start = over as int;
    let mut written: Vec<bool> = Vec::new();
    let mut j: usize = 0;
    while j < lengths.len()
        invariant
            j <= lengths@.len(),
            written_of(lengths@, start) == written@ + written_of(lengths@.skip(j as int), over as int),
        decreases lengths@.len() - j,
    {
        let ghost rest = lengths@.skip(j as int);
        let ghost over_before = over as int;
        let ghost written_before = written@;
        proof {
            assert(rest[0] == lengths@[j as int]);
            assert(rest.drop_first() =~= lengths@.skip(j + 1));
        }
        if over > 0 {
            let cost: u64 = if lengths[j] == u64::MAX { u64::MAX } else { lengths[j] + 1 };
            over = if over > cost { over - cost } else { 0 };
            written.push(false);
            proof {
                let next = if over_before - (rest[0] + 1) < 0 { 0 } else { over_before - (rest[0] + 1) };
                assert(over as int == next);
                assert(written_of(rest, over_before) == seq![false] + written_of(rest.drop_first(), next));
                assert(written@ =~= written_before + seq![false]);
                assert(written@ + written_of(lengths@.skip(j + 1), over as int)
                    =~= written_before + written_of(rest, over_before));
            }
        } else {
            written.push(true);
            proof {
                assert(written_of(rest, over_before) == seq![true] + written_of(rest.drop_first(), 0));
                assert(written@ =~= written_before + seq![true]);
                assert(written@ + written_of(lengths@.skip(j + 1), over as int)
                    =~= written_before + written_of(rest, over_before));
            }
        }
        j = j + 1;
    }
    proof {
        assert(lengths@.skip(lengths@.len() as int) =~= Seq::<u64>::empty());
        assert(written@ + Seq::<bool>::empty() =~= written@);
    }
    written
}

/// What a trim that read `total` rows, kept `detailed` of them as they
/// were, had `lines` lines to write (those rows and the rollups) and whose
/// cap let `written` of them through, does to the file: `None` leaves it as
/// it is, since nothing was rolled up or dropped; `Some(n)` rewrites it, `n`
/// being the rows that went.
pub fn trim_outcome(total: u64, detailed: u64, lines: u64, written: u64) -> (r: Option<u64>)
    ensures
        r == (if detailed == total && written == lines && lines == total {
            None
        } else {
            Some(if total >= written { (total - written) as u64 } else { 0 })
        }),
{
    if detailed == total && written == lines && lines == total {
        None
    } else {
        Some(if total >= written { total - written } else { 0 })
    }
}

/// The rows a trim rolls up: those it judges past their detail, in order.
pub open spec fn to_roll(rows: Seq<Option<ActivityEvent>>, w: Windows) -> Seq<ActivityEvent>
    decreases rows.len(),
{
    if rows.len() == 0 {
        seq![]
    } else {
        let before = to_roll(rows.drop_last(), w);
        match rows.last() {
            Some(e) => if verdict_of(rows.last(), w) == Verdict::Roll { before.push(e) } else { before },
            None => before,
        }
    }
}

/// What a trim does with the rows it read (`None` for a line it could not
/// read): which it keeps as they are, and the grouped rows it writes after
/// them for those it rolls up.
pub fn trim_plan(rows: &[Option<ActivityEvent>], w: &Windows) -> (r: (Vec<bool>, Vec<ActivityEvent>))
    ensures
        r.0@.len() == rows@.len(),
        forall|i: int| 0 <= i < rows@.len() ==> #[trigger] r.0@[i] == (verdict_of(rows@[i], *w) == Verdict::Keep),
        r.1@ == rolled(to_roll(rows@, *w)),
{
    let mut keep: Vec<bool> = Vec::new();
    let mut rollups = Rollups::new();
    let mut i: usize = 0;
    while i < rows.len()
        invariant
            i <= rows@.len(),
            keep@.len() == i,
            forall|k: int| 0 <= k < i ==> #[trigger] keep@[k] == (verdict_of(rows@[k], *w) == Verdict::Keep),
            rollups.wf(),
            rollups.rows() == to_roll(rows@.take(i as int), *w),
        decreases rows@.len() - i,
    {
        let v = judge(&rows[i], w);
        proof {
            assert(rows@.take(i + 1).drop_last() =~= rows@.take(i as int));
            assert(rows@.take(i + 1).last() == rows@[i as int]);
        }
        match v {
            Verdict::Keep => keep.push(true),
            Verdict::Roll => {
                keep.push(false);
                match &rows[i] {
                    Some(e) => rollups.roll_up(e),
                    None => {},
                }
            },
            Verdict::Drop => keep.push(false),
        }
        i = i + 1;
    }
    proof {
        assert(rows@.take(rows@.len() as int) =~= rows@);
    }
    (keep, rollups.finish())
}

/// How many of `flags` are set.
pub open spec fn count_set(flags: Seq<bool>) -> nat
    decreases flags.len(),
{
    if flags.len() == 0 { 0 } else { count_set(flags.drop_last()) + if flags.last() { 1nat } else { 0nat } }
}

/// Which of the lines a trim writes survive the cap (every one, when their
/// lengths do not even fit a count of bytes), and what the trim then does
/// to the file; see [`written_lines`] and [`trim_outcome`].
pub fn capped(lengths: &[u64], limit_bytes: u64, total: u64, detailed: u64) -> (r: (Vec<bool>, Option<u64>))
    ensures
        r.0@ == (if line_bytes(lengths@) <= u64::MAX {
            written_of(lengths@, over_of(line_bytes(lengths@) as u64, limit_bytes) as int)
        } else {
            Seq::new(lengths@.len(), |i: int| true)
        }),
        r.0@.len() == lengths@.len(),
        r.1 == (if detailed == total && count_set(r.0@) == lengths@.len() && lengths@.len() == total {
            None::<u64>
        } else {
            Some(if total >= count_set(r.0@) { (total - count_set(r.0@)) as u64 } else { 0 })
        }),
{
    let mut sum: u64 = 0;
    let mut fits = true;
    let mut i: usize = 0;
    while i < lengths.len()
        invariant
            i <= lengths@.len(),
            fits ==> sum == line_bytes(lengths@.take(i as int)),
            !fits ==> line_bytes(lengths@) > u64::MAX,
        decreases lengths@.len() - i,
    {
        proof {
            assert(lengths@.take(i + 1).drop_last() =~= lengths@.take(i as int));
        }
        if fits {
            match sum.checked_add(lengths[i]) {
                Some(a) => match a.checked_add(1) {
                    Some(b) => sum = b,
                    None => {
                        proof { line_bytes_monotone(lengths@, i + 1); }
                        fits = false;
                    },
                },
                None => {
                    proof { line_bytes_monotone(lengths@, i + 1); }
                    fits = false;
                },
            }
        }
        i = i + 1;
    }
    proof {
        assert(lengths@.take(lengths@.len() as int) =~= lengths@);
    }
    let written: Vec<bool> = if fits {
        written_lines(lengths, limit_bytes)
    } else {
        let mut all: Vec<bool> = Vec::new();
        let mut k: usize = 0;
        while k < lengths.len()
            invariant
                k <= lengths@.len(),
                all@ == Seq::new(k as nat, |j: int| true),
            decreases lengths@.len() - k,
        {
            all.push(true);
            proof {
                assert(all@ =~= Seq::new((k + 1) as nat, |j: int| true));
            }
            k = k + 1;
        }
        all
    };
    proof {
        if fits {
            written_len(lengths@, over_of(line_bytes(lengths@) as u64, limit_bytes) as int);
        }
    }
    let mut count: u64 = 0;
    let mut j: usize = 0;
    while j < written.len()
        invariant
            j <= written@.len(),
            count == count_set(written@.take(j as int)),
            count <= j,
        decreases written@.len() - j,
    {
        proof {
            assert(written@.take(j + 1).drop_last() =~= written@.take(j as int));
        }
        if written[j] {
            count = count + 1;
        }
        j = j + 1;
    }
    proof {
        assert(written@.take(written@.len() as int) =~= written@);
    }
    let outcome = trim_outcome(total, detailed, lengths.len() as u64, count);
    (written, outcome)
}

proof fn written_len(lengths: Seq<u64>, over: int)
    ensures
        written_of(lengths, over).len() == lengths.len(),
    decreases lengths.len(),
{
    if lengths.len() > 0 {
        written_len(lengths.drop_first(), if over - (lengths[0] + 1) < 0 { 0 } else { over - (lengths[0] + 1) });
        written_len(lengths.drop_first(), 0);
    }
}

} // verus!
