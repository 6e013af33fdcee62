//! Folds journal rows into the dashboard's history shape: totals and hourly
//! buckets over every row a query matched, and the one page of rows it asked
//! to see.

use vstd::prelude::*;

use crate::chars::{chars_of, contains, has_substring};
use crate::event::{ActivityEvent, EventKind, Timestamp};
use crate::num::{clamp_i64, saturating_abs_i64, saturating_add_i64};
use crate::order::{is_text_less, text_less};
use crate::paths::{normalize, normalized};

verus! {

#[derive(Debug, Clone, Copy, PartialEq, Eq, Structural)]
pub struct HistoryBucket {
    pub start: Timestamp,
    pub end: Timestamp,
    pub byte_delta: i64,
    pub event_count: u32,
    pub unknown_size_event_count: u32,
}

#[derive(Debug, Clone, PartialEq)]
pub struct HistorySnapshot {
    pub root_path: String,
    pub generated_at: Timestamp,
    pub total_net_byte_delta: i64,
    pub event_count: u32,
    pub unknown_size_event_count: u32,
    pub buckets: Vec<HistoryBucket>,
    /// Newest first (or biggest first), at most the page asked for.
    pub recent_events: Vec<ActivityEvent>,
    /// The totals above cover more rows than `recent_events` lists.
    pub is_truncated: bool,
}

/// What a person narrowed the history to.
///
/// The default is the whole record, newest first — what every host asks for
/// before anybody has typed anything.
#[derive(Debug, Clone, Default, PartialEq)]
pub struct Query {
    /// Part of a path, matched without regard to case. Empty matches every row.
    pub text: String,
    /// One kind of change, or every kind.
    pub kind: Option<EventKind>,
    /// Biggest change first rather than newest first. The sign is ignored.
    pub largest_first: bool,
    /// Matching rows to step over before the listed page starts.
    pub skip: u32,
}

/// The lower-case form of `text`, as `str::to_lowercase` spells it.
pub uninterp spec fn lowercase(text: Seq<char>) -> Seq<char>;

/// `str::to_lowercase`: the contract claims the result is [`lowercase`] of
/// the argument, which is Unicode's full lower-case mapping.
#[verifier::external_body]
fn to_lower(text: &str) -> (out: String)
    ensures
        out@ == lowercase(text@),
{
    text.to_lowercase()
}

/// Whether `event` is one of the rows `query` asks for.
pub open spec fn matches_query(query: Query, event: ActivityEvent) -> bool {
    &&& (query.kind matches Some(kind) ==> kind == event.kind)
    &&& (query.text@.len() == 0 || contains(lowercase(event.path@), lowercase(query.text@)))
}

/// A search ignores case on both sides: a path spelled in other letters,
/// or the same words typed in other letters, match the same rows.
pub proof fn a_search_ignores_case(query: Query, other_query: Query, event: ActivityEvent, other: ActivityEvent)
    requires
        event.kind == other.kind,
        lowercase(event.path@) == lowercase(other.path@),
        query.kind == other_query.kind,
        query.text@.len() == other_query.text@.len(),
        lowercase(query.text@) == lowercase(other_query.text@),
    ensures
        matches_query(query, event) == matches_query(other_query, other),
{
}

/// How many bytes a change moved, whichever way they went; unknown is zero.
pub open spec fn moved(event: ActivityEvent) -> int {
    match event.byte_delta {
        Some(d) => clamp_i64(if d < 0 { -d } else { d as int }),
        None => 0,
    }
}

/// Whether `a` is listed strictly before `b` newest-first: later time first,
/// then the path that sorts last.
pub open spec fn newer(a: ActivityEvent, b: ActivityEvent) -> bool {
    (b.timestamp.no_later_than(a.timestamp) && b.timestamp != a.timestamp)
        || (a.timestamp == b.timestamp && text_less(b.path@, a.path@))
}

/// Whether `a` is listed strictly before `b` under `query`'s order.
pub open spec fn listed_before(query: Query, a: ActivityEvent, b: ActivityEvent) -> bool {
    if query.largest_first {
        moved(a) > moved(b) || (moved(a) == moved(b) && newer(a, b))
    } else {
        newer(a, b)
    }
}

/// `event` placed into the ranked `rows`: after every row it is not listed
/// before, so rows that tie keep the order they arrived in.
pub open spec fn insert_ranked(query: Query, rows: Seq<ActivityEvent>, event: ActivityEvent) -> Seq<ActivityEvent>
    decreases rows.len(),
{
    if rows.len() == 0 {
        seq![event]
    } else if listed_before(query, event, rows[0]) {
        seq![event] + rows
    } else {
        seq![rows[0]] + insert_ranked(query, rows.drop_first(), event)
    }
}

/// `events` in `query`'s order, ties in the order they were given: a stable
/// sort.
pub open spec fn ranked(query: Query, events: Seq<ActivityEvent>) -> Seq<ActivityEvent>
    decreases events.len(),
{
    if events.len() == 0 {
        seq![]
    } else {
        insert_ranked(query, ranked(query, events.drop_last()), events.last())
    }
}

/// The rows of `events` that `query` matches, in their order.
pub open spec fn matched(query: Query, events: Seq<ActivityEvent>) -> Seq<ActivityEvent>
    decreases events.len(),
{
    if events.len() == 0 {
        seq![]
    } else if matches_query(query, events.last()) {
        matched(query, events.drop_last()).push(events.last())
    } else {
        matched(query, events.drop_last())
    }
}

proof fn matched_len(query: Query, events: Seq<ActivityEvent>)
    ensures
        matched(query, events).len() <= events.len(),
    decreases events.len(),
{
    if events.len() > 0 {
        matched_len(query, events.drop_last());
    }
}

proof fn unknown_le(events: Seq<ActivityEvent>)
    ensures
        unknown_of(events) <= events.len(),
    decreases events.len(),
{
    if events.len() > 0 {
        unknown_le(events.drop_last());
    }
}

/// The page a snapshot lists: the ranked rows cut to what was asked for,
/// less the rows being paged past.
pub open spec fn page_of(query: Query, rows: Seq<ActivityEvent>, recent_limit: int) -> Seq<ActivityEvent> {
    let cut = first_n(ranked(query, rows), query.skip + recent_limit);
    if cut.len() <= query.skip { seq![] } else { cut.skip(query.skip as int) }
}

/// What a snapshot of `events` under `query` holds: totals and buckets over
/// every matched row, and the page asked for.
pub open spec fn is_history_of(
    snapshot: HistorySnapshot,
    root: Seq<char>,
    events: Seq<ActivityEvent>,
    interval: u64,
    recent_limit: int,
    query: Query,
    generated_at: Timestamp,
) -> bool {
    let rows = matched(query, events);
    &&& snapshot.root_path@ == normalized(root)
    &&& snapshot.generated_at == generated_at
    &&& snapshot.total_net_byte_delta == net_of(rows)
    &&& snapshot.event_count == rows.len() as u32
    &&& snapshot.unknown_size_event_count == unknown_of(rows) as u32
    &&& snapshot.buckets@ == buckets_of(rows, interval)
    &&& snapshot.recent_events@ == page_of(query, rows, recent_limit)
    &&& snapshot.is_truncated == (rows.len() > query.skip + recent_limit)
}

/// At most the first `n` of `rows`.
pub open spec fn first_n<T>(rows: Seq<T>, n: int) -> Seq<T> {
    if rows.len() <= n { rows } else { rows.take(n) }
}

/// Where in a day-long timeline an instant's bucket starts.
pub open spec fn bucket_start(at: Timestamp, interval: u64) -> int {
    (at.secs / interval) * interval
}

/// `a + 1`, held at `u32::MAX`.
pub open spec fn bump(a: u32) -> u32 {
    if a == u32::MAX { a } else { (a + 1) as u32 }
}

/// A bucket with `event` counted in it.
pub open spec fn counted(bucket: HistoryBucket, event: ActivityEvent) -> HistoryBucket {
    match event.byte_delta {
        Some(d) => HistoryBucket {
            event_count: bump(bucket.event_count),
            byte_delta: clamp_i64(bucket.byte_delta + d) as i64,
            ..bucket
        },
        None => HistoryBucket {
            event_count: bump(bucket.event_count),
            unknown_size_event_count: bump(bucket.unknown_size_event_count),
            ..bucket
        },
    }
}

/// The empty bucket that starts at `start`.
pub open spec fn empty_bucket(start: int, interval: u64) -> HistoryBucket {
    HistoryBucket {
        start: Timestamp { secs: start as u64, nanos: 0 },
        end: Timestamp {
            secs: if start + interval > u64::MAX { u64::MAX } else { (start + interval) as u64 },
            nanos: 0,
        },
        byte_delta: 0,
        event_count: 0,
        unknown_size_event_count: 0,
    }
}

/// `buckets`, ordered by start, with `event` counted in the bucket its time
/// falls in, that bucket made when it is the first.
pub open spec fn add_to_buckets(buckets: Seq<HistoryBucket>, event: ActivityEvent, interval: u64) -> Seq<HistoryBucket>
    decreases buckets.len(),
{
    let start = bucket_start(event.timestamp, interval);
    if buckets.len() == 0 {
        seq![counted(empty_bucket(start, interval), event)]
    } else if buckets[0].start.secs == start {
        seq![counted(buckets[0], event)] + buckets.drop_first()
    } else if buckets[0].start.secs > start {
        seq![counted(empty_bucket(start, interval), event)] + buckets
    } else {
        seq![buckets[0]] + add_to_buckets(buckets.drop_first(), event, interval)
    }
}

/// The buckets of `events`, oldest first.
pub open spec fn buckets_of(events: Seq<ActivityEvent>, interval: u64) -> Seq<HistoryBucket>
    decreases events.len(),
{
    if events.len() == 0 {
        seq![]
    } else {
        add_to_buckets(buckets_of(events.drop_last(), interval), events.last(), interval)
    }
}

/// The net of the known deltas in `events`, held inside `i64`.
pub open spec fn net_of(events: Seq<ActivityEvent>) -> int
    decreases events.len(),
{
    if events.len() == 0 {
        0
    } else {
        match events.last().byte_delta {
            Some(d) => clamp_i64(net_of(events.drop_last()) + d),
            None => net_of(events.drop_last()),
        }
    }
}

/// How many of `events` have no known size.
pub open spec fn unknown_of(events: Seq<ActivityEvent>) -> nat
    decreases events.len(),
{
    if events.len() == 0 {
        0
    } else {
        unknown_of(events.drop_last()) + if events.last().byte_delta is None { 1nat } else { 0nat }
    }
}

impl Query {
    /// A copy equal to `self`.
    pub fn copy(&self) -> (q: Query)
        ensures
            q == *self,
    {
        Query { text: self.text.clone(), kind: self.kind, largest_first: self.largest_first, skip: self.skip }
    }

    /// Whether this row is one of the rows being asked for.
    pub fn matches(&self, event: &ActivityEvent) -> (r: bool)
        ensures
            r == matches_query(*self, *event),
    {
        if let Some(kind) = self.kind {
            if kind != event.kind {
                return false;
            }
        }
        let text = chars_of(self.text.as_str());
        if text.len() == 0 {
            return true;
        }
        let haystack = to_lower(event.path.as_str());
        let needle = to_lower(self.text.as_str());
        let h = chars_of(haystack.as_str());
        let n = chars_of(needle.as_str());
        has_substring(h.as_slice(), n.as_slice())
    }

    /// Whether `a` is listed strictly before `b`.
    fn listed_before(&self, a: &ActivityEvent, b: &ActivityEvent) -> (r: bool)
        ensures
            r == listed_before(*self, *a, *b),
    {
        let newer = if a.timestamp != b.timestamp {
            b.timestamp.is_no_later_than(&a.timestamp)
        } else {
            let pa = chars_of(a.path.as_str());
            let pb = chars_of(b.path.as_str());
            is_text_less(pb.as_slice(), pa.as_slice())
        };
        if self.largest_first {
            let ma = moved_exec(a);
            let mb = moved_exec(b);
            ma > mb || (ma == mb && newer)
        } else {
            newer
        }
    }
}

fn moved_exec(event: &ActivityEvent) -> (m: i64)
    ensures
        m == moved(*event),
{
    match event.byte_delta {
        Some(d) => saturating_abs_i64(d),
        None => 0,
    }
}

/// A row the query does not ask for changes no count, total, bucket or
/// listed row: the history of the rows with it is the history without it.
pub proof fn an_unasked_row_changes_nothing(
    snapshot: HistorySnapshot,
    root: Seq<char>,
    events: Seq<ActivityEvent>,
    event: ActivityEvent,
    interval: u64,
    recent_limit: int,
    query: Query,
    generated_at: Timestamp,
)
    requires
        !matches_query(query, event),
    ensures
        is_history_of(snapshot, root, events.push(event), interval, recent_limit, query, generated_at)
            == is_history_of(snapshot, root, events, interval, recent_limit, query, generated_at),
{
    assert(events.push(event).drop_last() =~= events);
    assert(matched(query, events.push(event)) == matched(query, events));
}

/// How many rows the buckets count, together.
pub open spec fn bucket_total(buckets: Seq<HistoryBucket>) -> int
    decreases buckets.len(),
{
    if buckets.len() == 0 { 0 } else { buckets[0].event_count + bucket_total(buckets.drop_first()) }
}

proof fn bucket_le_total(buckets: Seq<HistoryBucket>, i: int)
    requires
        0 <= i < buckets.len(),
    ensures
        buckets[i].event_count <= bucket_total(buckets),
    decreases buckets.len(),
{
    if i > 0 {
        bucket_le_total(buckets.drop_first(), i - 1);
    }
    bucket_total_nonnegative(buckets.drop_first());
}

proof fn bucket_total_nonnegative(buckets: Seq<HistoryBucket>)
    ensures
        bucket_total(buckets) >= 0,
    decreases buckets.len(),
{
    if buckets.len() > 0 {
        bucket_total_nonnegative(buckets.drop_first());
    }
}

proof fn adding_counts_one(buckets: Seq<HistoryBucket>, event: ActivityEvent, interval: u64)
    requires
        bucket_total(buckets) < u32::MAX,
    ensures
        bucket_total(add_to_buckets(buckets, event, interval)) == bucket_total(buckets) + 1,
    decreases buckets.len(),
{
    let start = bucket_start(event.timestamp, interval);
    bucket_total_nonnegative(buckets);
    let out = add_to_buckets(buckets, event, interval);
    if buckets.len() == 0 {
        assert(out[0].event_count == 1);
        assert(out.drop_first() =~= Seq::<HistoryBucket>::empty());
        assert(bucket_total(out.drop_first()) == 0);
    } else {
        bucket_le_total(buckets, 0);
        bucket_total_nonnegative(buckets.drop_first());
        if buckets[0].start.secs == start {
            assert(out[0].event_count == buckets[0].event_count + 1);
            assert(out.drop_first() =~= buckets.drop_first());
        } else if buckets[0].start.secs > start {
            assert(out[0].event_count == 1);
            assert(out.drop_first() =~= buckets);
        } else {
            adding_counts_one(buckets.drop_first(), event, interval);
            assert(out[0] == buckets[0]);
            assert(out.drop_first() =~= add_to_buckets(buckets.drop_first(), event, interval));
        }
    }
}

/// The buckets of a history count every matched row once, for as long as
/// the count fits the counters.
pub proof fn buckets_count_every_row(events: Seq<ActivityEvent>, interval: u64)
    requires
        events.len() <= u32::MAX,
    ensures
        bucket_total(buckets_of(events, interval)) == events.len(),
    decreases events.len(),
{
    if events.len() > 0 {
        buckets_count_every_row(events.drop_last(), interval);
        adding_counts_one(buckets_of(events.drop_last(), interval), events.last(), interval);
    }
}

/// Keeping only the first `n` of the ranked rows before a row arrives picks
/// the same first `n` as ranking everything: a row past the first `n` can
/// only move further back when another one arrives.
pub proof fn insert_then_cut(query: Query, rows: Seq<ActivityEvent>, event: ActivityEvent, n: int)
    requires
        n >= 0,
    ensures
        first_n(insert_ranked(query, first_n(rows, n), event), n) == first_n(insert_ranked(query, rows, event), n),
    decreases rows.len(),
{
    insert_ranked_len(query, rows, event);
    insert_ranked_len(query, first_n(rows, n), event);
    if rows.len() <= n {
    } else if n == 0 {
    } else if listed_before(query, event, rows[0]) {
        let cut = first_n(rows, n);
        assert(cut[0] == rows[0]);
        assert(insert_ranked(query, cut, event) == seq![event] + cut);
        assert(first_n(seq![event] + cut, n) =~= first_n(seq![event] + rows, n));
    } else {
        let cut = first_n(rows, n);
        assert(cut[0] == rows[0]);
        assert(cut.drop_first() =~= first_n(rows.drop_first(), n - 1));
        insert_then_cut(query, rows.drop_first(), event, n - 1);
        insert_ranked_len(query, rows.drop_first(), event);
        insert_ranked_len(query, cut.drop_first(), event);
        let a = insert_ranked(query, cut.drop_first(), event);
        let b = insert_ranked(query, rows.drop_first(), event);
        assert(first_n(seq![rows[0]] + a, n) =~= seq![rows[0]] + first_n(a, n - 1));
        assert(first_n(seq![rows[0]] + b, n) =~= seq![rows[0]] + first_n(b, n - 1));
    }
}

/// Placing a row makes the listing one longer.
pub proof fn insert_ranked_len(query: Query, rows: Seq<ActivityEvent>, event: ActivityEvent)
    ensures
        insert_ranked(query, rows, event).len() == rows.len() + 1,
    decreases rows.len(),
{
    if rows.len() > 0 && !listed_before(query, event, rows[0]) {
        insert_ranked_len(query, rows.drop_first(), event);
    }
}

/// The place a row goes: after the first `at` rows, none of which it is
/// listed before, and before the row at `at` when there is one.
proof fn insert_ranked_at(query: Query, rows: Seq<ActivityEvent>, event: ActivityEvent, at: int)
    requires
        0 <= at <= rows.len(),
        forall|j: int| 0 <= j < at ==> !listed_before(query, event, #[trigger] rows[j]),
        at == rows.len() || listed_before(query, event, rows[at]),
    ensures
        insert_ranked(query, rows, event) == rows.take(at).push(event) + rows.skip(at),
    decreases rows.len(),
{
    if at == 0 {
        if rows.len() == 0 {
            assert(rows.take(0).push(event) + rows.skip(0) =~= seq![event]);
        } else {
            assert(rows.take(0).push(event) + rows.skip(0) =~= seq![event] + rows);
        }
    } else {
        assert(!listed_before(query, event, rows[0]));
        let rest = rows.drop_first();
        assert forall|j: int| 0 <= j < at - 1 implies !listed_before(query, event, #[trigger] rest[j]) by {
            assert(rest[j] == rows[j + 1]);
        }
        if at < rows.len() {
            assert(rest[at - 1] == rows[at]);
        }
        insert_ranked_at(query, rest, event, at - 1);
        assert(seq![rows[0]] + (rest.take(at - 1).push(event) + rest.skip(at - 1))
            =~= rows.take(at).push(event) + rows.skip(at));
    }
}

fn counted_exec(bucket: HistoryBucket, event: &ActivityEvent) -> (out: HistoryBucket)
    ensures
        out == counted(bucket, *event),
{
    let event_count = if bucket.event_count == u32::MAX { bucket.event_count } else { bucket.event_count + 1 };
    match event.byte_delta {
        Some(d) => HistoryBucket {
            event_count,
            byte_delta: saturating_add_i64(bucket.byte_delta, d),
            ..bucket
        },
        None => HistoryBucket {
            event_count,
            unknown_size_event_count: if bucket.unknown_size_event_count == u32::MAX {
                bucket.unknown_size_event_count
            } else {
                bucket.unknown_size_event_count + 1
            },
            ..bucket
        },
    }
}

/// `events` are the rows already filtered to `root_path`.
pub fn build_history(
    root_path: &str,
    events: Vec<ActivityEvent>,
    bucket_interval_secs: u64,
    recent_limit: u32,
    query: &Query,
    generated_at: Timestamp,
) -> (snapshot: HistorySnapshot)
    ensures
        is_history_of(
            snapshot,
            root_path@,
            events@,
            if bucket_interval_secs == 0 { 1 } else { bucket_interval_secs },
            recent_limit as int,
            *query,
            generated_at,
        ),
{
    let mut builder = Builder::new(root_path, bucket_interval_secs, recent_limit, query, generated_at);
    let mut i: usize = 0;
    while i < events.len()
        invariant
            i <= events@.len(),
            builder.wf(),
            builder.seen_rows() == events@.take(i as int),
            builder.query_of() == *query,
            builder.interval_of() == (if bucket_interval_secs == 0 { 1 } else { bucket_interval_secs }),
            builder.wanted_of() == query.skip + recent_limit,
            builder.root_of() == root_path@,
            builder.generated_at_of() == generated_at,
        decreases events@.len() - i,
    {
        builder.push(events[i].copy());
        proof {
            assert(events@.take(i + 1) =~= events@.take(i as int).push(events@[i as int]));
        }
        i = i + 1;
    }
    proof {
        assert(events@.take(events@.len() as int) =~= events@);
    }
    builder.finish()
}

/// Accumulates a snapshot one row at a time, holding only the page being
/// asked for rather than every row that matched: a journal of any length
/// costs the page plus one bucket per interval.
pub struct Builder {
    root_path: String,
    query: Query,
    generated_at: Timestamp,
    interval: u64,
    /// Rows to hold: the page plus everything a caller is paging past.
    wanted: u64,
    buckets: Vec<HistoryBucket>,
    page: Vec<ActivityEvent>,
    matched: u64,
    total_net_byte_delta: i64,
    unknown: u64,
    /// Every row this builder has been handed.
    seen: Ghost<Seq<ActivityEvent>>,
}

impl Builder {
    /// What the builder holds is what the rows seen so far say.
    pub closed spec fn wf(&self) -> bool {
        let rows = matched(self.query, self.seen@);
        &&& self.interval >= 1
        &&& self.wanted == self.query.skip + self.recent_limit()
        &&& self.buckets@ == buckets_of(rows, self.interval)
        &&& self.page@ == first_n(ranked(self.query, rows), self.wanted as int)
        &&& self.matched == rows.len()
        &&& self.total_net_byte_delta == net_of(rows)
        &&& self.unknown == unknown_of(rows)
    }

    /// The page size the builder was made with.
    pub closed spec fn recent_limit(&self) -> nat {
        (self.wanted - self.query.skip) as nat
    }

    pub closed spec fn seen_rows(&self) -> Seq<ActivityEvent> {
        self.seen@
    }

    pub closed spec fn query_of(&self) -> Query {
        self.query
    }

    pub closed spec fn interval_of(&self) -> u64 {
        self.interval
    }

    pub closed spec fn root_of(&self) -> Seq<char> {
        self.root_path@
    }

    pub closed spec fn generated_at_of(&self) -> Timestamp {
        self.generated_at
    }

    pub closed spec fn wanted_of(&self) -> nat {
        self.wanted as nat
    }

    pub fn new(
        root_path: &str,
        bucket_interval_secs: u64,
        recent_limit: u32,
        query: &Query,
        generated_at: Timestamp,
    ) -> (b: Builder)
        ensures
            b.wf(),
            b.seen_rows() == Seq::<ActivityEvent>::empty(),
            b.query_of() == *query,
            b.interval_of() == (if bucket_interval_secs == 0 { 1 } else { bucket_interval_secs }),
            b.wanted_of() == query.skip + recent_limit,
            b.root_of() == root_path@,
            b.generated_at_of() == generated_at,
    {
        let wanted = query.skip as u64 + recent_limit as u64;
        let b = Builder {
            root_path: root_path.to_string(),
            query: query.copy(),
            generated_at,
            interval: if bucket_interval_secs == 0 { 1 } else { bucket_interval_secs },
            wanted,
            buckets: Vec::new(),
            page: Vec::new(),
            matched: 0,
            total_net_byte_delta: 0,
            unknown: 0,
            seen: Ghost(Seq::empty()),
        };
        assert(matched(b.query, b.seen@) =~= Seq::<ActivityEvent>::empty());
        b
    }

    /// One row of the journal, already filtered to this root.
    pub fn push(&mut self, event: ActivityEvent)
        requires
            old(self).wf(),
            old(self).seen_rows().len() < u64::MAX,
        ensures
            final(self).wf(),
            final(self).seen_rows() == old(self).seen_rows().push(event),
            final(self).query_of() == old(self).query_of(),
            final(self).interval_of() == old(self).interval_of(),
            final(self).wanted_of() == old(self).wanted_of(),
            final(self).recent_limit() == old(self).recent_limit(),
            final(self).root_of() == old(self).root_of(),
            final(self).generated_at_of() == old(self).generated_at_of(),
    {
        let ghost before = self.seen@;
        let ghost rows_before = matched(self.query, before);
        proof {
            assert(before.push(event).drop_last() =~= before);
        }
        let is_match = self.query.matches(&event);
        self.seen = Ghost(before.push(event));
        if !is_match {
            return;
        }
        let ghost rows = rows_before.push(event);
        proof {
            assert(rows.drop_last() =~= rows_before);
            matched_len(self.query, before);
            unknown_le(rows_before);
            insert_then_cut(self.query, ranked(self.query, rows_before), event, self.wanted as int);
        }
        self.matched = self.matched + 1;
        self.add_to_bucket(&event);
        match event.byte_delta {
            Some(delta) => {
                self.total_net_byte_delta = saturating_add_i64(self.total_net_byte_delta, delta);
            },
            None => {
                self.unknown = self.unknown + 1;
            },
        }
        self.place(event);
        assert(self.buckets@ == buckets_of(rows, self.interval));
    }

    /// Counts `event` in its bucket.
    fn add_to_bucket(&mut self, event: &ActivityEvent)
        requires
            old(self).interval >= 1,
        ensures
            final(self).buckets@ == add_to_buckets(old(self).buckets@, *event, old(self).interval),
            final(self).interval == old(self).interval,
            final(self).query == old(self).query,
            final(self).page == old(self).page,
            final(self).wanted == old(self).wanted,
            final(self).matched == old(self).matched,
            final(self).total_net_byte_delta == old(self).total_net_byte_delta,
            final(self).unknown == old(self).unknown,
            final(self).seen == old(self).seen,
            final(self).root_path == old(self).root_path,
            final(self).generated_at == old(self).generated_at,
    {
        let interval = self.interval;
        let quotient: u64 = event.timestamp.secs / interval;
        assert(quotient * interval <= event.timestamp.secs) by (nonlinear_arith)
            requires quotient == event.timestamp.secs / interval, interval >= 1;
        let start: u64 = quotient * interval;
        let ghost original = self.buckets@;
        let mut i: usize = 0;
        assert(original.skip(0) =~= original);
        assert(original.take(0) + add_to_buckets(original, *event, interval) =~= add_to_buckets(original, *event, interval));
        while i < self.buckets.len() && self.buckets[i].start.secs < start
            invariant
                i <= self.buckets@.len(),
                self.buckets@ == original,
                add_to_buckets(original, *event, interval)
                    == original.take(i as int) + add_to_buckets(original.skip(i as int), *event, interval),
                start == bucket_start(event.timestamp, interval),
            decreases self.buckets@.len() - i,
        {
            proof {
                let rest = original.skip(i as int);
                assert(rest.drop_first() =~= original.skip(i + 1));
                assert(original.take(i + 1) =~= original.take(i as int) + seq![rest[0]]);
                assert(original.take(i as int) + (seq![rest[0]] + add_to_buckets(rest.drop_first(), *event, interval))
                    =~= original.take(i + 1) + add_to_buckets(original.skip(i + 1), *event, interval));
            }
            i = i + 1;
        }
        let end: u64 = if start > u64::MAX - interval { u64::MAX } else { start + interval };
        if i < self.buckets.len() && self.buckets[i].start.secs == start {
            let bucket = counted_exec(self.buckets[i], event);
            self.buckets.set(i, bucket);
        } else {
            let fresh = HistoryBucket {
                start: Timestamp { secs: start, nanos: 0 },
                end: Timestamp { secs: end, nanos: 0 },
                byte_delta: 0,
                event_count: 0,
                unknown_size_event_count: 0,
            };
            let fresh = counted_exec(fresh, event);
            self.buckets.insert(i, fresh);
        }
        proof {
            let rest = original.skip(i as int);
            if i < original.len() {
                assert(rest[0] == original[i as int]);
            }
            assert(self.buckets@ =~= original.take(i as int) + add_to_buckets(rest, *event, interval));
        }
    }

    /// Places `event` in the page, keeping the page at most `wanted` rows.
    fn place(&mut self, event: ActivityEvent)
        requires
            old(self).page@.len() <= old(self).wanted,
        ensures
            final(self).page@ == first_n(insert_ranked(old(self).query, old(self).page@, event), old(self).wanted as int),
            final(self).buckets == old(self).buckets,
            final(self).interval == old(self).interval,
            final(self).query == old(self).query,
            final(self).wanted == old(self).wanted,
            final(self).matched == old(self).matched,
            final(self).total_net_byte_delta == old(self).total_net_byte_delta,
            final(self).unknown == old(self).unknown,
            final(self).seen == old(self).seen,
            final(self).root_path == old(self).root_path,
            final(self).generated_at == old(self).generated_at,
    {
        let ghost original = self.page@;
        let mut at: usize = 0;
        while at < self.page.len() && !self.query.listed_before(&event, &self.page[at])
            invariant
                at <= self.page@.len(),
                self.page@ == original,
                forall|j: int| 0 <= j < at ==> !listed_before(self.query, event, #[trigger] original[j]),
            decreases self.page@.len() - at,
        {
            at = at + 1;
        }
        let ghost q = self.query;
        proof {
            insert_ranked_at(q, original, event, at as int);
            insert_ranked_len(q, original, event);
        }
        if (at as u64) < self.wanted {
            self.page.insert(at, event);
            if self.page.len() as u64 > self.wanted {
                self.page.pop();
            }
            proof {
                let full = original.take(at as int).push(event) + original.skip(at as int);
                assert(full =~= original.insert(at as int, event));
                if full.len() > self.wanted {
                    assert(self.page@ =~= full.take(self.wanted as int));
                }
            }
        } else {
            proof {
                let full = original.take(at as int).push(event) + original.skip(at as int);
                assert(original.len() == self.wanted);
                assert(full.take(self.wanted as int) =~= original);
            }
        }
    }

    /// Totals and buckets cover every row the query matched, and only
    /// `recent_events` is cut to the page: totalling just the rows a caller
    /// can display understates the answer by the ratio between the journal
    /// and the page.
    pub fn finish(self) -> (snapshot: HistorySnapshot)
        requires
            self.wf(),
        ensures
            is_history_of(
                snapshot,
                self.root_of(),
                self.seen_rows(),
                self.interval_of(),
                self.recent_limit() as int,
                self.query_of(),
                self.generated_at_of(),
            ),
    {
        let ghost rows = matched(self.query, self.seen@);
        let skip = self.query.skip as usize;
        let mut recent: Vec<ActivityEvent> = Vec::new();
        if skip < self.page.len() {
            let mut i: usize = skip;
            while i < self.page.len()
                invariant
                    skip <= i <= self.page@.len(),
                    recent@ == self.page@.subrange(skip as int, i as int),
                decreases self.page@.len() - i,
            {
                recent.push(self.page[i].copy());
                proof {
                    assert(self.page@.subrange(skip as int, i + 1) =~= self.page@.subrange(skip as int, i as int).push(self.page@[i as int]));
                }
                i = i + 1;
            }
            proof {
                assert(self.page@.subrange(skip as int, self.page@.len() as int) =~= self.page@.skip(skip as int));
            }
        }
        let snapshot = HistorySnapshot {
            root_path: normalize(self.root_path.as_str()),
            generated_at: self.generated_at,
            total_net_byte_delta: self.total_net_byte_delta,
            event_count: self.matched as u32,
            unknown_size_event_count: self.unknown as u32,
            buckets: self.buckets,
            is_truncated: self.matched > self.wanted,
            recent_events: recent,
        };
        snapshot
    }
}

} // verus!
