//! Turns raw path changes into `ActivityEvent`s with byte deltas.
//!
//! Every size a change is judged by comes from a lookup the caller owns — the
//! current size of a path, the last size of a path that vanished, the last
//! size of one that is still there — because where sizes are kept is storage
//! policy. What the caller must not own is the arithmetic here, which is the
//! same on every platform.

use vstd::prelude::*;

use crate::measurement::FileMeasurement;

use crate::chars::{chars_of, push_str, string_of};
use crate::event::{copy_text, ActivityEvent, Confidence, EventKind, Timestamp};
use crate::monitor::{Change, ChangeKind};
use crate::num::{clamp_i64, saturating_abs_i64, saturating_add_i64};
use crate::order::{is_text_less, text_less};
use crate::paths::{inside, is_inside};
use crate::text::last_index_of;

verus! {

#[derive(Debug, Clone, Copy, PartialEq, Eq, Structural)]
pub struct AggregationOptions {
    /// Events whose |delta| is below this are dropped (unknown-size events pass).
    pub minimum_recorded_byte_delta: i64,
    /// Seconds; 0 disables grouping into `Aggregate` rows.
    pub aggregation_window_secs: u64,
    /// When true, individual file rows are kept (no aggregation).
    pub records_file_names: bool,
    /// Smallest and largest file this watch records at all, in bytes; `None`
    /// is no bound. Judged on the file's own size, not on how much of it
    /// changed, which is what `minimum_recorded_byte_delta` does.
    pub min_file_bytes: Option<i64>,
    pub max_file_bytes: Option<i64>,
}

impl AggregationOptions {
    /// Long-term default: 1 KiB threshold, 5-minute aggregation, no file names.
    pub fn long_term() -> (o: AggregationOptions)
        ensures
            o == (AggregationOptions {
                minimum_recorded_byte_delta: 1024,
                aggregation_window_secs: 300,
                records_file_names: false,
                min_file_bytes: None,
                max_file_bytes: None,
            }),
    {
        AggregationOptions {
            minimum_recorded_byte_delta: 1024,
            aggregation_window_secs: 300,
            records_file_names: false,
            min_file_bytes: None,
            max_file_bytes: None,
        }
    }

    /// Live monitor default: 1 KiB changes, individually.
    pub fn short_term() -> (o: AggregationOptions)
        ensures
            o == (AggregationOptions {
                minimum_recorded_byte_delta: 1024,
                aggregation_window_secs: 0,
                records_file_names: true,
                min_file_bytes: None,
                max_file_bytes: None,
            }),
    {
        AggregationOptions {
            minimum_recorded_byte_delta: 1024,
            aggregation_window_secs: 0,
            records_file_names: true,
            min_file_bytes: None,
            max_file_bytes: None,
        }
    }

    /// Whether a file of this size is watched at all.
    pub fn watches_file(&self, size: Option<i64>) -> (r: bool)
        ensures
            r == in_bounds(size, self.min_file_bytes, self.max_file_bytes),
    {
        size_in_bounds(size, self.min_file_bytes, self.max_file_bytes)
    }
}

/// Whether a file of this size is inside the bounds; `None` for a bound is no
/// bound, and a size that could not be read is inside them.
pub open spec fn in_bounds(size: Option<i64>, min_bytes: Option<i64>, max_bytes: Option<i64>) -> bool {
    match size {
        None => true,
        Some(s) => (min_bytes matches Some(min) ==> s >= min) && (max_bytes matches Some(max) ==> s <= max),
    }
}

/// Whether a file of this size is inside the bounds a host set; `None` for a
/// bound is no bound.
///
/// A size that could not be read is inside them. A change whose file cannot be
/// measured — a deletion, usually — must not vanish because of a bound it was
/// never tested against; under-reporting a deletion is the one failure this
/// app cannot afford.
pub fn size_in_bounds(size: Option<i64>, min_bytes: Option<i64>, max_bytes: Option<i64>) -> (r: bool)
    ensures
        r == in_bounds(size, min_bytes, max_bytes),
{
    let size = match size {
        None => {
            return true;
        },
        Some(size) => size,
    };
    if let Some(min) = min_bytes {
        if size < min {
            return false;
        }
    }
    if let Some(max) = max_bytes {
        if size > max {
            return false;
        }
    }
    true
}

/// The allocated size a measurement reports, as a signed size: `None` when
/// there was no measurement, the filesystem reports no allocation, or it does
/// not fit. Directories report zero, so a readable folder is not mistaken for
/// an unreadable one.
pub fn allocated_size(measurement: Option<&FileMeasurement>) -> (size: Option<i64>)
    ensures
        size == (match measurement {
            Some(m) => match m.allocated_bytes {
                Some(b) => if b <= i64::MAX { Some(b as i64) } else { None },
                None => None,
            },
            None => None,
        }),
{
    match measurement {
        Some(m) => match m.allocated_bytes {
            Some(b) => if b <= i64::MAX as u64 { Some(b as i64) } else { None },
            None => None,
        },
        None => None,
    }
}

/// One line of a size index file, as the host read it: the key it names, the
/// size it records (`None` for a removal), and when it was recorded, when that
/// could be read.
#[derive(Clone, Debug, PartialEq, Eq)]
pub struct IndexLine {
    pub key: String,
    pub size: Option<i64>,
    pub recorded_at: Option<Timestamp>,
}

/// Whether a line records a baseline from before `cutoff`.
pub open spec fn stale(line: IndexLine, cutoff: Option<Timestamp>) -> bool {
    match (cutoff, line.recorded_at) {
        (Some(c), Some(at)) => !c.no_later_than(at),
        _ => false,
    }
}

/// The baselines after the lines in order.
pub open spec fn replayed_map(lines: Seq<IndexLine>, cutoff: Option<Timestamp>) -> Map<Seq<char>, i64>
    decreases lines.len(),
{
    if lines.len() == 0 {
        Map::empty()
    } else {
        let before = replayed_map(lines.drop_last(), cutoff);
        let line = lines.last();
        match line.size {
            Some(s) => if stale(line, cutoff) { before.remove(line.key@) } else { before.insert(line.key@, s) },
            None => before.remove(line.key@),
        }
    }
}

/// Whether line `i` is one a rewrite of the file keeps: a baseline, not
/// stale at `cutoff`, and the last line for its key.
pub open spec fn keeps(lines: Seq<IndexLine>, cutoff: Option<Timestamp>, i: int) -> bool {
    &&& 0 <= i < lines.len()
    &&& lines[i].size is Some
    &&& !stale(lines[i], cutoff)
    &&& forall|j: int| i < j < lines.len() ==> lines[j].key@ != lines[i].key@
}

/// Whether `out` is a rewrite of `lines` at `cutoff`: every line it holds is
/// a line of `lines` that a rewrite keeps — its stamp included, so a
/// rewrite never makes an old baseline look new — every such line is in it,
/// and no key is in it twice.
pub open spec fn compaction_of(lines: Seq<IndexLine>, cutoff: Option<Timestamp>, out: Seq<IndexLine>) -> bool {
    &&& forall|a: int, b: int| 0 <= a < b < out.len() ==> #[trigger] out[a].key@ != #[trigger] out[b].key@
    &&& forall|i: int| 0 <= i < out.len() ==> kept_line(lines, cutoff, #[trigger] out[i])
    &&& forall|j: int| keeps(lines, cutoff, j) ==> out.contains(#[trigger] lines[j])
}

/// Whether `line` is one of the lines of `lines` that a rewrite keeps.
pub open spec fn kept_line(lines: Seq<IndexLine>, cutoff: Option<Timestamp>, line: IndexLine) -> bool {
    exists|j: int| keeps(lines, cutoff, j) && lines[j] == line
}

proof fn replay_is_last_lines(lines: Seq<IndexLine>, cutoff: Option<Timestamp>, k: Seq<char>)
    ensures
        replayed_map(lines, cutoff).contains_key(k) <==> exists|i: int| keeps(lines, cutoff, i) && lines[i].key@ == k,
        forall|i: int| keeps(lines, cutoff, i) && lines[i].key@ == k ==> replayed_map(lines, cutoff)[k] == lines[i].size->0,
    decreases lines.len(),
{
    if lines.len() > 0 {
        let init = lines.drop_last();
        let n = lines.len() - 1;
        replay_is_last_lines(init, cutoff, k);
        assert forall|i: int| 0 <= i < n implies (keeps(lines, cutoff, i) <==> keeps(init, cutoff, i) && lines[n].key@
            != lines[i].key@) by {
            assert(init[i] == lines[i]);
            if keeps(init, cutoff, i) && lines[n].key@ != lines[i].key@ {
                assert forall|j: int| i < j < lines.len() implies lines[j].key@ != lines[i].key@ by {
                    if j < n {
                        assert(init[j] == lines[j]);
                    }
                }
            }
            if keeps(lines, cutoff, i) {
                assert forall|j: int| i < j < init.len() implies init[j].key@ != init[i].key@ by {
                    assert(init[j] == lines[j]);
                }
            }
        }
        if lines[n].key@ == k {
            if exists|i: int| keeps(lines, cutoff, i) && lines[i].key@ == k {
                let i = choose|i: int| keeps(lines, cutoff, i) && lines[i].key@ == k;
                assert(i == n);
            }
            if lines[n].size is Some && !stale(lines[n], cutoff) {
                assert(keeps(lines, cutoff, n));
            }
        } else {
            if exists|i: int| keeps(init, cutoff, i) && init[i].key@ == k {
                let i = choose|i: int| keeps(init, cutoff, i) && init[i].key@ == k;
                assert(init[i] == lines[i]);
                assert(keeps(lines, cutoff, i));
            }
            if exists|i: int| keeps(lines, cutoff, i) && lines[i].key@ == k {
                let i = choose|i: int| keeps(lines, cutoff, i) && lines[i].key@ == k;
                assert(i != n);
                assert(init[i] == lines[i]);
                assert(keeps(init, cutoff, i));
            }
            assert forall|i: int| keeps(lines, cutoff, i) && lines[i].key@ == k implies replayed_map(lines, cutoff)[k]
                == lines[i].size->0 by {
                assert(i != n);
                assert(init[i] == lines[i]);
                assert(keeps(init, cutoff, i));
            }
        }
    }
}

#[verifier::rlimit(40)]
proof fn rewrite_agrees_on(lines: Seq<IndexLine>, cutoff: Option<Timestamp>, out: Seq<IndexLine>, k: Seq<char>)
    requires
        compaction_of(lines, cutoff, out),
        forall|i: int| 0 <= i < out.len() ==> keeps(out, cutoff, i),
    ensures
        replayed_map(out, cutoff).contains_key(k) == replayed_map(lines, cutoff).contains_key(k),
        replayed_map(out, cutoff).contains_key(k) ==> replayed_map(out, cutoff)[k] == replayed_map(lines, cutoff)[k],
{
    replay_is_last_lines(out, cutoff, k);
    replay_is_last_lines(lines, cutoff, k);
    if exists|i: int| keeps(out, cutoff, i) && out[i].key@ == k {
        let i = choose|i: int| keeps(out, cutoff, i) && out[i].key@ == k;
        let j = choose|j: int| keeps(lines, cutoff, j) && lines[j] == out[i];
        assert(keeps(lines, cutoff, j) && lines[j].key@ == k);
    }
    if exists|j: int| keeps(lines, cutoff, j) && lines[j].key@ == k {
        let j = choose|j: int| keeps(lines, cutoff, j) && lines[j].key@ == k;
        let i = choose|i: int| 0 <= i < out.len() && out[i] == lines[j];
        assert(keeps(out, cutoff, i) && out[i].key@ == k);
    }
}

/// Rewriting a size index file loses no baseline and invents none: what the
/// rewrite loads is exactly what the file it replaces loads.
pub proof fn a_rewrite_loads_what_it_replaced(lines: Seq<IndexLine>, cutoff: Option<Timestamp>, out: Seq<IndexLine>)
    requires
        compaction_of(lines, cutoff, out),
    ensures
        replayed_map(out, cutoff) == replayed_map(lines, cutoff),
{
    assert forall|i: int| 0 <= i < out.len() implies keeps(out, cutoff, i) by {
        let j = choose|j: int| keeps(lines, cutoff, j) && lines[j] == out[i];
        assert forall|m: int| i < m < out.len() implies out[m].key@ != out[i].key@ by {
            assert(out[i].key@ != out[m].key@);
        }
    }
    assert forall|k: Seq<char>| #[trigger] replayed_map(out, cutoff).contains_key(k) == replayed_map(lines, cutoff).contains_key(k)
        by {
        rewrite_agrees_on(lines, cutoff, out, k);
    }
    assert forall|k: Seq<char>| replayed_map(out, cutoff).contains_key(k) implies #[trigger] replayed_map(out, cutoff)[k]
        == replayed_map(lines, cutoff)[k] by {
        rewrite_agrees_on(lines, cutoff, out, k);
    }
    assert(replayed_map(out, cutoff) =~= replayed_map(lines, cutoff));
}

fn is_last(lines: &[IndexLine], i: usize) -> (r: bool)
    requires
        i < lines@.len(),
    ensures
        r == (forall|m: int| i < m < lines@.len() ==> lines@[m].key@ != lines@[i as int].key@),
{
    let n = lines.len();
    let mut j: usize = i + 1;
    while j < n
        invariant
            n == lines@.len(),
            i < j <= lines@.len(),
            forall|m: int| i < m < j ==> lines@[m].key@ != lines@[i as int].key@,
        decreases lines@.len() - j,
    {
        if lines[j].key == lines[i].key {
            return false;
        }
        j = j + 1;
    }
    true
}

/// The lines a rewrite of a size index file writes: for every key, the last
/// line that recorded a baseline still inside `cutoff`, with its stamp, in
/// the order the lines came.
#[verifier::spinoff_prover]
pub fn compacted(lines: &[IndexLine], cutoff: Option<Timestamp>) -> (out: Vec<IndexLine>)
    ensures
        compaction_of(lines@, cutoff, out@),
{
    let mut out: Vec<IndexLine> = Vec::new();
    let ghost mut from: Seq<int> = Seq::empty();
    let n = lines.len();
    let mut i: usize = 0;
    while i < n
        invariant
            i <= n,
            n == lines@.len(),
            from.len() == out@.len(),
            forall|a: int| 0 <= a < out@.len() ==> 0 <= #[trigger] from[a] < i && keeps(lines@, cutoff, from[a])
                && out@[a] == lines@[from[a]],
            forall|j: int| 0 <= j < i && keeps(lines@, cutoff, j) ==> #[trigger] from.contains(j),
            forall|a: int, b: int| 0 <= a < b < out@.len() ==> #[trigger] out@[a].key@ != #[trigger] out@[b].key@,
        decreases n - i,
    {
        let line = &lines[i];
        let fresh = match (cutoff, line.recorded_at) {
            (Some(c), Some(at)) => c.is_no_later_than(&at),
            _ => true,
        };
        let last = is_last(lines, i);
        if line.size.is_some() && fresh && last {
            let kept = IndexLine { key: line.key.clone(), size: line.size, recorded_at: line.recorded_at };
            assert(keeps(lines@, cutoff, i as int));
            let ghost before = out@;
            let ghost from_before = from;
            out.push(kept);
            proof {
                from = from.push(i as int);
                assert(out@[before.len() as int] == lines@[i as int]);
                assert forall|a: int, b: int| 0 <= a < b < out@.len() implies #[trigger] out@[a].key@ != #[trigger] out@[b].key@ by {
                    assert(out@[a] == lines@[from[a]]);
                    if b == before.len() {
                        assert(keeps(lines@, cutoff, from[a]));
                        assert(from[a] < i);
                        assert(lines@[i as int].key@ != lines@[from[a]].key@);
                    } else {
                        assert(out@[a] == before[a]);
                        assert(out@[b] == before[b]);
                    }
                }
                assert forall|j: int| 0 <= j < i + 1 && keeps(lines@, cutoff, j) implies #[trigger] from.contains(j) by {
                    if j < i {
                        assert(from_before.contains(j));
                        let k = choose|k: int| 0 <= k < from_before.len() && from_before[k] == j;
                        assert(from[k] == j);
                    } else {
                        assert(from[from.len() - 1] == j);
                    }
                }
                assert forall|a: int| 0 <= a < out@.len() implies 0 <= #[trigger] from[a] < i + 1 && keeps(lines@, cutoff, from[a])
                    && out@[a] == lines@[from[a]] by {
                    if a < before.len() {
                        assert(from[a] == from_before[a]);
                        assert(out@[a] == before[a]);
                    }
                }
            }
        } else {
            assert(!keeps(lines@, cutoff, i as int));
            proof {
                assert forall|j: int| 0 <= j < i + 1 && keeps(lines@, cutoff, j) implies #[trigger] from.contains(j) by {
                    assert(j != i);
                }
            }
        }
        i = i + 1;
    }
    proof {
        assert forall|i: int| 0 <= i < out@.len() implies kept_line(lines@, cutoff, #[trigger] out@[i]) by {
            let k = from[i];
            assert(keeps(lines@, cutoff, k) && lines@[k] == out@[i]);
        }
        assert forall|j: int| keeps(lines@, cutoff, j) implies out@.contains(#[trigger] lines@[j]) by {
            assert(from.contains(j));
            let k = choose|k: int| 0 <= k < from.len() && from[k] == j;
            assert(0 <= k < out@.len() && out@[k] == lines@[j]);
        }
    }
    out
}

/// How many lines a size index file may hold before it is rewritten from
/// what is in memory: an append-only list of baselines is mostly superseded
/// rows.
pub const COMPACT_AT: usize = 10_000;

/// Whether writing `pending` more lines to a file that holds `written` is a
/// rewrite rather than an append.
pub fn compacting(written: usize, pending: usize) -> (r: bool)
    ensures
        r == (written + pending >= COMPACT_AT),
{
    written >= COMPACT_AT || pending >= COMPACT_AT - written
}

/// The key a baseline is kept under: a newline cannot appear in a scope, so
/// no scope can spell another one's key.
pub open spec fn index_key(scope: Seq<char>, path: Seq<char>) -> Seq<char> {
    scope + seq!['\n'] + path
}

/// Two watches never share a baseline: a scope holds no newline, so no
/// scope and path can spell the key of another scope and path.
pub proof fn keys_never_collide(scope: Seq<char>, path: Seq<char>, other_scope: Seq<char>, other_path: Seq<char>)
    requires
        !scope.contains('\n'),
        !other_scope.contains('\n'),
        index_key(scope, path) == index_key(other_scope, other_path),
    ensures
        scope == other_scope,
        path == other_path,
{
    let k = index_key(scope, path);
    assert(k == index_key(other_scope, other_path));
    if scope.len() < other_scope.len() {
        assert(k[scope.len() as int] == '\n');
        assert(k[scope.len() as int] == other_scope[scope.len() as int]);
        assert(other_scope.contains('\n'));
    }
    if other_scope.len() < scope.len() {
        assert(k[other_scope.len() as int] == '\n');
        assert(k[other_scope.len() as int] == scope[other_scope.len() as int]);
        assert(scope.contains('\n'));
    }
    assert(scope =~= k.take(scope.len() as int));
    assert(other_scope =~= k.take(other_scope.len() as int));
    assert(path =~= k.skip(scope.len() as int + 1));
    assert(other_path =~= k.skip(other_scope.len() as int + 1));
}

/// A baseline recorded for a path reads back, through later records and
/// removals of other paths (in any scope without a newline), as what was
/// recorded: [`SizeIndex::record`] and [`SizeIndex::take`] change the index
/// by exactly these steps, and [`SizeIndex::peek`] reads it.
pub proof fn a_baseline_outlives_other_paths(
    baselines: Map<Seq<char>, i64>,
    scope: Seq<char>,
    path: Seq<char>,
    size: i64,
    others: Seq<(Seq<char>, Seq<char>, Option<i64>)>,
)
    requires
        !scope.contains('\n'),
        forall|i: int| 0 <= i < others.len() ==> !(#[trigger] others[i]).0.contains('\n')
            && !(others[i].0 == scope && others[i].1 == path),
    ensures
        applied(baselines.insert(index_key(scope, path), size), others).contains_key(index_key(scope, path)),
        applied(baselines.insert(index_key(scope, path), size), others)[index_key(scope, path)] == size,
    decreases others.len(),
{
    if others.len() > 0 {
        let last = others.last();
        assert(others.drop_last().len() < others.len());
        assert forall|i: int| 0 <= i < others.drop_last().len() implies !(#[trigger] others.drop_last()[i]).0.contains('\n')
            && !(others.drop_last()[i].0 == scope && others.drop_last()[i].1 == path) by {
            assert(others.drop_last()[i] == others[i]);
        }
        a_baseline_outlives_other_paths(baselines, scope, path, size, others.drop_last());
        assert(others[others.len() - 1] == last);
        if index_key(last.0, last.1) == index_key(scope, path) {
            keys_never_collide(last.0, last.1, scope, path);
        }
    }
}

/// `baselines` after recording (`Some`) or removing (`None`) each of
/// `changes`, a scope, a path and a size, in order.
pub open spec fn applied(baselines: Map<Seq<char>, i64>, changes: Seq<(Seq<char>, Seq<char>, Option<i64>)>) -> Map<Seq<char>, i64>
    decreases changes.len(),
{
    if changes.len() == 0 {
        baselines
    } else {
        let before = applied(baselines, changes.drop_last());
        let c = changes.last();
        match c.2 {
            Some(v) => before.insert(index_key(c.0, c.1), v),
            None => before.remove(index_key(c.0, c.1)),
        }
    }
}

fn key_of(scope: &str, path: &str) -> (key: String)
    ensures
        key@ == index_key(scope@, path@),
{
    let mut out = chars_of(scope);
    out.push('\n');
    push_str(&mut out, path);
    string_of(out.as_slice())
}

/// Remembers the last known size of each path so deletions can be attributed.
///
/// Every entry is namespaced by a `scope`. Two watches over the same file are
/// independent observers and each needs its own baseline: sharing one entry
/// lets whichever watch handles an event first record the new size, so the
/// others measure a delta of zero and their threshold drops the change.
///
/// The changes since the last [`SizeIndex::take_pending`] are kept in order,
/// so a host that keeps the baselines on disk writes exactly what changed.
#[derive(Debug, Default)]
pub struct SizeIndex {
    sizes: Vec<(String, i64)>,
    pending: Vec<(String, Option<i64>)>,
}

impl SizeIndex {
    /// The baselines, by key.
    pub closed spec fn view_map(&self) -> Map<Seq<char>, i64> {
        Map::new(
            |k: Seq<char>| exists|i: int| 0 <= i < self.sizes@.len() && self.sizes@[i].0@ == k,
            |k: Seq<char>| self.sizes@[choose|i: int| 0 <= i < self.sizes@.len() && self.sizes@[i].0@ == k].1,
        )
    }

    /// The changes not yet handed out, oldest first.
    pub closed spec fn pending_view(&self) -> Seq<(Seq<char>, Option<i64>)> {
        self.pending@.map_values(|entry: (String, Option<i64>)| (entry.0@, entry.1))
    }

    /// No key is held twice.
    pub closed spec fn wf(&self) -> bool {
        forall|i: int, j: int|
            0 <= i < j < self.sizes@.len() ==> #[trigger] self.sizes@[i].0@ != #[trigger] self.sizes@[j].0@
    }

    /// An empty index.
    pub fn new() -> (index: SizeIndex)
        ensures
            index.wf(),
            index.view_map() == Map::<Seq<char>, i64>::empty(),
            index.pending_view() == Seq::<(Seq<char>, Option<i64>)>::empty(),
    {
        let index = SizeIndex { sizes: Vec::new(), pending: Vec::new() };
        assert(index.view_map() =~= Map::<Seq<char>, i64>::empty());
        assert(index.pending_view() =~= Seq::<(Seq<char>, Option<i64>)>::empty());
        index
    }

    fn find(&self, key: &String) -> (at: Option<usize>)
        requires
            self.wf(),
        ensures
            match at {
                Some(i) => i < self.sizes@.len() && self.sizes@[i as int].0@ == key@,
                None => !self.view_map().contains_key(key@),
            },
    {
        let mut i: usize = 0;
        while i < self.sizes.len()
            invariant
                i <= self.sizes@.len(),
                forall|j: int| 0 <= j < i ==> self.sizes@[j].0@ != key@,
            decreases self.sizes@.len() - i,
        {
            if self.sizes[i].0 == *key {
                return Some(i);
            }
            i = i + 1;
        }
        None
    }

    proof fn lookup(&self, i: int)
        requires
            self.wf(),
            0 <= i < self.sizes@.len(),
        ensures
            self.view_map().contains_key(self.sizes@[i].0@),
            self.view_map()[self.sizes@[i].0@] == self.sizes@[i].1,
    {
        let k = self.sizes@[i].0@;
        let c = choose|j: int| 0 <= j < self.sizes@.len() && self.sizes@[j].0@ == k;
        assert(0 <= c < self.sizes@.len() && self.sizes@[c].0@ == k);
        if c != i {
            if c < i {
                assert(self.sizes@[c].0@ != self.sizes@[i].0@);
            } else {
                assert(self.sizes@[i].0@ != self.sizes@[c].0@);
            }
        }
    }

    fn note(&mut self, key: String, size: Option<i64>)
        ensures
            final(self).sizes == old(self).sizes,
            final(self).pending_view() == old(self).pending_view().push((key@, size)),
    {
        self.pending.push((key, size));
        assert(self.pending_view() =~= old(self).pending_view().push((key@, size)));
    }

    /// The last size recorded for `path` in `scope`, left in place. `take` is
    /// for a path that is gone; a file that was merely modified still needs
    /// its baseline afterwards, or the next change reports the whole file
    /// again instead of what was added to it.
    pub fn peek(&self, scope: &str, path: &str) -> (size: Option<i64>)
        requires
            self.wf(),
        ensures
            size == (if self.view_map().contains_key(index_key(scope@, path@)) {
                Some(self.view_map()[index_key(scope@, path@)])
            } else {
                None
            }),
    {
        let key = key_of(scope, path);
        match self.find(&key) {
            Some(i) => {
                proof { self.lookup(i as int); }
                Some(self.sizes[i].1)
            },
            None => None,
        }
    }

    /// Records `size` under `key`, or forgets the key when `None`.
    fn set(&mut self, key: String, size: Option<i64>)
        requires
            old(self).wf(),
        ensures
            final(self).wf(),
            final(self).view_map() == (match size {
                Some(s) => old(self).view_map().insert(key@, s),
                None => old(self).view_map().remove(key@),
            }),
            final(self).pending_view() == old(self).pending_view().push((key@, size)),
    {
        let ghost k = key@;
        let ghost before = self.view_map();
        match (self.find(&key), size) {
            (Some(i), Some(s)) => {
                let entry = (key.clone(), s);
                self.sizes.set(i, entry);
                proof {
                    assert forall|a: int, b: int| 0 <= a < b < self.sizes@.len() implies
                        #[trigger] self.sizes@[a].0@ != #[trigger] self.sizes@[b].0@ by {
                        assert(old(self).sizes@[a].0@ != old(self).sizes@[b].0@);
                    }
                    self.same_keys_updated(old(self), i as int, s);
                }
            },
            (Some(i), None) => {
                self.sizes.remove(i);
                proof { self.removed_at(old(self), i as int); }
            },
            (None, Some(s)) => {
                self.sizes.push((key.clone(), s));
                proof { self.pushed(old(self), k, s); }
            },
            (None, None) => {
                proof { assert(before.remove(k) =~= before); }
            },
        }
        self.note(key, size);
    }

    /// Records `size` for `path` in `scope`, or forgets it when `None`.
    pub fn record(&mut self, scope: &str, path: &str, size: Option<i64>) -> (out: Option<i64>)
        requires
            old(self).wf(),
        ensures
            final(self).wf(),
            out == size,
            final(self).view_map() == (match size {
                Some(s) => old(self).view_map().insert(index_key(scope@, path@), s),
                None => old(self).view_map().remove(index_key(scope@, path@)),
            }),
            final(self).pending_view() == old(self).pending_view().push((index_key(scope@, path@), size)),
    {
        let key = key_of(scope, path);
        self.set(key, size);
        size
    }

    /// The baselines a size index file holds, its lines read in order: the
    /// last line for a key wins, a removal forgets the key, and so does a
    /// baseline recorded before `cutoff` — one whose stamp could not be read
    /// is kept rather than aged out on a guess. Nothing is pending.
    pub fn replayed(lines: &[IndexLine], cutoff: Option<Timestamp>) -> (index: SizeIndex)
        ensures
            index.wf(),
            index.view_map() == replayed_map(lines@, cutoff),
            index.pending_view() == Seq::<(Seq<char>, Option<i64>)>::empty(),
    {
        let mut index = SizeIndex::new();
        let mut i: usize = 0;
        while i < lines.len()
            invariant
                i <= lines@.len(),
                index.wf(),
                index.view_map() == replayed_map(lines@.take(i as int), cutoff),
            decreases lines@.len() - i,
        {
            let line = &lines[i];
            let fresh = match (cutoff, line.recorded_at) {
                (Some(c), Some(at)) => c.is_no_later_than(&at),
                _ => true,
            };
            let size = if fresh { line.size } else { None };
            index.set(line.key.clone(), size);
            proof {
                assert(lines@.take(i + 1).drop_last() =~= lines@.take(i as int));
            }
            i = i + 1;
        }
        proof {
            assert(lines@.take(lines@.len() as int) =~= lines@);
        }
        index.take_pending();
        index
    }

    /// Consumes the size recorded for a path that is gone.
    pub fn take(&mut self, scope: &str, path: &str) -> (out: Option<i64>)
        requires
            old(self).wf(),
        ensures
            final(self).wf(),
            out == (if old(self).view_map().contains_key(index_key(scope@, path@)) {
                Some(old(self).view_map()[index_key(scope@, path@)])
            } else {
                None
            }),
            final(self).view_map() == old(self).view_map().remove(index_key(scope@, path@)),
            final(self).pending_view() == (if out is Some {
                old(self).pending_view().push((index_key(scope@, path@), None))
            } else {
                old(self).pending_view()
            }),
    {
        let key = key_of(scope, path);
        match self.find(&key) {
            Some(i) => {
                proof { self.lookup(i as int); }
                let (_, size) = self.sizes.remove(i);
                proof { self.removed_at(old(self), i as int); }
                self.note(key, None);
                Some(size)
            },
            None => {
                proof { assert(self.view_map().remove(key@) =~= self.view_map()); }
                None
            },
        }
    }

    /// Forgets every baseline and every change not yet handed out.
    pub fn reset(&mut self)
        ensures
            final(self).wf(),
            final(self).view_map() == Map::<Seq<char>, i64>::empty(),
            final(self).pending_view() == Seq::<(Seq<char>, Option<i64>)>::empty(),
    {
        self.sizes = Vec::new();
        self.pending = Vec::new();
        assert(self.view_map() =~= Map::<Seq<char>, i64>::empty());
        assert(self.pending_view() =~= Seq::<(Seq<char>, Option<i64>)>::empty());
    }

    /// Hands out the changes since the last call, oldest first, so a host
    /// that keeps the baselines on disk appends exactly those.
    pub fn take_pending(&mut self) -> (changes: Vec<(String, Option<i64>)>)
        requires
            old(self).wf(),
        ensures
            final(self).wf(),
            changes@.map_values(|entry: (String, Option<i64>)| (entry.0@, entry.1)) == old(self).pending_view(),
            final(self).view_map() == old(self).view_map(),
            final(self).pending_view() == Seq::<(Seq<char>, Option<i64>)>::empty(),
    {
        let mut changes: Vec<(String, Option<i64>)> = Vec::new();
        std::mem::swap(&mut changes, &mut self.pending);
        assert(self.pending_view() =~= Seq::<(Seq<char>, Option<i64>)>::empty());
        changes
    }

    proof fn same_keys_updated(&self, before: &SizeIndex, i: int, s: i64)
        requires
            before.wf(),
            self.wf(),
            0 <= i < before.sizes@.len(),
            self.sizes@.len() == before.sizes@.len(),
            self.sizes@[i].0@ == before.sizes@[i].0@,
            self.sizes@[i].1 == s,
            forall|j: int| 0 <= j < self.sizes@.len() && j != i ==> self.sizes@[j] == before.sizes@[j],
        ensures
            self.view_map() == before.view_map().insert(before.sizes@[i].0@, s),
    {
        let k = before.sizes@[i].0@;
        assert forall|key: Seq<char>| #[trigger] self.view_map().contains_key(key) == before.view_map().insert(k, s).contains_key(key) by {
            if key == k {
                assert(self.sizes@[i].0@ == key);
            } else if self.view_map().contains_key(key) {
                let c = choose|j: int| 0 <= j < self.sizes@.len() && self.sizes@[j].0@ == key;
                assert(before.sizes@[c].0@ == key);
            } else if before.view_map().contains_key(key) {
                let c = choose|j: int| 0 <= j < before.sizes@.len() && before.sizes@[j].0@ == key;
                assert(self.sizes@[c].0@ == key);
            }
        }
        assert forall|key: Seq<char>| self.view_map().contains_key(key) implies
            self.view_map()[key] == #[trigger] before.view_map().insert(k, s)[key] by {
            let c = choose|j: int| 0 <= j < self.sizes@.len() && self.sizes@[j].0@ == key;
            self.lookup(c);
            if key != k {
                before.lookup(c);
            } else {
                self.lookup(i);
            }
        }
        assert(self.view_map() =~= before.view_map().insert(k, s));
    }

    proof fn removed_at(&self, before: &SizeIndex, i: int)
        requires
            before.wf(),
            0 <= i < before.sizes@.len(),
            self.sizes@ == before.sizes@.remove(i),
        ensures
            self.wf(),
            self.view_map() == before.view_map().remove(before.sizes@[i].0@),
    {
        let k = before.sizes@[i].0@;
        assert forall|a: int, b: int| 0 <= a < b < self.sizes@.len() implies
            #[trigger] self.sizes@[a].0@ != #[trigger] self.sizes@[b].0@ by {
            let a2 = if a < i { a } else { a + 1 };
            let b2 = if b < i { b } else { b + 1 };
            assert(self.sizes@[a] == before.sizes@[a2]);
            assert(self.sizes@[b] == before.sizes@[b2]);
        }
        assert forall|key: Seq<char>| #[trigger] self.view_map().contains_key(key) == before.view_map().remove(k).contains_key(key) by {
            if self.view_map().contains_key(key) {
                let c = choose|j: int| 0 <= j < self.sizes@.len() && self.sizes@[j].0@ == key;
                let c2 = if c < i { c } else { c + 1 };
                assert(before.sizes@[c2].0@ == key);
                if key == k {
                    if c2 < i {
                        assert(before.sizes@[c2].0@ != before.sizes@[i].0@);
                    } else {
                        assert(before.sizes@[i].0@ != before.sizes@[c2].0@);
                    }
                }
            } else if before.view_map().contains_key(key) && key != k {
                let c = choose|j: int| 0 <= j < before.sizes@.len() && before.sizes@[j].0@ == key;
                assert(c != i);
                let c2 = if c < i { c } else { c - 1 };
                assert(self.sizes@[c2].0@ == key);
            }
        }
        assert forall|key: Seq<char>| self.view_map().contains_key(key) implies
            self.view_map()[key] == #[trigger] before.view_map().remove(k)[key] by {
            let c = choose|j: int| 0 <= j < self.sizes@.len() && self.sizes@[j].0@ == key;
            self.lookup(c);
            let c2 = if c < i { c } else { c + 1 };
            before.lookup(c2);
        }
        assert(self.view_map() =~= before.view_map().remove(k));
    }

    proof fn pushed(&self, before: &SizeIndex, k: Seq<char>, s: i64)
        requires
            before.wf(),
            !before.view_map().contains_key(k),
            self.sizes@.len() == before.sizes@.len() + 1,
            forall|j: int| 0 <= j < before.sizes@.len() ==> self.sizes@[j] == before.sizes@[j],
            self.sizes@.last().0@ == k,
            self.sizes@.last().1 == s,
        ensures
            self.wf(),
            self.view_map() == before.view_map().insert(k, s),
    {
        let n = before.sizes@.len() as int;
        assert forall|a: int, b: int| 0 <= a < b < self.sizes@.len() implies
            #[trigger] self.sizes@[a].0@ != #[trigger] self.sizes@[b].0@ by {
            if b == n {
                assert(before.sizes@[a].0@ != k) by {
                    if before.sizes@[a].0@ == k {
                        assert(before.view_map().contains_key(k));
                    }
                }
            }
        }
        assert forall|key: Seq<char>| #[trigger] self.view_map().contains_key(key) == before.view_map().insert(k, s).contains_key(key) by {
            if self.view_map().contains_key(key) && key != k {
                let c = choose|j: int| 0 <= j < self.sizes@.len() && self.sizes@[j].0@ == key;
                assert(c < n);
                assert(before.sizes@[c].0@ == key);
            } else if before.view_map().contains_key(key) {
                let c = choose|j: int| 0 <= j < before.sizes@.len() && before.sizes@[j].0@ == key;
                assert(self.sizes@[c].0@ == key);
            } else if key == k {
                assert(self.sizes@[n].0@ == key);
            }
        }
        assert forall|key: Seq<char>| self.view_map().contains_key(key) implies
            self.view_map()[key] == #[trigger] before.view_map().insert(k, s)[key] by {
            let c = choose|j: int| 0 <= j < self.sizes@.len() && self.sizes@[j].0@ == key;
            self.lookup(c);
            if c < n {
                before.lookup(c);
            }
        }
        assert(self.view_map() =~= before.view_map().insert(k, s));
    }
}


/// The parent directory of `path`, `/` when it has none.
pub open spec fn parent_spec(path: Seq<char>) -> Seq<char> {
    let t = crate::chars::trim_end(path, '/');
    let i = last_index_of(t, '/');
    if i < 0 {
        seq!['/']
    } else {
        let head = crate::chars::trim_end(t.take(i), '/');
        if head.len() == 0 { seq!['/'] } else { head }
    }
}

/// The parent directory of `path`, `/` when it has none.
pub fn parent_of(path: &str) -> (out: String)
    ensures
        out@ == parent_spec(path@),
{
    let text = chars_of(path);
    let t = crate::chars::trimmed_end(text.as_slice(), '/');
    let mut at: usize = t.len();
    assert(t@.take(t@.len() as int) =~= t@);
    while at > 0 && t[at - 1] != '/'
        invariant
            0 <= at <= t@.len(),
            last_index_of(t@.take(at as int), '/') == last_index_of(t@, '/'),
        decreases at,
    {
        proof {
            assert(t@.take(at as int).drop_last() =~= t@.take(at - 1));
        }
        at = at - 1;
    }
    proof {
        if at > 0 {
            assert(t@.take(at as int).last() == '/');
            assert(last_index_of(t@.take(at as int), '/') == at - 1);
        }
    }
    if at == 0 {
        return string_of(&['/']);
    }
    let head_with = crate::chars::slice_of(t.as_slice(), 0, at - 1);
    assert(head_with@ =~= t@.take(at - 1));
    let head = crate::chars::trimmed_end(head_with.as_slice(), '/');
    if head.len() == 0 {
        string_of(&['/'])
    } else {
        string_of(head.as_slice())
    }
}

/// What the lookups said about one change, in the order they were asked:
/// the last size of a path still there, its size now, whether it exists when
/// it could not be measured, and the last sizes of the path and of the one it
/// was renamed from, consumed because they are gone.
#[derive(Debug, Clone, Copy, PartialEq, Eq, Structural)]
pub struct Lookups {
    pub known: Option<i64>,
    pub size: Option<i64>,
    pub present: bool,
    pub prior: Option<i64>,
    pub previous_prior: Option<i64>,
}

/// A row for `change` with the given kind, delta, confidence and origin.
pub open spec fn row(change: Change, kind: EventKind, delta: Option<i64>, confidence: Confidence, previous: Option<String>) -> ActivityEvent {
    ActivityEvent {
        kind,
        path: change.path,
        root_path: change.root_path,
        timestamp: change.timestamp,
        byte_delta: delta,
        confidence,
        previous_path: previous,
        affected_item_count: 1,
        process_name: change.process_name,
    }
}

/// `a - b` held inside `i64`.
pub open spec fn diff(a: i64, b: i64) -> i64 {
    clamp_i64(a - b) as i64
}

/// A row for a path that was written: its growth against the last size this
/// watch knew, the whole file for a first arrival, unknown for a first
/// modification. A path that cannot be measured is a row of unknown size when
/// it is still there and nothing when it is gone; a file outside the size
/// bounds is nothing.
pub open spec fn sized(options: AggregationOptions, change: Change, kind: EventKind, l: Lookups) -> Option<ActivityEvent> {
    match l.size {
        None => if l.present { Some(row(change, kind, None, Confidence::Unknown, None)) } else { None },
        Some(size) => if !in_bounds(Some(size), options.min_file_bytes, options.max_file_bytes) {
            None
        } else {
            match l.known {
                Some(previous) => Some(row(
                    change,
                    if kind == EventKind::Created { EventKind::Modified } else { kind },
                    Some(diff(size, previous)),
                    Confidence::Confirmed,
                    None,
                )),
                None => if kind == EventKind::Created {
                    Some(row(change, kind, Some(size), Confidence::Confirmed, None))
                } else {
                    Some(row(change, kind, None, Confidence::Unknown, None))
                },
            }
        },
    }
}

/// A row for a path that is gone: minus the last size this watch knew,
/// unknown when it knew none, nothing when that size is outside the bounds.
pub open spec fn vanished(options: AggregationOptions, change: Change, kind: EventKind, previous: Option<String>, prior: Option<i64>) -> Option<ActivityEvent> {
    match prior {
        Some(p) => if in_bounds(Some(p), options.min_file_bytes, options.max_file_bytes) {
            Some(row(change, kind, Some(diff(0, p)), Confidence::Estimated, previous))
        } else {
            None
        },
        None => Some(row(change, kind, None, Confidence::Unknown, previous)),
    }
}

/// The row one change becomes, given what the lookups said. A rename nets
/// out against the size of the path it left when that path was inside the
/// watch; otherwise against the size its destination last had, when the
/// destination was a file this watch had measured (a file saved by renaming a
/// temporary over it grew by the difference, once); otherwise it brought the
/// whole file.
pub open spec fn event_for(options: AggregationOptions, change: Change, l: Lookups) -> Option<ActivityEvent> {
    match change.kind {
        ChangeKind::Created => sized(options, change, EventKind::Created, l),
        ChangeKind::Modified => sized(options, change, EventKind::Modified, l),
        ChangeKind::Deleted => vanished(options, change, EventKind::Deleted, None, l.prior),
        ChangeKind::Renamed { previous_path } => {
            let within = previous_path matches Some(p) && inside(change.root_path@, p@);
            let previous_known = if previous_path is Some { l.previous_prior } else { None };
            match l.size {
                Some(size) => if in_bounds(Some(size), options.min_file_bytes, options.max_file_bytes) {
                    let (delta, confidence) = if within && previous_known is Some {
                        (diff(size, previous_known->0), Confidence::Confirmed)
                    } else if l.known is Some {
                        (diff(size, l.known->0), Confidence::Confirmed)
                    } else if within {
                        (size, Confidence::Estimated)
                    } else {
                        (size, Confidence::Confirmed)
                    };
                    Some(row(change, EventKind::Moved, Some(delta), confidence, previous_path))
                } else {
                    vanished(options, change, EventKind::Moved, previous_path, l.prior)
                },
                None => vanished(options, change, EventKind::Moved, previous_path, l.prior),
            }
        },
    }
}

/// Whether some change in the batch brings `path` into place.
pub open spec fn arrives(changes: Seq<Change>, path: Seq<char>) -> bool {
    exists|i: int| 0 <= i < changes.len() && (#[trigger] changes[i]).path@ == path
        && (changes[i].kind is Created || changes[i].kind is Renamed)
}

/// The changes worth attributing: a modification of a path the same batch
/// brought into place is the write that made it, and adds nothing.
pub open spec fn kept_prefix(changes: Seq<Change>, n: int) -> Seq<Change>
    decreases n,
{
    if n <= 0 {
        seq![]
    } else {
        let c = changes[n - 1];
        if c.kind is Modified && arrives(changes, c.path@) {
            kept_prefix(changes, n - 1)
        } else {
            kept_prefix(changes, n - 1).push(c)
        }
    }
}

pub open spec fn kept(changes: Seq<Change>) -> Seq<Change> {
    kept_prefix(changes, changes.len() as int)
}

/// The rows the kept changes become, one lookup record per change.
pub open spec fn attributed(options: AggregationOptions, changes: Seq<Change>, ls: Seq<Lookups>) -> Seq<ActivityEvent>
    decreases changes.len(),
{
    if changes.len() == 0 || ls.len() < changes.len() {
        seq![]
    } else {
        let rest = attributed(options, changes.drop_last(), ls.take(changes.len() - 1));
        match event_for(options, changes.last(), ls[changes.len() - 1]) {
            Some(e) => rest.push(e),
            None => rest,
        }
    }
}

/// Whether a row clears the size threshold. A row of unknown size always
/// does: there is no value to compare.
pub open spec fn is_recordable(options: AggregationOptions, event: ActivityEvent) -> bool {
    match event.byte_delta {
        Some(d) => clamp_i64(if d < 0 { -d } else { d as int }) >= options.minimum_recorded_byte_delta,
        None => true,
    }
}

/// The rows that clear the threshold, in order.
pub open spec fn recordable(options: AggregationOptions, events: Seq<ActivityEvent>) -> Seq<ActivityEvent>
    decreases events.len(),
{
    if events.len() == 0 {
        seq![]
    } else if is_recordable(options, events.last()) {
        recordable(options, events.drop_last()).push(events.last())
    } else {
        recordable(options, events.drop_last())
    }
}

/// Whether `a` happened strictly before `b`, the path breaking a tie.
pub open spec fn earlier(a: ActivityEvent, b: ActivityEvent) -> bool {
    (a.timestamp.no_later_than(b.timestamp) && a.timestamp != b.timestamp)
        || (a.timestamp == b.timestamp && text_less(a.path@, b.path@))
}

/// `event` placed after every row it does not come before.
pub open spec fn insert_earliest(rows: Seq<ActivityEvent>, event: ActivityEvent) -> Seq<ActivityEvent>
    decreases rows.len(),
{
    if rows.len() == 0 {
        seq![event]
    } else if earlier(event, rows[0]) {
        seq![event] + rows
    } else {
        seq![rows[0]] + insert_earliest(rows.drop_first(), event)
    }
}

/// `rows` oldest first, ties kept in the order given: a stable sort.
pub open spec fn by_time(rows: Seq<ActivityEvent>) -> Seq<ActivityEvent>
    decreases rows.len(),
{
    if rows.len() == 0 {
        seq![]
    } else {
        insert_earliest(by_time(rows.drop_last()), rows.last())
    }
}

proof fn insert_earliest_at(rows: Seq<ActivityEvent>, event: ActivityEvent, at: int)
    requires
        0 <= at <= rows.len(),
        forall|j: int| 0 <= j < at ==> !earlier(event, #[trigger] rows[j]),
        at == rows.len() || earlier(event, rows[at]),
    ensures
        insert_earliest(rows, event) == rows.take(at).push(event) + rows.skip(at),
    decreases rows.len(),
{
    if at == 0 {
        if rows.len() == 0 {
            assert(rows.take(0).push(event) + rows.skip(0) =~= seq![event]);
        } else {
            assert(rows.take(0).push(event) + rows.skip(0) =~= seq![event] + rows);
        }
    } else {
        assert(!earlier(event, rows[0]));
        let rest = rows.drop_first();
        assert forall|j: int| 0 <= j < at - 1 implies !earlier(event, #[trigger] rest[j]) by {
            assert(rest[j] == rows[j + 1]);
        }
        if at < rows.len() {
            assert(rest[at - 1] == rows[at]);
        }
        insert_earliest_at(rest, event, at - 1);
        assert(seq![rows[0]] + (rest.take(at - 1).push(event) + rest.skip(at - 1))
            =~= rows.take(at).push(event) + rows.skip(at));
    }
}

fn is_earlier(a: &ActivityEvent, b: &ActivityEvent) -> (r: bool)
    ensures
        r == earlier(*a, *b),
{
    if a.timestamp != b.timestamp {
        a.timestamp.is_no_later_than(&b.timestamp)
    } else {
        let pa = chars_of(a.path.as_str());
        let pb = chars_of(b.path.as_str());
        is_text_less(pa.as_slice(), pb.as_slice())
    }
}

/// `rows` oldest first, ties kept in the order given.
pub fn sort_by_time(rows: Vec<ActivityEvent>) -> (out: Vec<ActivityEvent>)
    ensures
        out@ == by_time(rows@),
{
    let mut out: Vec<ActivityEvent> = Vec::new();
    let mut i: usize = 0;
    while i < rows.len()
        invariant
            i <= rows@.len(),
            out@ == by_time(rows@.take(i as int)),
        decreases rows@.len() - i,
    {
        let event = rows[i].copy();
        let mut at: usize = 0;
        while at < out.len() && !is_earlier(&event, &out[at])
            invariant
                at <= out@.len(),
                forall|j: int| 0 <= j < at ==> !earlier(event, #[trigger] out@[j]),
            decreases out@.len() - at,
        {
            at = at + 1;
        }
        proof {
            insert_earliest_at(out@, event, at as int);
            assert(out@.take(at as int).push(event) + out@.skip(at as int) =~= out@.insert(at as int, event));
            assert(rows@.take(i + 1).drop_last() =~= rows@.take(i as int));
        }
        out.insert(at, event);
        i = i + 1;
    }
    proof {
        assert(rows@.take(rows@.len() as int) =~= rows@);
    }
    out
}


/// What rows are grouped by: root, parent folder, and window number.
pub open spec fn group_key(event: ActivityEvent, window: u64) -> (Seq<char>, Seq<char>, int) {
    (event.root_path@, parent_spec(event.path@), (event.timestamp.secs / window) as int)
}

/// Whether one group key sorts before another: root, then parent, then window.
pub open spec fn key_less(a: (Seq<char>, Seq<char>, int), b: (Seq<char>, Seq<char>, int)) -> bool {
    text_less(a.0, b.0) || (a.0 == b.0 && (text_less(a.1, b.1) || (a.1 == b.1 && a.2 < b.2)))
}

/// `groups`, ordered by key, with `event` added to the one its key names.
pub open spec fn add_to_groups(
    groups: Seq<((Seq<char>, Seq<char>, int), Seq<ActivityEvent>)>,
    event: ActivityEvent,
    window: u64,
) -> Seq<((Seq<char>, Seq<char>, int), Seq<ActivityEvent>)>
    decreases groups.len(),
{
    let k = group_key(event, window);
    if groups.len() == 0 {
        seq![(k, seq![event])]
    } else if groups[0].0 == k {
        seq![(k, groups[0].1.push(event))] + groups.drop_first()
    } else if key_less(k, groups[0].0) {
        seq![(k, seq![event])] + groups
    } else {
        seq![groups[0]] + add_to_groups(groups.drop_first(), event, window)
    }
}

/// The groups of `events`, ordered by key, each in arrival order.
pub open spec fn groups_of(events: Seq<ActivityEvent>, window: u64) -> Seq<((Seq<char>, Seq<char>, int), Seq<ActivityEvent>)>
    decreases events.len(),
{
    if events.len() == 0 {
        seq![]
    } else {
        add_to_groups(groups_of(events.drop_last(), window), events.last(), window)
    }
}

/// Whether every row of every group carries that group's key.
pub open spec fn keyed(groups: Seq<((Seq<char>, Seq<char>, int), Seq<ActivityEvent>)>, window: u64) -> bool {
    forall|i: int, a: int| 0 <= i < groups.len() && 0 <= a < groups[i].1.len()
        ==> group_key(#[trigger] groups[i].1[a], window) == groups[i].0
}

proof fn adding_keeps_keys(groups: Seq<((Seq<char>, Seq<char>, int), Seq<ActivityEvent>)>, event: ActivityEvent, window: u64)
    requires
        keyed(groups, window),
    ensures
        keyed(add_to_groups(groups, event, window), window),
    decreases groups.len(),
{
    let k = group_key(event, window);
    let out = add_to_groups(groups, event, window);
    if groups.len() == 0 {
    } else if groups[0].0 == k {
        assert forall|i: int, a: int| 0 <= i < out.len() && 0 <= a < out[i].1.len()
            implies group_key(#[trigger] out[i].1[a], window) == out[i].0 by {
            if i > 0 {
                assert(out[i] == groups[i]);
            } else if a < groups[0].1.len() {
                assert(out[0].1[a] == groups[0].1[a]);
            }
        }
    } else if key_less(k, groups[0].0) {
        assert forall|i: int, a: int| 0 <= i < out.len() && 0 <= a < out[i].1.len()
            implies group_key(#[trigger] out[i].1[a], window) == out[i].0 by {
            if i > 0 {
                assert(out[i] == groups[i - 1]);
            }
        }
    } else {
        let rest = groups.drop_first();
        assert forall|i: int, a: int| 0 <= i < rest.len() && 0 <= a < rest[i].1.len()
            implies group_key(#[trigger] rest[i].1[a], window) == rest[i].0 by {
            assert(rest[i] == groups[i + 1]);
        }
        adding_keeps_keys(rest, event, window);
        let tail = add_to_groups(rest, event, window);
        assert forall|i: int, a: int| 0 <= i < out.len() && 0 <= a < out[i].1.len()
            implies group_key(#[trigger] out[i].1[a], window) == out[i].0 by {
            if i > 0 {
                assert(out[i] == tail[i - 1]);
            }
        }
    }
}

proof fn groups_are_keyed(events: Seq<ActivityEvent>, window: u64)
    ensures
        keyed(groups_of(events, window), window),
    decreases events.len(),
{
    if events.len() > 0 {
        groups_are_keyed(events.drop_last(), window);
        adding_keeps_keys(groups_of(events.drop_last(), window), events.last(), window);
    }
}

/// A folded row never spans two aggregation windows: the rows of one group
/// share their root, their parent folder and the window their time falls in.
pub proof fn a_group_spans_one_window(events: Seq<ActivityEvent>, window: u64, i: int, a: int, b: int)
    requires
        window > 0,
        0 <= i < groups_of(events, window).len(),
        0 <= a < groups_of(events, window)[i].1.len(),
        0 <= b < groups_of(events, window)[i].1.len(),
    ensures
        ({
            let (x, y) = (groups_of(events, window)[i].1[a], groups_of(events, window)[i].1[b]);
            &&& x.timestamp.secs / window == y.timestamp.secs / window
            &&& x.root_path@ == y.root_path@
            &&& parent_spec(x.path@) == parent_spec(y.path@)
        }),
{
    groups_are_keyed(events, window);
    let g = groups_of(events, window);
    assert(group_key(g[i].1[a], window) == g[i].0);
    assert(group_key(g[i].1[b], window) == g[i].0);
}

proof fn key_less_irreflexive(k: (Seq<char>, Seq<char>, int))
    ensures
        !key_less(k, k),
{
    crate::order::text_less_irreflexive(k.0);
    crate::order::text_less_irreflexive(k.1);
}

proof fn key_less_transitive(a: (Seq<char>, Seq<char>, int), b: (Seq<char>, Seq<char>, int), c: (Seq<char>, Seq<char>, int))
    requires
        key_less(a, b),
        key_less(b, c),
    ensures
        key_less(a, c),
{
    if text_less(a.0, b.0) && text_less(b.0, c.0) {
        crate::order::text_less_transitive(a.0, b.0, c.0);
    }
    if a.0 == b.0 && b.0 == c.0 && text_less(a.1, b.1) && text_less(b.1, c.1) {
        crate::order::text_less_transitive(a.1, b.1, c.1);
    }
}

proof fn key_less_total(a: (Seq<char>, Seq<char>, int), b: (Seq<char>, Seq<char>, int))
    ensures
        a == b || key_less(a, b) || key_less(b, a),
{
    crate::order::text_less_total(a.0, b.0);
    crate::order::text_less_total(a.1, b.1);
}

/// Whether the groups are ordered by key, no key twice.
pub open spec fn keys_ascending(groups: Seq<((Seq<char>, Seq<char>, int), Seq<ActivityEvent>)>) -> bool {
    forall|i: int, j: int| 0 <= i < j < groups.len() ==> key_less((#[trigger] groups[i]).0, (#[trigger] groups[j]).0)
}

/// Whether `event` is a row of one of the groups.
pub open spec fn grouped(groups: Seq<((Seq<char>, Seq<char>, int), Seq<ActivityEvent>)>, event: ActivityEvent) -> bool {
    exists|i: int, a: int| 0 <= i < groups.len() && 0 <= a < groups[i].1.len() && (#[trigger] groups[i].1[a]) == event
}

proof fn adding_keeps_order(groups: Seq<((Seq<char>, Seq<char>, int), Seq<ActivityEvent>)>, event: ActivityEvent, window: u64)
    requires
        keys_ascending(groups),
    ensures
        keys_ascending(add_to_groups(groups, event, window)),
        grouped(add_to_groups(groups, event, window), event),
        forall|e: ActivityEvent| #[trigger] grouped(groups, e) ==> grouped(add_to_groups(groups, event, window), e),
        forall|i: int| 0 <= i < add_to_groups(groups, event, window).len() ==> (
            (#[trigger] add_to_groups(groups, event, window)[i]).0 == group_key(event, window)
            || exists|j: int| 0 <= j < groups.len() && groups[j].0 == add_to_groups(groups, event, window)[i].0),
    decreases groups.len(),
{
    let k = group_key(event, window);
    let out = add_to_groups(groups, event, window);
    if groups.len() == 0 {
        assert(out[0].1[0] == event);
    } else if groups[0].0 == k {
        assert(out[0].1[groups[0].1.len() as int] == event);
        assert forall|i: int, j: int| 0 <= i < j < out.len() implies key_less((#[trigger] out[i]).0, (#[trigger] out[j]).0) by {
            assert(out[j] == groups[j]);
            if i > 0 { assert(out[i] == groups[i]); }
        }
        assert forall|e: ActivityEvent| #[trigger] grouped(groups, e) implies grouped(out, e) by {
            let (i, a) = choose|i: int, a: int| 0 <= i < groups.len() && 0 <= a < groups[i].1.len() && (#[trigger] groups[i].1[a]) == e;
            if i == 0 {
                assert(out[0].1[a] == e);
            } else {
                assert(out[i] == groups[i]);
                assert(out[i].1[a] == e);
            }
        }
        assert forall|i: int| 0 <= i < out.len() implies ((#[trigger] out[i]).0 == k
            || exists|j: int| 0 <= j < groups.len() && groups[j].0 == out[i].0) by {
            if i > 0 { assert(out[i] == groups[i]); }
        }
    } else if key_less(k, groups[0].0) {
        assert(out[0].1[0] == event);
        assert forall|i: int, j: int| 0 <= i < j < out.len() implies key_less((#[trigger] out[i]).0, (#[trigger] out[j]).0) by {
            assert(out[j] == groups[j - 1]);
            if i > 0 {
                assert(out[i] == groups[i - 1]);
            } else if j > 1 {
                key_less_transitive(k, groups[0].0, groups[j - 1].0);
            }
        }
        assert forall|e: ActivityEvent| #[trigger] grouped(groups, e) implies grouped(out, e) by {
            let (i, a) = choose|i: int, a: int| 0 <= i < groups.len() && 0 <= a < groups[i].1.len() && (#[trigger] groups[i].1[a]) == e;
            assert(out[i + 1] == groups[i]);
            assert(out[i + 1].1[a] == e);
        }
        assert forall|i: int| 0 <= i < out.len() implies ((#[trigger] out[i]).0 == k
            || exists|j: int| 0 <= j < groups.len() && groups[j].0 == out[i].0) by {
            if i > 0 { assert(out[i] == groups[i - 1]); }
        }
    } else {
        let rest = groups.drop_first();
        assert forall|i: int, j: int| 0 <= i < j < rest.len() implies key_less((#[trigger] rest[i]).0, (#[trigger] rest[j]).0) by {
            assert(rest[i] == groups[i + 1] && rest[j] == groups[j + 1]);
        }
        adding_keeps_order(rest, event, window);
        let tail = add_to_groups(rest, event, window);
        assert(out == seq![groups[0]] + tail);
        key_less_total(k, groups[0].0);
        assert forall|i: int| 0 <= i < tail.len() implies key_less(groups[0].0, (#[trigger] tail[i]).0) by {
            if tail[i].0 != k {
                let j = choose|j: int| 0 <= j < rest.len() && rest[j].0 == tail[i].0;
                assert(rest[j] == groups[j + 1]);
            }
        }
        assert forall|i: int, j: int| 0 <= i < j < out.len() implies key_less((#[trigger] out[i]).0, (#[trigger] out[j]).0) by {
            assert(out[j] == tail[j - 1]);
            if i > 0 { assert(out[i] == tail[i - 1]); }
        }
        let (wi, wa) = choose|i: int, a: int| 0 <= i < tail.len() && 0 <= a < tail[i].1.len() && (#[trigger] tail[i].1[a]) == event;
        assert(out[wi + 1] == tail[wi]);
        assert(out[wi + 1].1[wa] == event);
        assert forall|e: ActivityEvent| #[trigger] grouped(groups, e) implies grouped(out, e) by {
            let (i, a) = choose|i: int, a: int| 0 <= i < groups.len() && 0 <= a < groups[i].1.len() && (#[trigger] groups[i].1[a]) == e;
            if i == 0 {
                assert(out[0].1[a] == e);
            } else {
                assert(rest[i - 1] == groups[i]);
                assert(rest[i - 1].1[a] == e);
                assert(grouped(rest, e));
                let (ti, ta) = choose|ti: int, ta: int| 0 <= ti < tail.len() && 0 <= ta < tail[ti].1.len() && (#[trigger] tail[ti].1[ta]) == e;
                assert(out[ti + 1] == tail[ti]);
                assert(out[ti + 1].1[ta] == e);
            }
        }
        assert forall|i: int| 0 <= i < out.len() implies ((#[trigger] out[i]).0 == k
            || exists|j: int| 0 <= j < groups.len() && groups[j].0 == out[i].0) by {
            if i > 0 {
                assert(out[i] == tail[i - 1]);
                if tail[i - 1].0 != k {
                    let j = choose|j: int| 0 <= j < rest.len() && rest[j].0 == tail[i - 1].0;
                    assert(rest[j] == groups[j + 1]);
                }
            }
        }
    }
}

proof fn groups_in_order(events: Seq<ActivityEvent>, window: u64)
    ensures
        keys_ascending(groups_of(events, window)),
        forall|j: int| 0 <= j < events.len() ==> grouped(groups_of(events, window), #[trigger] events[j]),
    decreases events.len(),
{
    if events.len() > 0 {
        let init = events.drop_last();
        groups_in_order(init, window);
        adding_keeps_order(groups_of(init, window), events.last(), window);
        assert forall|j: int| 0 <= j < events.len() implies grouped(groups_of(events, window), #[trigger] events[j]) by {
            if j < events.len() - 1 {
                assert(init[j] == events[j]);
                assert(grouped(groups_of(init, window), init[j]));
            }
        }
    }
}

/// Rows of one root, one parent folder and one aggregation window are
/// folded together: every row is in a group, and no two groups share their
/// root, parent and window, so such rows can only be in the same one.
pub proof fn one_group_per_folder_and_window(events: Seq<ActivityEvent>, window: u64)
    ensures
        forall|j: int| 0 <= j < events.len() ==> grouped(groups_of(events, window), #[trigger] events[j]),
        forall|i: int, j: int| 0 <= i < j < groups_of(events, window).len()
            ==> (#[trigger] groups_of(events, window)[i]).0 != (#[trigger] groups_of(events, window)[j]).0,
{
    groups_in_order(events, window);
    let g = groups_of(events, window);
    assert forall|i: int, j: int| 0 <= i < j < g.len() implies (#[trigger] g[i]).0 != (#[trigger] g[j]).0 by {
        if g[i].0 == g[j].0 {
            key_less_irreflexive(g[i].0);
        }
    }
}

/// Whether some row of `events` has no known size.
pub open spec fn any_unknown(events: Seq<ActivityEvent>) -> bool {
    exists|i: int| 0 <= i < events.len() && (#[trigger] events[i]).byte_delta is None
}

/// The known deltas of `events` added up, held inside `i64`.
pub open spec fn delta_sum(events: Seq<ActivityEvent>) -> int
    decreases events.len(),
{
    if events.len() == 0 {
        0
    } else {
        clamp_i64(delta_sum(events.drop_last()) + match events.last().byte_delta { Some(d) => d as int, None => 0 })
    }
}

/// The item counts of `events` added up, held at `u32::MAX`.
pub open spec fn item_sum(events: Seq<ActivityEvent>) -> int
    decreases events.len(),
{
    if events.len() == 0 {
        0
    } else {
        let t = item_sum(events.drop_last()) + events.last().affected_item_count;
        if t > u32::MAX { u32::MAX as int } else { t }
    }
}

/// Whether every row of `events` is confirmed.
pub open spec fn all_confirmed(events: Seq<ActivityEvent>) -> bool {
    forall|i: int| 0 <= i < events.len() ==> (#[trigger] events[i]).confidence == Confidence::Confirmed
}

/// Whether every row of `events` names the program `name` names.
pub open spec fn all_from(events: Seq<ActivityEvent>, name: Seq<char>) -> bool {
    forall|i: int| 0 <= i < events.len() ==> ((#[trigger] events[i]).process_name matches Some(n) && n@ == name)
}

/// Whether `out` is the one row a group of changes (oldest first) folds into:
/// named by the parent folder and stamped with the first change, its delta
/// the sum when every size is known, confirmed only when every part was, and
/// naming a program only when every change came from it.
pub open spec fn group_row(out: ActivityEvent, events: Seq<ActivityEvent>) -> bool {
    let first = events[0];
    &&& out.kind == EventKind::Aggregate
    &&& out.path@ == parent_spec(first.path@)
    &&& out.root_path == first.root_path
    &&& out.timestamp == first.timestamp
    &&& out.byte_delta == (if any_unknown(events) { None } else { Some(delta_sum(events) as i64) })
    &&& out.confidence == (if any_unknown(events) {
        Confidence::Unknown
    } else if all_confirmed(events) {
        Confidence::Confirmed
    } else {
        Confidence::Estimated
    })
    &&& out.previous_path is None
    &&& out.affected_item_count == item_sum(events)
    &&& (out.process_name is Some <==> ((first.process_name matches Some(n)) && all_from(events, first.process_name.unwrap()@)))
    &&& (out.process_name is Some ==> (first.process_name is Some && out.process_name.unwrap()@ == first.process_name.unwrap()@))
}

/// What a batch of changes is recorded as, given what the lookups said: one
/// row per change, or with grouping on, one row per folder and window, with
/// the size threshold applied last so a folder's worth of small changes is
/// judged as one change.
pub open spec fn is_attribution(
    options: AggregationOptions,
    changes: Seq<Change>,
    ls: Seq<Lookups>,
    out: Seq<ActivityEvent>,
) -> bool {
    let rows = attributed(options, kept(changes), ls);
    if options.records_file_names || options.aggregation_window_secs == 0 {
        out == recordable(options, rows)
    } else {
        let groups = groups_of(rows, options.aggregation_window_secs);
        exists|folded: Seq<ActivityEvent>| {
            &&& folded.len() == groups.len()
            &&& forall|i: int| 0 <= i < groups.len() ==> group_row(#[trigger] folded[i], by_time(groups[i].1))
            &&& out == recordable(options, by_time(folded))
        }
    }
}


/// One group being folded: its key and its rows in arrival order.
struct Group {
    root: String,
    parent: String,
    bucket: u64,
    events: Vec<ActivityEvent>,
}

spec fn group_view(g: Group) -> ((Seq<char>, Seq<char>, int), Seq<ActivityEvent>) {
    ((g.root@, g.parent@, g.bucket as int), g.events@)
}

spec fn groups_view(groups: Seq<Group>) -> Seq<((Seq<char>, Seq<char>, int), Seq<ActivityEvent>)> {
    groups.map_values(|g: Group| group_view(g))
}

fn is_key_less(a_root: &String, a_parent: &String, a_bucket: u64, b_root: &String, b_parent: &String, b_bucket: u64) -> (r: bool)
    ensures
        r == key_less((a_root@, a_parent@, a_bucket as int), (b_root@, b_parent@, b_bucket as int)),
{
    let ar = chars_of(a_root.as_str());
    let br = chars_of(b_root.as_str());
    if is_text_less(ar.as_slice(), br.as_slice()) {
        return true;
    }
    if *a_root != *b_root {
        return false;
    }
    let ap = chars_of(a_parent.as_str());
    let bp = chars_of(b_parent.as_str());
    if is_text_less(ap.as_slice(), bp.as_slice()) {
        return true;
    }
    *a_parent == *b_parent && a_bucket < b_bucket
}

fn add_to_group_list(groups: &mut Vec<Group>, event: ActivityEvent, window: u64)
    requires
        window >= 1,
    ensures
        groups_view(final(groups)@) == add_to_groups(groups_view(old(groups)@), event, window),
{
    let root = event.root_path.clone();
    let parent = parent_of(event.path.as_str());
    let bucket = event.timestamp.secs / window;
    let ghost k = (root@, parent@, bucket as int);
    assert(k == group_key(event, window));
    let ghost original = groups_view(groups@);
    let mut i: usize = 0;
    assert(original.skip(0) =~= original);
    assert(original.take(0) + add_to_groups(original, event, window) =~= add_to_groups(original, event, window));
    while i < groups.len()
        && !(groups[i].root == root && groups[i].parent == parent && groups[i].bucket == bucket)
        && !is_key_less(&root, &parent, bucket, &groups[i].root, &groups[i].parent, groups[i].bucket)
        invariant
            i <= groups@.len(),
            groups_view(groups@) == original,
            k == (root@, parent@, bucket as int),
            k == group_key(event, window),
            add_to_groups(original, event, window)
                == original.take(i as int) + add_to_groups(original.skip(i as int), event, window),
        decreases groups@.len() - i,
    {
        proof {
            let rest = original.skip(i as int);
            assert(rest[0] == group_view(groups@[i as int]));
            assert(rest[0].0 != k);
            assert(!key_less(k, rest[0].0));
            assert(add_to_groups(rest, event, window) == seq![rest[0]] + add_to_groups(rest.drop_first(), event, window));
            assert(rest.drop_first() =~= original.skip(i + 1));
            assert(original.take(i + 1) =~= original.take(i as int) + seq![rest[0]]);
            assert(original.take(i as int) + (seq![rest[0]] + add_to_groups(rest.drop_first(), event, window))
                =~= original.take(i + 1) + add_to_groups(original.skip(i + 1), event, window));
        }
        i = i + 1;
    }
    if i < groups.len() && groups[i].root == root && groups[i].parent == parent && groups[i].bucket == bucket {
        let mut g = groups.remove(i);
        let ghost before = g.events@;
        g.events.push(event);
        groups.insert(i, g);
        proof {
            let rest = original.skip(i as int);
            assert(rest[0] == (k, before));
            assert(groups_view(groups@) =~= original.take(i as int) + add_to_groups(rest, event, window));
        }
    } else {
        let mut events: Vec<ActivityEvent> = Vec::new();
        events.push(event);
        let g = Group { root, parent, bucket, events };
        groups.insert(i, g);
        proof {
            let rest = original.skip(i as int);
            if i < original.len() {
                assert(rest[0] == group_view(old(groups)@[i as int]));
            }
            assert(group_view(g) == (k, seq![event]));
            assert(groups_view(groups@) =~= original.take(i as int) + add_to_groups(rest, event, window));
        }
    }
}

/// Folds one group, oldest first, into the row that stands for it.
fn fold_group(events: &Vec<ActivityEvent>) -> (out: ActivityEvent)
    requires
        events@.len() > 0,
    ensures
        group_row(out, events@),
{
    let first = &events[0];
    let mut unknown = false;
    let mut sum: i64 = 0;
    let mut confirmed = true;
    let mut items: u32 = 0;
    let mut same_process = first.process_name.is_some();
    let mut i: usize = 0;
    while i < events.len()
        invariant
            i <= events@.len(),
            first == events@[0],
            unknown == any_unknown(events@.take(i as int)),
            sum == delta_sum(events@.take(i as int)),
            confirmed == all_confirmed(events@.take(i as int)),
            items == item_sum(events@.take(i as int)),
            same_process == (first.process_name is Some && all_from(events@.take(i as int), first.process_name.unwrap()@)),
        decreases events@.len() - i,
    {
        let e = &events[i];
        let ghost prefix = events@.take(i as int);
        let ghost next = events@.take(i + 1);
        proof {
            assert(next.drop_last() =~= prefix);
            assert(next.last() == *e);
            assert(any_unknown(next) == (any_unknown(prefix) || e.byte_delta is None)) by {
                if e.byte_delta is None {
                    assert(next[i as int] == *e);
                }
                if any_unknown(next) && e.byte_delta is Some {
                    let j = choose|j: int| 0 <= j < next.len() && (#[trigger] next[j]).byte_delta is None;
                    assert(prefix[j] == next[j]);
                }
            }
            assert(all_confirmed(next) == (all_confirmed(prefix) && e.confidence == Confidence::Confirmed)) by {
                if all_confirmed(prefix) && e.confidence == Confidence::Confirmed {
                    assert forall|j: int| 0 <= j < next.len() implies (#[trigger] next[j]).confidence == Confidence::Confirmed by {
                        if j < i { assert(next[j] == prefix[j]); }
                    }
                }
                if all_confirmed(next) {
                    assert(next[i as int].confidence == Confidence::Confirmed);
                    assert forall|j: int| 0 <= j < prefix.len() implies (#[trigger] prefix[j]).confidence == Confidence::Confirmed by {
                        assert(next[j] == prefix[j]);
                    }
                }
            }
            if first.process_name is Some {
                let name = first.process_name.unwrap()@;
                assert(all_from(next, name) == (all_from(prefix, name) && (e.process_name matches Some(n) && n@ == name))) by {
                    if all_from(prefix, name) && (e.process_name matches Some(n) && n@ == name) {
                        assert forall|j: int| 0 <= j < next.len() implies ((#[trigger] next[j]).process_name matches Some(n) && n@ == name) by {
                            if j < i { assert(next[j] == prefix[j]); }
                        }
                    }
                    if all_from(next, name) {
                        assert(next[i as int] == *e);
                        assert forall|j: int| 0 <= j < prefix.len() implies ((#[trigger] prefix[j]).process_name matches Some(n) && n@ == name) by {
                            assert(next[j] == prefix[j]);
                        }
                    }
                }
            }
        }
        match e.byte_delta {
            None => {
                unknown = true;
            },
            Some(d) => {
                sum = saturating_add_i64(sum, d);
            },
        }
        if e.confidence != Confidence::Confirmed {
            confirmed = false;
        }
        items = if items as u64 + e.affected_item_count as u64 > u32::MAX as u64 {
            u32::MAX
        } else {
            items + e.affected_item_count
        };
        if same_process {
            match (&e.process_name, &first.process_name) {
                (Some(n), Some(f)) => {
                    if *n != *f {
                        same_process = false;
                    }
                },
                _ => {
                    same_process = false;
                },
            }
        }
        i = i + 1;
    }
    proof {
        assert(events@.take(events@.len() as int) =~= events@);
    }
    let byte_delta = if unknown { None } else { Some(sum) };
    let confidence = if unknown {
        Confidence::Unknown
    } else if confirmed {
        Confidence::Confirmed
    } else {
        Confidence::Estimated
    };
    let process_name = if same_process { copy_text(&first.process_name) } else { None };
    ActivityEvent {
        kind: EventKind::Aggregate,
        path: parent_of(first.path.as_str()),
        root_path: first.root_path.clone(),
        timestamp: first.timestamp,
        byte_delta,
        confidence,
        previous_path: None,
        affected_item_count: items,
        process_name,
    }
}


fn recordable_rows(options: AggregationOptions, rows: Vec<ActivityEvent>) -> (out: Vec<ActivityEvent>)
    ensures
        out@ == recordable(options, rows@),
{
    let mut out: Vec<ActivityEvent> = Vec::new();
    let mut i: usize = 0;
    while i < rows.len()
        invariant
            i <= rows@.len(),
            out@ == recordable(options, rows@.take(i as int)),
        decreases rows@.len() - i,
    {
        proof {
            assert(rows@.take(i + 1).drop_last() =~= rows@.take(i as int));
        }
        let keep = match rows[i].byte_delta {
            Some(d) => saturating_abs_i64(d) >= options.minimum_recorded_byte_delta,
            None => true,
        };
        if keep {
            out.push(rows[i].copy());
        }
        i = i + 1;
    }
    proof {
        assert(rows@.take(rows@.len() as int) =~= rows@);
    }
    out
}

/// Folds `rows` into one row per folder and window, oldest first.
fn aggregate(options: AggregationOptions, rows: Vec<ActivityEvent>) -> (folded: Vec<ActivityEvent>)
    requires
        options.aggregation_window_secs >= 1,
    ensures
        ({
            let groups = groups_of(rows@, options.aggregation_window_secs);
            exists|unsorted: Seq<ActivityEvent>| {
                &&& unsorted.len() == groups.len()
                &&& forall|i: int| 0 <= i < groups.len() ==> group_row(#[trigger] unsorted[i], by_time(groups[i].1))
                &&& folded@ == by_time(unsorted)
            }
        }),
{
    let window = options.aggregation_window_secs;
    let mut groups: Vec<Group> = Vec::new();
    let mut i: usize = 0;
    while i < rows.len()
        invariant
            i <= rows@.len(),
            window >= 1,
            window == options.aggregation_window_secs,
            groups_view(groups@) == groups_of(rows@.take(i as int), window),
        decreases rows@.len() - i,
    {
        proof {
            assert(rows@.take(i + 1).drop_last() =~= rows@.take(i as int));
        }
        add_to_group_list(&mut groups, rows[i].copy(), window);
        i = i + 1;
    }
    proof {
        assert(rows@.take(rows@.len() as int) =~= rows@);
    }
    let ghost gs = groups_of(rows@, window);
    let mut unsorted: Vec<ActivityEvent> = Vec::new();
    let mut j: usize = 0;
    while j < groups.len()
        invariant
            j <= groups@.len(),
            groups_view(groups@) == gs,
            gs == groups_of(rows@, window),
            gs.len() == groups@.len(),
            unsorted@.len() == j,
            forall|k: int| 0 <= k < j ==> group_row(#[trigger] unsorted@[k], by_time(gs[k].1)),
        decreases groups@.len() - j,
    {
        let members = copy_rows(&groups[j].events);
        let sorted = sort_by_time(members);
        proof {
            assert(gs[j as int] == group_view(groups@[j as int]));
            group_nonempty(rows@, window, j as int);
            by_time_len(groups@[j as int].events@);
        }
        let row = fold_group(&sorted);
        unsorted.push(row);
        j = j + 1;
    }
    let folded = sort_by_time(unsorted);
    folded
}

fn copy_rows(rows: &Vec<ActivityEvent>) -> (out: Vec<ActivityEvent>)
    ensures
        out@ == rows@,
{
    let mut out: Vec<ActivityEvent> = Vec::new();
    let mut i: usize = 0;
    while i < rows.len()
        invariant
            i <= rows@.len(),
            out@ == rows@.take(i as int),
        decreases rows@.len() - i,
    {
        out.push(rows[i].copy());
        proof {
            assert(rows@.take(i + 1) =~= rows@.take(i as int).push(rows@[i as int]));
        }
        i = i + 1;
    }
    proof {
        assert(rows@.take(rows@.len() as int) =~= rows@);
    }
    out
}

proof fn by_time_len(rows: Seq<ActivityEvent>)
    ensures
        by_time(rows).len() == rows.len(),
    decreases rows.len(),
{
    if rows.len() > 0 {
        by_time_len(rows.drop_last());
        insert_earliest_len(by_time(rows.drop_last()), rows.last());
    }
}

proof fn insert_earliest_len(rows: Seq<ActivityEvent>, event: ActivityEvent)
    ensures
        insert_earliest(rows, event).len() == rows.len() + 1,
    decreases rows.len(),
{
    if rows.len() > 0 && !earlier(event, rows[0]) {
        insert_earliest_len(rows.drop_first(), event);
    }
}

proof fn add_keeps_groups_nonempty(
    groups: Seq<((Seq<char>, Seq<char>, int), Seq<ActivityEvent>)>,
    event: ActivityEvent,
    window: u64,
)
    requires
        forall|i: int| 0 <= i < groups.len() ==> (#[trigger] groups[i]).1.len() > 0,
    ensures
        forall|i: int| 0 <= i < add_to_groups(groups, event, window).len()
            ==> (#[trigger] add_to_groups(groups, event, window)[i]).1.len() > 0,
    decreases groups.len(),
{
    let k = group_key(event, window);
    if groups.len() > 0 && groups[0].0 != k && !key_less(k, groups[0].0) {
        let rest = groups.drop_first();
        assert forall|i: int| 0 <= i < rest.len() implies (#[trigger] rest[i]).1.len() > 0 by {
            assert(rest[i] == groups[i + 1]);
        }
        add_keeps_groups_nonempty(rest, event, window);
        let added = add_to_groups(rest, event, window);
        assert forall|i: int| 0 <= i < add_to_groups(groups, event, window).len()
            implies (#[trigger] add_to_groups(groups, event, window)[i]).1.len() > 0 by {
            if i > 0 {
                assert(add_to_groups(groups, event, window)[i] == added[i - 1]);
            }
        }
    } else if groups.len() > 0 && groups[0].0 == k {
        assert forall|i: int| 0 <= i < add_to_groups(groups, event, window).len()
            implies (#[trigger] add_to_groups(groups, event, window)[i]).1.len() > 0 by {
            if i > 0 {
                assert(add_to_groups(groups, event, window)[i] == groups[i]);
            }
        }
    } else if groups.len() > 0 {
        assert forall|i: int| 0 <= i < add_to_groups(groups, event, window).len()
            implies (#[trigger] add_to_groups(groups, event, window)[i]).1.len() > 0 by {
            if i > 0 {
                assert(add_to_groups(groups, event, window)[i] == groups[i - 1]);
            }
        }
    }
}

proof fn groups_nonempty(rows: Seq<ActivityEvent>, window: u64)
    ensures
        forall|i: int| 0 <= i < groups_of(rows, window).len() ==> (#[trigger] groups_of(rows, window)[i]).1.len() > 0,
    decreases rows.len(),
{
    if rows.len() > 0 {
        groups_nonempty(rows.drop_last(), window);
        add_keeps_groups_nonempty(groups_of(rows.drop_last(), window), rows.last(), window);
    }
}

proof fn group_nonempty(rows: Seq<ActivityEvent>, window: u64, j: int)
    requires
        0 <= j < groups_of(rows, window).len(),
    ensures
        groups_of(rows, window)[j].1.len() > 0,
{
    groups_nonempty(rows, window);
}


fn make_row(change: &Change, kind: EventKind, delta: Option<i64>, confidence: Confidence, previous: Option<String>) -> (out: ActivityEvent)
    ensures
        out == row(*change, kind, delta, confidence, previous),
{
    ActivityEvent {
        kind,
        path: change.path.clone(),
        root_path: change.root_path.clone(),
        timestamp: change.timestamp,
        byte_delta: delta,
        confidence,
        previous_path: previous,
        affected_item_count: 1,
        process_name: copy_text(&change.process_name),
    }
}

fn diff_exec(a: i64, b: i64) -> (r: i64)
    ensures
        r == diff(a, b),
{
    if b < 0 && a > i64::MAX + b {
        i64::MAX
    } else if b > 0 && a < i64::MIN + b {
        i64::MIN
    } else {
        a - b
    }
}

fn sized_exec(options: &AggregationOptions, change: &Change, kind: EventKind, l: &Lookups) -> (out: Option<ActivityEvent>)
    ensures
        out == sized(*options, *change, kind, *l),
{
    match l.size {
        None => if l.present { Some(make_row(change, kind, None, Confidence::Unknown, None)) } else { None },
        Some(size) => {
            if !options.watches_file(Some(size)) {
                return None;
            }
            match l.known {
                Some(previous) => Some(make_row(
                    change,
                    if kind == EventKind::Created { EventKind::Modified } else { kind },
                    Some(diff_exec(size, previous)),
                    Confidence::Confirmed,
                    None,
                )),
                None => if kind == EventKind::Created {
                    Some(make_row(change, kind, Some(size), Confidence::Confirmed, None))
                } else {
                    Some(make_row(change, kind, None, Confidence::Unknown, None))
                },
            }
        },
    }
}

fn vanished_exec(options: &AggregationOptions, change: &Change, kind: EventKind, previous: Option<String>, prior: Option<i64>) -> (out: Option<ActivityEvent>)
    ensures
        out == vanished(*options, *change, kind, previous, prior),
{
    match prior {
        Some(p) => if options.watches_file(Some(p)) {
            Some(make_row(change, kind, Some(diff_exec(0, p)), Confidence::Estimated, previous))
        } else {
            None
        },
        None => Some(make_row(change, kind, None, Confidence::Unknown, previous)),
    }
}

/// The row one change becomes, given what the lookups said about it.
pub fn event_for_change(options: &AggregationOptions, change: &Change, l: &Lookups) -> (out: Option<ActivityEvent>)
    ensures
        out == event_for(*options, *change, *l),
{
    match &change.kind {
        ChangeKind::Created => sized_exec(options, change, EventKind::Created, l),
        ChangeKind::Modified => sized_exec(options, change, EventKind::Modified, l),
        ChangeKind::Deleted => vanished_exec(options, change, EventKind::Deleted, None, l.prior),
        ChangeKind::Renamed { previous_path } => {
            let within = match previous_path {
                Some(p) => is_inside(change.root_path.as_str(), p.as_str()),
                None => false,
            };
            let previous_known = if previous_path.is_some() { l.previous_prior } else { None };
            let watched = match l.size {
                Some(size) => options.watches_file(Some(size)),
                None => false,
            };
            if watched {
                let size = l.size.unwrap();
                let (delta, confidence) = if within && previous_known.is_some() {
                    (diff_exec(size, previous_known.unwrap()), Confidence::Confirmed)
                } else if l.known.is_some() {
                    (diff_exec(size, l.known.unwrap()), Confidence::Confirmed)
                } else if within {
                    (size, Confidence::Estimated)
                } else {
                    (size, Confidence::Confirmed)
                };
                Some(make_row(change, EventKind::Moved, Some(delta), confidence, copy_text(previous_path)))
            } else {
                vanished_exec(options, change, EventKind::Moved, copy_text(previous_path), l.prior)
            }
        },
    }
}

/// Whether `changes` holds an arrival (a creation or a rename) at `path`.
fn arrives_exec(changes: &[Change], path: &String) -> (r: bool)
    ensures
        r == arrives(changes@, path@),
{
    let mut i: usize = 0;
    while i < changes.len()
        invariant
            i <= changes@.len(),
            forall|j: int| 0 <= j < i ==> !((#[trigger] changes@[j]).path@ == path@
                && (changes@[j].kind is Created || changes@[j].kind is Renamed)),
        decreases changes@.len() - i,
    {
        let arrival = match changes[i].kind {
            ChangeKind::Created => true,
            ChangeKind::Renamed { .. } => true,
            _ => false,
        };
        if arrival && changes[i].path == *path {
            return true;
        }
        i = i + 1;
    }
    false
}

/// Whether change `i` is one the attribution looks at.
fn is_kept(changes: &[Change], i: usize) -> (r: bool)
    requires
        i < changes@.len(),
    ensures
        r == !(changes@[i as int].kind is Modified && arrives(changes@, changes@[i as int].path@)),
{
    match changes[i].kind {
        ChangeKind::Modified => !arrives_exec(changes, &changes[i].path),
        _ => true,
    }
}

proof fn kept_prefix_len(changes: Seq<Change>, n: int)
    ensures
        kept_prefix(changes, n).len() <= if n < 0 { 0 } else { n },
    decreases n,
{
    if n > 0 {
        kept_prefix_len(changes, n - 1);
    }
}


/// What a batch of changes is recorded as, given one lookup record for each
/// change the batch keeps, in order: the verified core of [`Attributor`].
pub fn attribute(options: AggregationOptions, changes: &[Change], lookups: &[Lookups]) -> (events: Vec<ActivityEvent>)
    requires
        lookups@.len() == kept(changes@).len(),
    ensures
        is_attribution(options, changes@, lookups@, events@),
{
    let mut rows: Vec<ActivityEvent> = Vec::new();
    let mut kept_count: usize = 0;
    let mut i: usize = 0;
    proof {
        kept_prefix_len(changes@, changes@.len() as int);
    }
    while i < changes.len()
        invariant
            i <= changes@.len(),
            lookups@.len() == kept(changes@).len(),
            kept_count == kept_prefix(changes@, i as int).len(),
            kept_prefix(changes@, i as int) == kept(changes@).take(kept_count as int),
            kept_count <= lookups@.len(),
            rows@ == attributed(options, kept(changes@).take(kept_count as int), lookups@.take(kept_count as int)),
        decreases changes@.len() - i,
    {
        proof {
            kept_prefix_extends(changes@, i as int);
        }
        if is_kept(changes, i) {
            proof {
                let k = kept(changes@);
                assert(kept_prefix(changes@, i + 1) == kept_prefix(changes@, i as int).push(changes@[i as int]));
                kept_prefix_is_prefix(changes@, i + 1, changes@.len() as int);
                assert(kept_count < k.len());
                assert(k.take(kept_count + 1).drop_last() =~= k.take(kept_count as int));
                assert(k.take(kept_count + 1).last() == changes@[i as int]);
                assert(lookups@.take(kept_count + 1).take(kept_count as int) =~= lookups@.take(kept_count as int));
                assert(kept_prefix(changes@, i + 1) =~= k.take(kept_count + 1));
            }
            match event_for_change(&options, &changes[i], &lookups[kept_count]) {
                Some(e) => rows.push(e),
                None => {},
            }
            kept_count = kept_count + 1;
        }
        i = i + 1;
    }
    proof {
        let k = kept(changes@);
        assert(k.take(kept_count as int) =~= k);
        assert(lookups@.take(kept_count as int) =~= lookups@);
    }
    if options.records_file_names || options.aggregation_window_secs == 0 {
        recordable_rows(options, rows)
    } else {
        let folded = aggregate(options, rows);
        recordable_rows(options, folded)
    }
}

proof fn kept_prefix_extends(changes: Seq<Change>, i: int)
    requires
        0 <= i < changes.len(),
    ensures
        kept_prefix(changes, i + 1) == (if changes[i].kind is Modified && arrives(changes, changes[i].path@) {
            kept_prefix(changes, i)
        } else {
            kept_prefix(changes, i).push(changes[i])
        }),
        kept_prefix(changes, i) == kept(changes).take(kept_prefix(changes, i).len() as int),
{
    kept_prefix_is_prefix(changes, i, changes.len() as int);
}

proof fn kept_prefix_is_prefix(changes: Seq<Change>, i: int, n: int)
    requires
        0 <= i <= n <= changes.len(),
    ensures
        kept_prefix(changes, i) == kept_prefix(changes, n).take(kept_prefix(changes, i).len() as int),
        kept_prefix(changes, i).len() <= kept_prefix(changes, n).len(),
    decreases n - i,
{
    if i == n {
        assert(kept_prefix(changes, i) =~= kept_prefix(changes, n).take(kept_prefix(changes, i).len() as int));
    } else {
        kept_prefix_is_prefix(changes, i, n - 1);
        let a = kept_prefix(changes, i);
        let b = kept_prefix(changes, n - 1);
        let c = kept_prefix(changes, n);
        if !(changes[n - 1].kind is Modified && arrives(changes, changes[n - 1].path@)) {
            assert(c == b.push(changes[n - 1]));
            assert(c.take(a.len() as int) =~= b.take(a.len() as int));
        }
    }
}


/// Whether `f`, asked about `path`, may answer `answer`.
pub open spec fn answers<F: Fn(&str) -> Option<i64>>(f: F, path: Seq<char>, answer: Option<i64>) -> bool {
    exists|p: &str| p@ == path && #[trigger] call_ensures(f, (p,), answer)
}

/// Whether `f`, asked whether `path` is there, may answer `answer`.
pub open spec fn affirms<F: Fn(&str) -> bool>(f: F, path: Seq<char>, answer: bool) -> bool {
    exists|p: &str| p@ == path && #[trigger] call_ensures(f, (p,), answer)
}

/// Whether `l` is what the four lookups answered when asked about `change`
/// the way attribution asks: an arrival or a write is measured (its known
/// size first), and only an unmeasured one is asked whether it is still
/// there; a deletion is asked its prior size; a move is asked the prior size
/// of where it came from, then measured, then, when the file it is now is
/// not one that is watched, asked the prior size at its new path.
pub open spec fn asked_about<S, P, K, E>(
    options: AggregationOptions,
    size: S,
    prior: P,
    known: K,
    present: E,
    change: Change,
    l: Lookups,
) -> bool where
    S: Fn(&str) -> Option<i64>,
    P: Fn(&str) -> Option<i64>,
    K: Fn(&str) -> Option<i64>,
    E: Fn(&str) -> bool,
 {
    let path = change.path@;
    match change.kind {
        ChangeKind::Created | ChangeKind::Modified => {
            &&& answers(known, path, l.known)
            &&& answers(size, path, l.size)
            &&& (l.size is None ==> affirms(present, path, l.present))
            &&& (l.size is Some ==> !l.present)
            &&& l.prior is None
            &&& l.previous_prior is None
        },
        ChangeKind::Deleted => {
            &&& answers(prior, path, l.prior)
            &&& l.known is None
            &&& l.size is None
            &&& !l.present
            &&& l.previous_prior is None
        },
        ChangeKind::Renamed { previous_path } => {
            &&& (match previous_path {
                Some(q) => answers(prior, q@, l.previous_prior),
                None => l.previous_prior is None,
            })
            &&& answers(known, path, l.known)
            &&& answers(size, path, l.size)
            &&& !l.present
            &&& (if l.size is Some && in_bounds(l.size, options.min_file_bytes, options.max_file_bytes) {
                l.prior is None
            } else {
                answers(prior, path, l.prior)
            })
        },
    }
}

/// Attributes batches of changes through four lookups the caller owns: the
/// current size of a path (recorded for later lookups), the last size of a
/// path that vanished (consumed on use), the last size of a path that is
/// still there (read before the current size, so a modification reports
/// growth instead of the whole file again), and whether a path that could not
/// be measured is still there.
pub struct Attributor<'a, S, P, K, E> {
    options: AggregationOptions,
    size: &'a S,
    prior_size: &'a P,
    known_size: &'a K,
    present: &'a E,
}

impl<'a, S, P, K, E> Attributor<'a, S, P, K, E> where
    S: Fn(&str) -> Option<i64>,
    P: Fn(&str) -> Option<i64>,
    K: Fn(&str) -> Option<i64>,
    E: Fn(&str) -> bool,
 {
    pub fn new(options: AggregationOptions, size: &'a S, prior_size: &'a P, known_size: &'a K, present: &'a E) -> (a: Self)
        ensures
            a.options() == options,
            a.size_lookup() == *size,
            a.prior_lookup() == *prior_size,
            a.known_lookup() == *known_size,
            a.presence_lookup() == *present,
    {
        Attributor { options, size, prior_size, known_size, present }
    }

    pub closed spec fn options(&self) -> AggregationOptions {
        self.options
    }

    /// The lookup for a path's current size.
    pub closed spec fn size_lookup(&self) -> S {
        *self.size
    }

    /// The lookup for the last size of a path that vanished.
    pub closed spec fn prior_lookup(&self) -> P {
        *self.prior_size
    }

    /// The lookup for the last size of a path that is still there.
    pub closed spec fn known_lookup(&self) -> K {
        *self.known_size
    }

    /// The lookup for whether an unmeasured path is still there.
    pub closed spec fn presence_lookup(&self) -> E {
        *self.present
    }

    /// Whether `l` is what this attributor's lookups answered about `change`.
    pub open spec fn answered(&self, change: Change, l: Lookups) -> bool {
        asked_about(self.options(), self.size_lookup(), self.prior_lookup(), self.known_lookup(), self.presence_lookup(), change, l)
    }

    /// Whether every lookup may be asked about any path.
    pub closed spec fn callable(&self) -> bool {
        &&& forall|p: &str| #[trigger] call_requires(*self.size, (p,))
        &&& forall|p: &str| #[trigger] call_requires(*self.prior_size, (p,))
        &&& forall|p: &str| #[trigger] call_requires(*self.known_size, (p,))
        &&& forall|p: &str| #[trigger] call_requires(*self.present, (p,))
    }

    /// The rows a batch of changes becomes. An arrival measures the whole
    /// file; a modification of the same path in the same batch is the write
    /// that made it and adds nothing. Whatever the lookups answer, the rows
    /// are what [`attribute`] makes of those answers.
    pub fn process(&self, changes: &[Change]) -> (events: Vec<ActivityEvent>)
        requires
            self.callable(),
        ensures
            exists|ls: Seq<Lookups>| ls.len() == kept(changes@).len()
                && (forall|k: int| 0 <= k < ls.len() ==> self.answered(kept(changes@)[k], #[trigger] ls[k]))
                && #[trigger] is_attribution(self.options(), changes@, ls, events@),
    {
        let mut lookups: Vec<Lookups> = Vec::new();
        let mut i: usize = 0;
        proof {
            kept_prefix_len(changes@, changes@.len() as int);
        }
        while i < changes.len()
            invariant
                i <= changes@.len(),
                self.callable(),
                lookups@.len() == kept_prefix(changes@, i as int).len(),
                forall|k: int| 0 <= k < lookups@.len() ==> self.answered(kept_prefix(changes@, i as int)[k], #[trigger] lookups@[k]),
            decreases changes@.len() - i,
        {
            proof {
                kept_prefix_extends(changes@, i as int);
            }
            if is_kept(changes, i) {
                let change = &changes[i];
                let path = change.path.as_str();
                let l = match &change.kind {
                    ChangeKind::Created | ChangeKind::Modified => {
                        let known = (self.known_size)(path);
                        let size = (self.size)(path);
                        let present = if size.is_none() { (self.present)(path) } else { false };
                        Lookups { known, size, present, prior: None, previous_prior: None }
                    },
                    ChangeKind::Deleted => {
                        let prior = (self.prior_size)(path);
                        Lookups { known: None, size: None, present: false, prior, previous_prior: None }
                    },
                    ChangeKind::Renamed { previous_path } => {
                        let previous_prior = match previous_path {
                            Some(p) => (self.prior_size)(p.as_str()),
                            None => None,
                        };
                        let known = (self.known_size)(path);
                        let size = (self.size)(path);
                        let watched = match size {
                            Some(s) => self.options.watches_file(Some(s)),
                            None => false,
                        };
                        let prior = if watched { None } else { (self.prior_size)(path) };
                        Lookups { known, size, present: false, prior, previous_prior }
                    },
                };
                proof {
                    assert(self.answered(*change, l));
                }
                let ghost before = lookups@;
                lookups.push(l);
                proof {
                    let kp = kept_prefix(changes@, i + 1);
                    assert(kp == kept_prefix(changes@, i as int).push(changes@[i as int]));
                    assert forall|k: int| 0 <= k < lookups@.len() implies self.answered(kp[k], #[trigger] lookups@[k]) by {
                        if k < before.len() {
                            assert(lookups@[k] == before[k]);
                            assert(kp[k] == kept_prefix(changes@, i as int)[k]);
                        }
                    }
                }
            } else {
                proof {
                    assert(kept_prefix(changes@, i + 1) == kept_prefix(changes@, i as int));
                }
            }
            i = i + 1;
        }
        proof {
            assert(kept(changes@) == kept_prefix(changes@, changes@.len() as int));
        }
        let events = attribute(self.options, changes, lookups.as_slice());
        proof {
            let ls = lookups@;
            assert(ls.len() == kept(changes@).len());
            assert(forall|k: int| 0 <= k < ls.len() ==> self.answered(kept(changes@)[k], #[trigger] ls[k]));
            assert(is_attribution(self.options(), changes@, ls, events@));
        }
        events
    }
}

/// The three size lookups attribution needs, implemented by the host, and the
/// one question a path that could not be measured leaves: is it still there.
///
/// A host owns its own size index because that is storage policy, not
/// attribution. What the host must not own is the arithmetic, which is the
/// same on every platform.
pub trait SizeLookup {
    /// Whether the host, asked for the current size of `path`, may answer
    /// `answer`. A host that says nothing more allows any answer.
    open spec fn measures(&self, path: Seq<char>, answer: Option<i64>) -> bool {
        true
    }

    /// Whether the host, asked for the last size of `path` that vanished,
    /// may answer `answer`.
    open spec fn recalls_gone(&self, path: Seq<char>, answer: Option<i64>) -> bool {
        true
    }

    /// Whether the host, asked for the last size of `path` that is still
    /// there, may answer `answer`.
    open spec fn recalls(&self, path: Seq<char>, answer: Option<i64>) -> bool {
        true
    }

    /// Whether the host, asked whether `path` is still there, may answer
    /// `answer`.
    open spec fn finds(&self, path: Seq<char>, answer: bool) -> bool {
        true
    }

    /// Current allocated size. Implementations record it for later lookups.
    fn size(&self, path: String) -> (r: Option<i64>)
        ensures
            self.measures(path@, r),
    ;

    /// Last known size of a path that just vanished; consumed on use.
    fn prior_size(&self, path: String) -> (r: Option<i64>)
        ensures
            self.recalls_gone(path@, r),
    ;

    /// Last known size of a path that still exists, read before `size` so a
    /// modification reports growth instead of the whole file again.
    fn known_size(&self, path: String) -> (r: Option<i64>)
        ensures
            self.recalls(path@, r),
    ;

    /// Whether a path that could not be measured still exists.
    fn is_present(&self, path: String) -> (r: bool)
        ensures
            self.finds(path@, r),
    ;
}

/// Whether `l` is what `host` answered when asked about `change` the way
/// attribution asks (see [`asked_about`]).
pub open spec fn host_asked_about<L: SizeLookup>(options: AggregationOptions, host: L, change: Change, l: Lookups) -> bool {
    let path = change.path@;
    match change.kind {
        ChangeKind::Created | ChangeKind::Modified => {
            &&& host.recalls(path, l.known)
            &&& host.measures(path, l.size)
            &&& (l.size is None ==> host.finds(path, l.present))
            &&& (l.size is Some ==> !l.present)
            &&& l.prior is None
            &&& l.previous_prior is None
        },
        ChangeKind::Deleted => {
            &&& host.recalls_gone(path, l.prior)
            &&& l.known is None
            &&& l.size is None
            &&& !l.present
            &&& l.previous_prior is None
        },
        ChangeKind::Renamed { previous_path } => {
            &&& (match previous_path {
                Some(q) => host.recalls_gone(q@, l.previous_prior),
                None => l.previous_prior is None,
            })
            &&& host.recalls(path, l.known)
            &&& host.measures(path, l.size)
            &&& !l.present
            &&& (if l.size is Some && in_bounds(l.size, options.min_file_bytes, options.max_file_bytes) {
                l.prior is None
            } else {
                host.recalls_gone(path, l.prior)
            })
        },
    }
}

/// [`Attributor`] for a host: the same logic, measured through the host's
/// lookups.
pub struct ActivityAttributor<L> {
    options: AggregationOptions,
    sizes: L,
}

impl<L: SizeLookup> ActivityAttributor<L> {
    pub fn new(options: AggregationOptions, sizes: L) -> (a: Self)
        ensures
            a.options() == options,
            a.host() == sizes,
    {
        ActivityAttributor { options, sizes }
    }

    pub closed spec fn options(&self) -> AggregationOptions {
        self.options
    }

    /// The host's lookups.
    pub closed spec fn host(&self) -> L {
        self.sizes
    }

    /// The rows a batch of changes becomes: for each change kept, the host is
    /// asked about that change's paths the way [`asked_about`] says, and the
    /// rows are what [`attribute`] makes of its answers.
    pub fn process(&self, changes: Vec<Change>) -> (events: Vec<ActivityEvent>)
        ensures
            exists|ls: Seq<Lookups>| ls.len() == kept(changes@).len()
                && (forall|k: int| 0 <= k < ls.len() ==> host_asked_about(self.options(), self.host(), kept(changes@)[k], #[trigger] ls[k]))
                && #[trigger] is_attribution(self.options(), changes@, ls, events@),
    {
        let changes = changes.as_slice();
        let mut lookups: Vec<Lookups> = Vec::new();
        let mut i: usize = 0;
        proof {
            kept_prefix_len(changes@, changes@.len() as int);
        }
        while i < changes.len()
            invariant
                i <= changes@.len(),
                lookups@.len() == kept_prefix(changes@, i as int).len(),
                forall|k: int| 0 <= k < lookups@.len() ==> host_asked_about(self.options(), self.host(), kept_prefix(changes@, i as int)[k], #[trigger] lookups@[k]),
            decreases changes@.len() - i,
        {
            proof {
                kept_prefix_extends(changes@, i as int);
            }
            if is_kept(changes, i) {
                let change = &changes[i];
                let l = match &change.kind {
                    ChangeKind::Created | ChangeKind::Modified => {
                        let known = self.sizes.known_size(change.path.clone());
                        let size = self.sizes.size(change.path.clone());
                        let present = if size.is_none() { self.sizes.is_present(change.path.clone()) } else { false };
                        Lookups { known, size, present, prior: None, previous_prior: None }
                    },
                    ChangeKind::Deleted => {
                        let prior = self.sizes.prior_size(change.path.clone());
                        Lookups { known: None, size: None, present: false, prior, previous_prior: None }
                    },
                    ChangeKind::Renamed { previous_path } => {
                        let previous_prior = match previous_path {
                            Some(p) => self.sizes.prior_size(p.clone()),
                            None => None,
                        };
                        let known = self.sizes.known_size(change.path.clone());
                        let size = self.sizes.size(change.path.clone());
                        let watched = match size {
                            Some(s) => self.options.watches_file(Some(s)),
                            None => false,
                        };
                        let prior = if watched { None } else { self.sizes.prior_size(change.path.clone()) };
                        Lookups { known, size, present: false, prior, previous_prior }
                    },
                };
                proof {
                    assert(host_asked_about(self.options(), self.host(), *change, l));
                }
                let ghost before = lookups@;
                lookups.push(l);
                proof {
                    let kp = kept_prefix(changes@, i + 1);
                    assert(kp == kept_prefix(changes@, i as int).push(changes@[i as int]));
                    assert forall|k: int| 0 <= k < lookups@.len() implies host_asked_about(self.options(), self.host(), kp[k], #[trigger] lookups@[k]) by {
                        if k < before.len() {
                            assert(lookups@[k] == before[k]);
                            assert(kp[k] == kept_prefix(changes@, i as int)[k]);
                        }
                    }
                }
            } else {
                proof {
                    assert(kept_prefix(changes@, i + 1) == kept_prefix(changes@, i as int));
                }
            }
            i = i + 1;
        }
        proof {
            assert(kept(changes@) == kept_prefix(changes@, changes@.len() as int));
        }
        let events = attribute(self.options, changes, lookups.as_slice());
        proof {
            let ls = lookups@;
            assert(forall|k: int| 0 <= k < ls.len() ==> host_asked_about(self.options(), self.host(), kept(changes@)[k], #[trigger] ls[k]));
            assert(is_attribution(self.options(), changes@, ls, events@));
        }
        events
    }
}

} // verus!
