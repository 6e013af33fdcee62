//! Native-name observations and comparisons of directory state.
//!
//! A traversal observes an interval. Neither successful enumeration nor a
//! comparison of two traversals proves a coherent instant or replays history.
//! Walking the tree is the host's part; this module holds what a walk found
//! and what two walks say about each other.

use vstd::prelude::*;

use crate::chars::chars_of;
use crate::event::Timestamp;
use crate::measurement::{
    copy_identity, id_less, id_less_is_an_order, id_of, same_measurement, FileKind, FileMeasurement, IdView,
    ObjectIdentity,
};
use crate::order::{is_text_less, text_less, text_less_irreflexive, text_less_total, text_less_transitive};
use crate::paths::{inside, is_inside};

verus! {

#[derive(Clone, Copy, Debug, PartialEq, Eq, Structural)]
pub enum ScanConsistency {
    ObservedInterval,
}

/// What went wrong reading one path.
#[derive(Clone, Copy, Debug, PartialEq, Eq, Structural)]
pub enum ScanErrorKind {
    NotFound,
    PermissionDenied,
    InvalidData,
    InvalidInput,
    Other,
}

#[derive(Clone, Debug)]
pub struct ScanError {
    pub path: String,
    pub kind: ScanErrorKind,
    pub message: String,
}

#[derive(Clone, Debug)]
pub struct ScanSnapshot {
    pub root: String,
    pub started_at: Timestamp,
    pub finished_at: Timestamp,
    pub consistency: ScanConsistency,
    /// Sorted by path, one entry per name observed. A list rather than a map:
    /// a whole-disk baseline is millions of these and stays resident for the
    /// life of the watch. Reads go through [`ScanSnapshot::get`], which is a
    /// binary search.
    pub entries: Vec<(String, FileMeasurement)>,
    pub errors: Vec<ScanError>,
}

#[derive(Clone, Copy, Debug, PartialEq, Eq, Structural)]
pub struct SnapshotTotals {
    /// Sum over observed unique objects, never exclusive/reclaimable space.
    pub logical_bytes: Option<u64>,
    pub allocated_bytes: Option<u64>,
    pub measured_paths: u64,
    pub measured_objects: Option<u64>,
    pub partial: bool,
}

/// `s` with the separator and NUL exchanged, so that plain text order on the
/// result is the order of paths by component: a separator sorts before every
/// character a name can hold.
pub open spec fn sep_first(s: Seq<char>) -> Seq<char> {
    s.map_values(|c: char| if c == '/' { '\0' } else if c == '\0' { '/' } else { c })
}

/// Whether path `a` sorts before path `b`, component by component.
pub open spec fn path_less(a: Seq<char>, b: Seq<char>) -> bool {
    text_less(sep_first(a), sep_first(b))
}

proof fn sep_first_injective(a: Seq<char>, b: Seq<char>)
    requires
        sep_first(a) == sep_first(b),
    ensures
        a == b,
{
    assert(sep_first(sep_first(a)) =~= a);
    assert(sep_first(sep_first(b)) =~= b);
}

/// Paths sort strictly, totally and transitively.
pub proof fn path_less_is_an_order(a: Seq<char>, b: Seq<char>, c: Seq<char>)
    ensures
        !path_less(a, a),
        a == b || path_less(a, b) || path_less(b, a),
        path_less(a, b) && path_less(b, c) ==> path_less(a, c),
        path_less(a, b) ==> !path_less(b, a),
{
    text_less_irreflexive(sep_first(a));
    text_less_total(sep_first(a), sep_first(b));
    if sep_first(a) == sep_first(b) {
        sep_first_injective(a, b);
    }
    if path_less(a, b) && path_less(b, c) {
        text_less_transitive(sep_first(a), sep_first(b), sep_first(c));
    }
    if path_less(a, b) && path_less(b, a) {
        text_less_transitive(sep_first(a), sep_first(b), sep_first(a));
    }
}

fn sep_first_exec(s: &str) -> (out: Vec<char>)
    ensures
        out@ == sep_first(s@),
{
    let chars = chars_of(s);
    let mut out: Vec<char> = Vec::new();
    let mut i: usize = 0;
    while i < chars.len()
        invariant
            i <= chars@.len(),
            chars@ == s@,
            out@ == sep_first(chars@.take(i as int)),
        decreases chars@.len() - i,
    {
        let c = chars[i];
        out.push(if c == '/' { '\0' } else if c == '\0' { '/' } else { c });
        proof {
            assert(sep_first(chars@.take(i + 1)) =~= sep_first(chars@.take(i as int)).push(
                if c == '/' { '\0' } else if c == '\0' { '/' } else { c }));
        }
        i = i + 1;
    }
    proof {
        assert(chars@.take(chars@.len() as int) =~= chars@);
    }
    out
}

/// Exec form of [`path_less`].
pub fn is_path_less(a: &str, b: &str) -> (r: bool)
    ensures
        r == path_less(a@, b@),
{
    let x = sep_first_exec(a);
    let y = sep_first_exec(b);
    is_text_less(x.as_slice(), y.as_slice())
}

/// Whether the entries are sorted by path, one entry per path.
pub open spec fn sorted_entries(entries: Seq<(String, FileMeasurement)>) -> bool {
    forall|i: int, j: int| 0 <= i < j < entries.len() ==> path_less((#[trigger] entries[i]).0@, (#[trigger] entries[j]).0@)
}

/// Whether some entry is recorded under `path`.
pub open spec fn has_path(entries: Seq<(String, FileMeasurement)>, path: Seq<char>) -> bool {
    exists|i: int| 0 <= i < entries.len() && (#[trigger] entries[i]).0@ == path
}

/// The measurement recorded under `path`, if any.
pub open spec fn find(entries: Seq<(String, FileMeasurement)>, path: Seq<char>) -> Option<FileMeasurement> {
    if has_path(entries, path) {
        Some(entries[choose|i: int| 0 <= i < entries.len() && (#[trigger] entries[i]).0@ == path].1)
    } else {
        None
    }
}

/// In sorted entries, the entry at `k` is the one `find` gives for its path.
proof fn find_at(entries: Seq<(String, FileMeasurement)>, k: int)
    requires
        sorted_entries(entries),
        0 <= k < entries.len(),
    ensures
        find(entries, entries[k].0@) == Some(entries[k].1),
{
    let path = entries[k].0@;
    assert(0 <= k < entries.len() && entries[k].0@ == path);
    assert(has_path(entries, path));
    let c = choose|i: int| 0 <= i < entries.len() && (#[trigger] entries[i]).0@ == path;
    assert(0 <= c < entries.len() && entries[c].0@ == path);
    path_less_is_an_order(path, path, path);
    if c < k {
        assert(path_less(entries[c].0@, entries[k].0@));
    } else if k < c {
        assert(path_less(entries[k].0@, entries[c].0@));
    }
    assert(c == k);
}

impl ScanSnapshot {
    /// Whether the entries are sorted by path, one per path, as a walk
    /// leaves them.
    pub open spec fn wf(&self) -> bool {
        sorted_entries(self.entries@)
    }

    /// All attempted reads succeeded. Does not imply an atomic observation.
    pub fn is_complete(&self) -> (r: bool)
        ensures
            r == (self.errors@.len() == 0),
    {
        self.errors.len() == 0
    }

    /// Where `path` is in the entries, by binary search.
    fn at(&self, path: &str) -> (r: Option<usize>)
        requires
            self.wf(),
        ensures
            match r {
                Some(k) => k < self.entries@.len() && self.entries@[k as int].0@ == path@,
                None => !has_path(self.entries@, path@),
            },
    {
        let wanted = path.to_string();
        let mut lo: usize = 0;
        let mut hi: usize = self.entries.len();
        while lo < hi
            invariant
                lo <= hi <= self.entries@.len(),
                wanted@ == path@,
                self.wf(),
                forall|i: int| 0 <= i < lo ==> path_less((#[trigger] self.entries@[i]).0@, path@),
                forall|i: int| hi <= i < self.entries@.len() ==> path_less(path@, (#[trigger] self.entries@[i]).0@),
            decreases hi - lo,
        {
            let mid = lo + (hi - lo) / 2;
            let here = &self.entries[mid].0;
            if *here == wanted {
                return Some(mid);
            }
            if is_path_less(here.as_str(), path) {
                proof {
                    assert forall|i: int| 0 <= i < mid + 1 implies path_less((#[trigger] self.entries@[i]).0@, path@) by {
                        if i < mid {
                            assert(path_less(self.entries@[i].0@, self.entries@[mid as int].0@));
                            path_less_is_an_order(self.entries@[i].0@, self.entries@[mid as int].0@, path@);
                        }
                    }
                }
                lo = mid + 1;
            } else {
                proof {
                    path_less_is_an_order(path@, here@, path@);
                    assert forall|i: int| mid <= i < self.entries@.len() implies path_less(path@, (#[trigger] self.entries@[i]).0@) by {
                        if i > mid {
                            assert(path_less(self.entries@[mid as int].0@, self.entries@[i].0@));
                            path_less_is_an_order(path@, self.entries@[mid as int].0@, self.entries@[i].0@);
                        }
                    }
                }
                hi = mid;
            }
        }
        proof {
            assert forall|i: int| 0 <= i < self.entries@.len() implies (#[trigger] self.entries@[i]).0@ != path@ by {
                path_less_is_an_order(path@, path@, path@);
            }
        }
        None
    }

    /// The measurement recorded for `path`.
    pub fn get(&self, path: &str) -> (m: Option<&FileMeasurement>)
        requires
            self.wf(),
        ensures
            match m {
                Some(m) => find(self.entries@, path@) == Some(*m),
                None => find(self.entries@, path@) is None,
            },
    {
        match self.at(path) {
            Some(k) => {
                proof {
                    find_at(self.entries@, k as int);
                }
                Some(&self.entries[k].1)
            },
            None => None,
        }
    }

    /// The measurement recorded for `path`, to be changed in place.
    pub fn get_mut(&mut self, path: &str) -> (m: Option<&mut FileMeasurement>)
        requires
            old(self).wf(),
        ensures
            match m {
                Some(m) => find(old(self).entries@, path@) == Some(*m)
                    && exists|k: int| 0 <= k < old(self).entries@.len() && old(self).entries@[k].0@ == path@
                        && final(self).entries@ == old(self).entries@.update(k, (old(self).entries@[k].0, *final(m))),
                None => find(old(self).entries@, path@) is None && *final(self) == *old(self),
            },
            final(self).root == old(self).root,
            final(self).errors == old(self).errors,
    {
        match self.at(path) {
            Some(k) => {
                proof {
                    find_at(self.entries@, k as int);
                }
                Some(&mut self.entries[k].1)
            },
            None => None,
        }
    }

    /// Every name observed and its measurement, by path.
    pub fn iter(&self) -> (entries: &[(String, FileMeasurement)])
        ensures
            entries@ == self.entries@,
    {
        self.entries.as_slice()
    }
}

/// The last measurement before position `n` that carries identity `id`.
pub open spec fn last_with(entries: Seq<(String, FileMeasurement)>, n: int, id: IdView) -> Option<FileMeasurement>
    decreases n,
{
    if n <= 0 {
        None
    } else if id_of(entries[n - 1].1) == Some(id) {
        Some(entries[n - 1].1)
    } else {
        last_with(entries, n - 1, id)
    }
}

pub open spec fn checked_sum(total: Option<u64>, more: Option<u64>) -> Option<u64> {
    match (total, more) {
        (Some(t), Some(m)) => if t + m > u64::MAX { None } else { Some((t + m) as u64) },
        _ => None,
    }
}

/// The running totals over the first `n` entries: logical and allocated
/// bytes over unique objects, whether every entry had an identity, how many
/// objects were seen, and whether some object was measured two ways.
pub open spec fn totals_upto(entries: Seq<(String, FileMeasurement)>, n: int) -> (Option<u64>, Option<u64>, bool, int, bool)
    decreases n,
{
    if n <= 0 {
        (Some(0), Some(0), true, 0, false)
    } else {
        let (logical, allocated, identified, objects, inconsistent) = totals_upto(entries, n - 1);
        let m = entries[n - 1].1;
        match id_of(m) {
            None => (None, None, false, objects, true),
            Some(id) => match last_with(entries, n - 1, id) {
                // The same object changed during traversal. An arbitrary alias
                // must not determine its size just because it sorted first.
                Some(previous) => (
                    if previous.logical_bytes != m.logical_bytes { None } else { logical },
                    if previous.allocated_bytes != m.allocated_bytes { None } else { allocated },
                    identified,
                    objects,
                    inconsistent || previous.logical_bytes != m.logical_bytes
                        || previous.allocated_bytes != m.allocated_bytes,
                ),
                None => (
                    checked_sum(logical, Some(m.logical_bytes)),
                    checked_sum(allocated, m.allocated_bytes),
                    identified,
                    objects + 1,
                    inconsistent,
                ),
            },
        }
    }
}

/// What the totals of a snapshot are.
pub open spec fn totals_of(s: ScanSnapshot) -> SnapshotTotals {
    let (logical, allocated, identified, objects, inconsistent) = totals_upto(s.entries@, s.entries@.len() as int);
    SnapshotTotals {
        logical_bytes: logical,
        allocated_bytes: allocated,
        measured_paths: s.entries@.len() as u64,
        measured_objects: if identified { Some(objects as u64) } else { None },
        partial: s.errors@.len() > 0 || inconsistent,
    }
}

/// The identities the first `n` entries carry.
pub open spec fn ids_upto(entries: Seq<(String, FileMeasurement)>, n: int) -> Set<IdView> {
    Set::new(|id: IdView| exists|i: int| 0 <= i < n && i < entries.len() && id_of(entries[i].1) == Some(id))
}

proof fn last_with_finds(entries: Seq<(String, FileMeasurement)>, n: int, id: IdView)
    requires
        0 <= n <= entries.len(),
    ensures
        last_with(entries, n, id) is Some <==> ids_upto(entries, n).contains(id),
    decreases n,
{
    if n > 0 {
        last_with_finds(entries, n - 1, id);
        if ids_upto(entries, n).contains(id) && id_of(entries[n - 1].1) != Some(id) {
            let i = choose|i: int| 0 <= i < n && i < entries.len() && id_of(entries[i].1) == Some(id);
            assert(i < n - 1);
            assert(ids_upto(entries, n - 1).contains(id));
        }
    }
}

/// When every entry carries an identity, the objects a snapshot counts are
/// its distinct identities: an object met under several names is counted
/// once.
pub proof fn objects_are_distinct_identities(entries: Seq<(String, FileMeasurement)>, n: int)
    requires
        0 <= n <= entries.len(),
        totals_upto(entries, n).2,
    ensures
        ids_upto(entries, n).finite(),
        totals_upto(entries, n).3 == ids_upto(entries, n).len(),
    decreases n,
{
    if n == 0 {
        assert(ids_upto(entries, 0) =~= Set::<IdView>::empty());
    } else {
        let m = entries[n - 1].1;
        let before = totals_upto(entries, n - 1);
        if id_of(m) is None {
            assert(!totals_upto(entries, n).2);
        } else {
            assert(before.2);
            objects_are_distinct_identities(entries, n - 1);
            let id = id_of(m)->0;
            last_with_finds(entries, n - 1, id);
            let prev = ids_upto(entries, n - 1);
            assert(ids_upto(entries, n) =~= prev.insert(id)) by {
                assert forall|x: IdView| #[trigger] prev.insert(id).contains(x) implies ids_upto(entries, n).contains(x) by {
                    if x == id {
                        assert(id_of(entries[n - 1].1) == Some(x));
                    } else {
                        let i = choose|i: int| 0 <= i < n - 1 && i < entries.len() && id_of(entries[i].1) == Some(x);
                        assert(0 <= i < n);
                    }
                }
                assert forall|x: IdView| #[trigger] ids_upto(entries, n).contains(x) implies prev.insert(id).contains(x) by {
                    let i = choose|i: int| 0 <= i < n && i < entries.len() && id_of(entries[i].1) == Some(x);
                    if i < n - 1 {
                        assert(prev.contains(x));
                    }
                }
            }
        }
    }
}

proof fn objects_bounded(entries: Seq<(String, FileMeasurement)>, n: int)
    requires
        0 <= n <= entries.len(),
    ensures
        0 <= totals_upto(entries, n).3 <= n,
    decreases n,
{
    if n > 0 {
        objects_bounded(entries, n - 1);
    }
}

impl ScanSnapshot {
    /// The last measurement before position `n` with the identity of entry `n`.
    fn last_alias(&self, n: usize) -> (r: Option<usize>)
        requires
            n < self.entries@.len(),
            self.entries@[n as int].1.identity is Some,
        ensures
            match r {
                Some(j) => j < n && last_with(self.entries@, n as int, id_of(self.entries@[n as int].1)->0)
                    == Some(self.entries@[j as int].1),
                None => last_with(self.entries@, n as int, id_of(self.entries@[n as int].1)->0) is None,
            },
    {
        let ghost id = id_of(self.entries@[n as int].1)->0;
        let m = &self.entries[n].1;
        assert(id_of(self.entries@[n as int].1) == Some(id));
        let mut j: usize = n;
        while j > 0
            invariant
                j <= n < self.entries@.len(),
                m == &self.entries@[n as int].1,
                id == id_of(self.entries@[n as int].1)->0,
                id_of(self.entries@[n as int].1) == Some(id),
                last_with(self.entries@, n as int, id) == last_with(self.entries@, j as int, id),
            decreases j,
        {
            if self.entries[j - 1].1.identity_matches(m) {
                return Some(j - 1);
            }
            j = j - 1;
        }
        None
    }

    pub fn totals(&self) -> (t: SnapshotTotals)
        ensures
            t == totals_of(*self),
    {
        let mut logical: Option<u64> = Some(0);
        let mut allocated: Option<u64> = Some(0);
        let mut identified = true;
        let mut objects: u64 = 0;
        let mut inconsistent = false;
        let mut n: usize = 0;
        while n < self.entries.len()
            invariant
                n <= self.entries@.len(),
                (logical, allocated, identified, objects as int, inconsistent) == totals_upto(self.entries@, n as int),
            decreases self.entries@.len() - n,
        {
            proof {
                objects_bounded(self.entries@, n as int);
            }
            let m = &self.entries[n].1;
            match &m.identity {
                None => {
                    logical = None;
                    allocated = None;
                    identified = false;
                    inconsistent = true;
                },
                Some(_) => match self.last_alias(n) {
                    Some(j) => {
                        let previous = &self.entries[j].1;
                        let logical_differs = previous.logical_bytes != m.logical_bytes;
                        let allocated_differs = previous.allocated_bytes != m.allocated_bytes;
                        if logical_differs {
                            logical = None;
                        }
                        if allocated_differs {
                            allocated = None;
                        }
                        inconsistent = inconsistent || logical_differs || allocated_differs;
                    },
                    None => {
                        logical = match logical {
                            Some(t) => t.checked_add(m.logical_bytes),
                            None => None,
                        };
                        allocated = match (allocated, m.allocated_bytes) {
                            (Some(t), Some(a)) => t.checked_add(a),
                            _ => None,
                        };
                        objects = objects + 1;
                    },
                },
            }
            n = n + 1;
        }
        SnapshotTotals {
            logical_bytes: logical,
            allocated_bytes: allocated,
            measured_paths: self.entries.len() as u64,
            measured_objects: if identified { Some(objects) } else { None },
            partial: self.errors.len() > 0 || inconsistent,
        }
    }
}

#[derive(Clone, Copy, Debug, PartialEq, Eq, Structural)]
pub enum BindingChangeKind {
    Created,
    Removed,
    Replaced,
    Renamed,
    HardLinkAdded,
    HardLinkRemoved,
    /// The same name, a different size. Not a binding change at all, but the
    /// one difference a gap most often hides: a file that kept growing.
    Modified,
}

/// Whether native object IDs can be compared across two observations. A
/// gap, remount, journal reset, or unknown source lifecycle must use
/// `Unknown`: inode and file-reference values can be reused.
#[derive(Clone, Copy, Debug, PartialEq, Eq, Structural)]
pub enum IdentityContinuity {
    ObservedWithoutGap,
    Unknown,
}

#[derive(Clone, Debug)]
pub struct BindingChange {
    /// Endpoint correspondence, not proof that this operation occurred.
    pub kind: BindingChangeKind,
    pub path: String,
    pub previous_path: Option<String>,
    pub identity: Option<ObjectIdentity>,
    pub previous_identity: Option<ObjectIdentity>,
}

#[derive(Clone, Debug)]
pub struct Reconciliation {
    pub logical_delta: Option<i128>,
    pub allocated_delta: Option<i128>,
    pub bindings: Vec<BindingChange>,
    pub historical_complete: bool,
}

pub type Entry = (String, FileMeasurement);

/// What a binding row says: its kind, its path, the path before, and the
/// identities after and before.
pub type RowView = (BindingChangeKind, Seq<char>, Option<Seq<char>>, Option<IdView>, Option<IdView>);

pub open spec fn opt_id(id: Option<ObjectIdentity>) -> Option<IdView> {
    match id {
        Some(i) => Some(i.id()),
        None => None,
    }
}

pub open spec fn opt_text(t: Option<String>) -> Option<Seq<char>> {
    match t {
        Some(s) => Some(s@),
        None => None,
    }
}

pub open spec fn row_of(b: BindingChange) -> RowView {
    (b.kind, b.path@, opt_text(b.previous_path), opt_id(b.identity), opt_id(b.previous_identity))
}

pub open spec fn rows_of(rows: Seq<BindingChange>) -> Seq<RowView> {
    rows.map_values(|b: BindingChange| row_of(b))
}

/// Whether an error path is `path` or one of its ancestors.
pub open spec fn covered(errors: Seq<ScanError>, path: Seq<char>) -> bool {
    exists|i: int| 0 <= i < errors.len() && ((#[trigger] errors[i]).path@ == path || inside(errors[i].path@, path))
}

/// Whether `path` is under a directory one side could not read, which makes
/// its absence from that side mean nothing.
pub open spec fn unreadable(p: ScanSnapshot, c: ScanSnapshot, path: Seq<char>) -> bool {
    covered(p.errors@, path) || covered(c.errors@, path)
}

pub open spec fn observed(continuity: IdentityContinuity) -> bool {
    continuity == IdentityContinuity::ObservedWithoutGap
}

#[verifier::opaque]
pub open spec fn is_removed(p: ScanSnapshot, c: ScanSnapshot, e: Entry) -> bool {
    find(c.entries@, e.0@) is None && !unreadable(p, c, e.0@)
}

#[verifier::opaque]
pub open spec fn is_added(p: ScanSnapshot, c: ScanSnapshot, e: Entry) -> bool {
    find(p.entries@, e.0@) is None && !unreadable(p, c, e.0@)
}

/// A different object under the same name, when identities can be trusted.
pub open spec fn replaced(continuity: IdentityContinuity, old: FileMeasurement, new: FileMeasurement) -> bool {
    observed(continuity) && id_of(old) is Some && id_of(new) is Some && id_of(old) != id_of(new)
}

/// A name on both sides whose allocation changed, not replaced and not under
/// an unreadable directory: sizes on both sides, or nothing to say.
pub open spec fn is_modified(p: ScanSnapshot, c: ScanSnapshot, continuity: IdentityContinuity, e: Entry) -> bool {
    find(p.entries@, e.0@) is Some && {
        let old = find(p.entries@, e.0@)->0;
        old.allocated_bytes is Some && e.1.allocated_bytes is Some && old.allocated_bytes != e.1.allocated_bytes
            && !replaced(continuity, old, e.1) && !unreadable(p, c, e.0@)
    }
}

pub open spec fn modified_row(p: ScanSnapshot, e: Entry) -> RowView {
    (BindingChangeKind::Modified, e.0@, Some(e.0@), id_of(e.1), id_of(find(p.entries@, e.0@)->0))
}

pub open spec fn modified_pred(p: ScanSnapshot, c: ScanSnapshot, continuity: IdentityContinuity) -> spec_fn(Entry) -> bool {
    |e: Entry| is_modified(p, c, continuity, e)
}

pub open spec fn modified_map(p: ScanSnapshot) -> spec_fn(Entry) -> RowView {
    |e: Entry| modified_row(p, e)
}

pub open spec fn modified_rows(p: ScanSnapshot, c: ScanSnapshot, continuity: IdentityContinuity) -> Seq<RowView> {
    c.entries@.filter(modified_pred(p, c, continuity)).map_values(modified_map(p))
}

pub open spec fn has_id(e: Entry, id: IdView) -> bool {
    id_of(e.1) == Some(id)
}

pub open spec fn is_lost(p: ScanSnapshot, c: ScanSnapshot, id: IdView, e: Entry) -> bool {
    is_removed(p, c, e) && has_id(e, id)
}

pub open spec fn is_gained(p: ScanSnapshot, c: ScanSnapshot, id: IdView, e: Entry) -> bool {
    is_added(p, c, e) && has_id(e, id)
}

pub open spec fn lost_pred(p: ScanSnapshot, c: ScanSnapshot, id: IdView) -> spec_fn(Entry) -> bool {
    |e: Entry| is_lost(p, c, id, e)
}

pub open spec fn gained_pred(p: ScanSnapshot, c: ScanSnapshot, id: IdView) -> spec_fn(Entry) -> bool {
    |e: Entry| is_gained(p, c, id, e)
}

/// The names an object lost between the walks.
pub open spec fn lost(p: ScanSnapshot, c: ScanSnapshot, id: IdView) -> Seq<Entry> {
    p.entries@.filter(lost_pred(p, c, id))
}

/// The names an object gained between the walks.
pub open spec fn gained(p: ScanSnapshot, c: ScanSnapshot, id: IdView) -> Seq<Entry> {
    c.entries@.filter(gained_pred(p, c, id))
}

/// One lost and one gained name with the same observed ID: a rename, which
/// can also be the result of unlink and link.
pub open spec fn pairs(p: ScanSnapshot, c: ScanSnapshot, id: IdView) -> bool {
    lost(p, c, id).len() == 1 && gained(p, c, id).len() == 1
}

pub open spec fn rename_row(p: ScanSnapshot, c: ScanSnapshot, id: IdView) -> RowView {
    (BindingChangeKind::Renamed, gained(p, c, id)[0].0@, Some(lost(p, c, id)[0].0@), Some(id), Some(id))
}

/// The rename rows: one per object that lost exactly one name and gained
/// exactly one, ordered by identity, and only when identities can be
/// compared at all.
pub open spec fn is_rename_block(p: ScanSnapshot, c: ScanSnapshot, continuity: IdentityContinuity, r: Seq<RowView>) -> bool {
    &&& !observed(continuity) ==> r.len() == 0
    &&& forall|i: int, j: int| 0 <= i < j < r.len() ==> id_less((#[trigger] r[i]).3->0, (#[trigger] r[j]).3->0)
    &&& forall|i: int| 0 <= i < r.len() ==> (#[trigger] r[i]).3 is Some && pairs(p, c, r[i].3->0)
        && r[i] == rename_row(p, c, r[i].3->0)
    &&& observed(continuity) ==> forall|id: IdView| #[trigger] pairs(p, c, id) ==> exists|i: int| 0 <= i < r.len() && (#[trigger] r[i]).3 == Some(id)
}

pub open spec fn is_paired(p: ScanSnapshot, c: ScanSnapshot, continuity: IdentityContinuity, e: Entry) -> bool {
    observed(continuity) && id_of(e.1) is Some && pairs(p, c, id_of(e.1)->0)
}

pub open spec fn holds_id(entries: Seq<Entry>, id: IdView) -> bool {
    exists|i: int| 0 <= i < entries.len() && has_id(#[trigger] entries[i], id)
}

pub open spec fn removed_row(c: ScanSnapshot, continuity: IdentityContinuity, e: Entry) -> RowView {
    (
        if observed(continuity) && id_of(e.1) is Some && holds_id(c.entries@, id_of(e.1)->0) {
            BindingChangeKind::HardLinkRemoved
        } else {
            BindingChangeKind::Removed
        },
        e.0@,
        None,
        id_of(e.1),
        id_of(e.1),
    )
}

pub open spec fn removed_pred(p: ScanSnapshot, c: ScanSnapshot, continuity: IdentityContinuity) -> spec_fn(Entry) -> bool {
    |e: Entry| is_removed(p, c, e) && !is_paired(p, c, continuity, e)
}

pub open spec fn removed_map(c: ScanSnapshot, continuity: IdentityContinuity) -> spec_fn(Entry) -> RowView {
    |e: Entry| removed_row(c, continuity, e)
}

pub open spec fn removed_rows(p: ScanSnapshot, c: ScanSnapshot, continuity: IdentityContinuity) -> Seq<RowView> {
    p.entries@.filter(removed_pred(p, c, continuity)).map_values(removed_map(c, continuity))
}

pub open spec fn added_row(p: ScanSnapshot, continuity: IdentityContinuity, e: Entry) -> RowView {
    (
        if observed(continuity) && id_of(e.1) is Some && holds_id(p.entries@, id_of(e.1)->0) {
            BindingChangeKind::HardLinkAdded
        } else {
            BindingChangeKind::Created
        },
        e.0@,
        None,
        id_of(e.1),
        None,
    )
}

pub open spec fn added_pred(p: ScanSnapshot, c: ScanSnapshot, continuity: IdentityContinuity) -> spec_fn(Entry) -> bool {
    |e: Entry| is_added(p, c, e) && !is_paired(p, c, continuity, e)
}

pub open spec fn added_map(p: ScanSnapshot, continuity: IdentityContinuity) -> spec_fn(Entry) -> RowView {
    |e: Entry| added_row(p, continuity, e)
}

pub open spec fn added_rows(p: ScanSnapshot, c: ScanSnapshot, continuity: IdentityContinuity) -> Seq<RowView> {
    c.entries@.filter(added_pred(p, c, continuity)).map_values(added_map(p, continuity))
}

pub open spec fn is_replaced(p: ScanSnapshot, continuity: IdentityContinuity, e: Entry) -> bool {
    observed(continuity) && find(p.entries@, e.0@) is Some && id_of(find(p.entries@, e.0@)->0) is Some
        && id_of(e.1) is Some && id_of(find(p.entries@, e.0@)->0) != id_of(e.1)
}

pub open spec fn replaced_pred(p: ScanSnapshot, continuity: IdentityContinuity) -> spec_fn(Entry) -> bool {
    |e: Entry| is_replaced(p, continuity, e)
}

pub open spec fn replaced_map(p: ScanSnapshot) -> spec_fn(Entry) -> RowView {
    |e: Entry| (BindingChangeKind::Replaced, e.0@, Some(e.0@), id_of(e.1), id_of(find(p.entries@, e.0@)->0))
}

pub open spec fn replaced_rows(p: ScanSnapshot, c: ScanSnapshot, continuity: IdentityContinuity) -> Seq<RowView> {
    c.entries@.filter(replaced_pred(p, continuity)).map_values(replaced_map(p))
}

pub open spec fn root_id(s: ScanSnapshot) -> Option<IdView> {
    match find(s.entries@, s.root@) {
        Some(m) => id_of(m),
        None => None,
    }
}

/// Two walks of one root whose root is still the same object.
pub open spec fn same_scope(p: ScanSnapshot, c: ScanSnapshot) -> bool {
    p.root@ == c.root@ && root_id(p) == root_id(c)
}

pub open spec fn delta_of(before: Option<u64>, after: Option<u64>) -> Option<i128> {
    match (before, after) {
        (Some(a), Some(b)) => Some((b - a) as i128),
        _ => None,
    }
}

/// What a comparison of two walks says.
pub open spec fn is_reconciliation(p: ScanSnapshot, c: ScanSnapshot, continuity: IdentityContinuity, r: Reconciliation) -> bool {
    &&& !r.historical_complete
    &&& !same_scope(p, c) ==> r.logical_delta is None && r.allocated_delta is None && r.bindings@.len() == 0
    &&& same_scope(p, c) ==> {
        // Totals only when both walks were whole: a folder one side could
        // not read makes a difference in totals a difference in what was
        // readable.
        let whole = p.errors@.len() == 0 && c.errors@.len() == 0;
        &&& r.logical_delta == (if whole { delta_of(totals_of(p).logical_bytes, totals_of(c).logical_bytes) } else { None })
        &&& r.allocated_delta == (if whole { delta_of(totals_of(p).allocated_bytes, totals_of(c).allocated_bytes) } else { None })
        &&& exists|renames: Seq<RowView>| #[trigger] is_rename_block(p, c, continuity, renames)
            && rows_of(r.bindings@) == modified_rows(p, c, continuity) + renames + removed_rows(p, c, continuity)
                + added_rows(p, c, continuity) + replaced_rows(p, c, continuity)
    }
}

/// A file whose allocation changed between the walks, in either direction,
/// is reported as modified: for every name on both sides with a known size
/// before and after that differ, still the same object (or one whose
/// identity cannot be compared) and not under a directory either walk
/// could not read, the bindings hold a `Modified` row for that name.
pub proof fn a_changed_size_is_reported(
    p: ScanSnapshot,
    c: ScanSnapshot,
    continuity: IdentityContinuity,
    r: Reconciliation,
    i: int,
)
    requires
        is_reconciliation(p, c, continuity, r),
        same_scope(p, c),
        0 <= i < c.entries@.len(),
        find(p.entries@, c.entries@[i].0@) matches Some(old) && old.allocated_bytes is Some
            && c.entries@[i].1.allocated_bytes is Some && old.allocated_bytes != c.entries@[i].1.allocated_bytes
            && (continuity == IdentityContinuity::Unknown || id_of(old) == id_of(c.entries@[i].1)),
        !covered(p.errors@, c.entries@[i].0@),
        !covered(c.errors@, c.entries@[i].0@),
    ensures
        exists|j: int| 0 <= j < r.bindings@.len() && (#[trigger] r.bindings@[j]).kind == BindingChangeKind::Modified
            && r.bindings@[j].path@ == c.entries@[i].0@
            && opt_text(r.bindings@[j].previous_path) == Some(c.entries@[i].0@),
{
    let e = c.entries@[i];
    let pred = modified_pred(p, c, continuity);
    let filt = c.entries@.filter(pred);
    assert(pred(e));
    c.entries@.filter_lemma(pred);
    assert(filt.contains(e));
    let k = choose|k: int| 0 <= k < filt.len() && filt[k] == e;
    let renames = choose|renames: Seq<RowView>| #[trigger] is_rename_block(p, c, continuity, renames)
        && rows_of(r.bindings@) == modified_rows(p, c, continuity) + renames + removed_rows(p, c, continuity)
            + added_rows(p, c, continuity) + replaced_rows(p, c, continuity);
    let m = modified_rows(p, c, continuity);
    assert(m.len() == filt.len());
    assert(m[k] == modified_row(p, e));
    let all = m + renames + removed_rows(p, c, continuity) + added_rows(p, c, continuity) + replaced_rows(p, c, continuity);
    assert(all[k] == m[k]);
    assert(rows_of(r.bindings@).len() == r.bindings@.len());
    assert(k < r.bindings@.len());
    assert(rows_of(r.bindings@)[k] == m[k]);
    assert(row_of(r.bindings@[k]) == rows_of(r.bindings@)[k]);
}

/// A name the earlier walk saw and the later one did not, under no
/// directory either could not read, is reported as removed; with nothing to
/// pair it by, as a plain removal.
pub proof fn a_vanished_name_is_reported(p: ScanSnapshot, c: ScanSnapshot, r: Reconciliation, i: int)
    requires
        is_reconciliation(p, c, IdentityContinuity::Unknown, r),
        same_scope(p, c),
        0 <= i < p.entries@.len(),
        find(c.entries@, p.entries@[i].0@) is None,
        !covered(p.errors@, p.entries@[i].0@),
        !covered(c.errors@, p.entries@[i].0@),
    ensures
        exists|j: int| 0 <= j < r.bindings@.len() && (#[trigger] r.bindings@[j]).kind == BindingChangeKind::Removed
            && r.bindings@[j].path@ == p.entries@[i].0@,
{
    let continuity = IdentityContinuity::Unknown;
    let e = p.entries@[i];
    reveal(is_removed);
    let pred = removed_pred(p, c, continuity);
    assert(pred(e));
    p.entries@.filter_lemma(pred);
    let filt = p.entries@.filter(pred);
    assert(filt.contains(e));
    let k = choose|k: int| 0 <= k < filt.len() && filt[k] == e;
    let renames = choose|renames: Seq<RowView>| #[trigger] is_rename_block(p, c, continuity, renames)
        && rows_of(r.bindings@) == modified_rows(p, c, continuity) + renames + removed_rows(p, c, continuity)
            + added_rows(p, c, continuity) + replaced_rows(p, c, continuity);
    assert(renames.len() == 0);
    let m = modified_rows(p, c, continuity);
    let rm = removed_rows(p, c, continuity);
    assert(rm.len() == filt.len());
    assert(rm[k] == removed_row(c, continuity, e));
    let all = m + renames + rm + added_rows(p, c, continuity) + replaced_rows(p, c, continuity);
    let j = m.len() + k;
    assert(all[j] == rm[k]);
    assert(rows_of(r.bindings@).len() == r.bindings@.len());
    assert(rows_of(r.bindings@)[j] == row_of(r.bindings@[j]));
}

/// A name the later walk saw and the earlier one did not, under no
/// directory either could not read, is reported as created; with nothing to
/// pair it by, as a plain creation.
pub proof fn a_new_name_is_reported(p: ScanSnapshot, c: ScanSnapshot, r: Reconciliation, i: int)
    requires
        is_reconciliation(p, c, IdentityContinuity::Unknown, r),
        same_scope(p, c),
        0 <= i < c.entries@.len(),
        find(p.entries@, c.entries@[i].0@) is None,
        !covered(p.errors@, c.entries@[i].0@),
        !covered(c.errors@, c.entries@[i].0@),
    ensures
        exists|j: int| 0 <= j < r.bindings@.len() && (#[trigger] r.bindings@[j]).kind == BindingChangeKind::Created
            && r.bindings@[j].path@ == c.entries@[i].0@,
{
    let continuity = IdentityContinuity::Unknown;
    let e = c.entries@[i];
    reveal(is_added);
    let pred = added_pred(p, c, continuity);
    assert(pred(e));
    c.entries@.filter_lemma(pred);
    let filt = c.entries@.filter(pred);
    assert(filt.contains(e));
    let k = choose|k: int| 0 <= k < filt.len() && filt[k] == e;
    let renames = choose|renames: Seq<RowView>| #[trigger] is_rename_block(p, c, continuity, renames)
        && rows_of(r.bindings@) == modified_rows(p, c, continuity) + renames + removed_rows(p, c, continuity)
            + added_rows(p, c, continuity) + replaced_rows(p, c, continuity);
    assert(renames.len() == 0);
    let m = modified_rows(p, c, continuity);
    let rm = removed_rows(p, c, continuity);
    let ad = added_rows(p, c, continuity);
    assert(ad.len() == filt.len());
    assert(ad[k] == added_row(p, continuity, e));
    let all = m + renames + rm + ad + replaced_rows(p, c, continuity);
    let j = m.len() + rm.len() + k;
    assert(all[j] == ad[k]);
    assert(rows_of(r.bindings@).len() == r.bindings@.len());
    assert(rows_of(r.bindings@)[j] == row_of(r.bindings@[j]));
}

proof fn filter_map_take<A, B>(s: Seq<A>, i: int, pred: spec_fn(A) -> bool, f: spec_fn(A) -> B)
    requires
        0 <= i < s.len(),
    ensures
        s.take(i + 1).filter(pred).map_values(f) == (if pred(s[i]) {
            s.take(i).filter(pred).map_values(f).push(f(s[i]))
        } else {
            s.take(i).filter(pred).map_values(f)
        }),
{
    assert(s.take(i + 1) =~= s.take(i).push(s[i]));
    s.take(i).lemma_filter_push(s[i], pred);
    if pred(s[i]) {
        assert(s.take(i).filter(pred).push(s[i]).map_values(f) =~= s.take(i).filter(pred).map_values(f).push(f(s[i])));
    }
}

proof fn filter_take_step<A>(s: Seq<A>, i: int, pred: spec_fn(A) -> bool)
    requires
        0 <= i < s.len(),
    ensures
        s.take(i + 1).filter(pred) == (if pred(s[i]) { s.take(i).filter(pred).push(s[i]) } else { s.take(i).filter(pred) }),
{
    assert(s.take(i + 1) =~= s.take(i).push(s[i]));
    s.take(i).lemma_filter_push(s[i], pred);
}

fn covered_exec(errors: &[ScanError], path: &str) -> (r: bool)
    ensures
        r == covered(errors@, path@),
{
    let mut i: usize = 0;
    while i < errors.len()
        invariant
            i <= errors@.len(),
            forall|j: int| 0 <= j < i ==> !((#[trigger] errors@[j]).path@ == path@ || inside(errors@[j].path@, path@)),
        decreases errors@.len() - i,
    {
        let e = &errors[i];
        if e.path.as_str().to_string() == path.to_string() || is_inside(e.path.as_str(), path) {
            return true;
        }
        i = i + 1;
    }
    false
}

fn unreadable_exec(p: &ScanSnapshot, c: &ScanSnapshot, path: &str) -> (r: bool)
    ensures
        r == unreadable(*p, *c, path@),
{
    covered_exec(p.errors.as_slice(), path) || covered_exec(c.errors.as_slice(), path)
}

/// For each entry of `p`, whether it is a removed name.
fn removed_flags(p: &ScanSnapshot, c: &ScanSnapshot) -> (flags: Vec<bool>)
    requires
        c.wf(),
    ensures
        flags@.len() == p.entries@.len(),
        forall|k: int| 0 <= k < flags@.len() ==> flags@[k] == is_removed(*p, *c, #[trigger] p.entries@[k]),
{
    let mut flags: Vec<bool> = Vec::new();
    let mut k: usize = 0;
    while k < p.entries.len()
        invariant
            k <= p.entries@.len(),
            c.wf(),
            flags@.len() == k,
            forall|j: int| 0 <= j < k ==> flags@[j] == is_removed(*p, *c, #[trigger] p.entries@[j]),
        decreases p.entries@.len() - k,
    {
        let path = p.entries[k].0.as_str();
        let gone = c.get(path).is_none() && !unreadable_exec(p, c, path);
        proof {
            reveal(is_removed);
        }
        flags.push(gone);
        k = k + 1;
    }
    flags
}

/// For each entry of `c`, whether it is an added name.
fn added_flags(p: &ScanSnapshot, c: &ScanSnapshot) -> (flags: Vec<bool>)
    requires
        p.wf(),
    ensures
        flags@.len() == c.entries@.len(),
        forall|k: int| 0 <= k < flags@.len() ==> flags@[k] == is_added(*p, *c, #[trigger] c.entries@[k]),
{
    let mut flags: Vec<bool> = Vec::new();
    let mut k: usize = 0;
    while k < c.entries.len()
        invariant
            k <= c.entries@.len(),
            p.wf(),
            flags@.len() == k,
            forall|j: int| 0 <= j < k ==> flags@[j] == is_added(*p, *c, #[trigger] c.entries@[j]),
        decreases c.entries@.len() - k,
    {
        let path = c.entries[k].0.as_str();
        let new = p.get(path).is_none() && !unreadable_exec(p, c, path);
        proof {
            reveal(is_added);
        }
        flags.push(new);
        k = k + 1;
    }
    flags
}

fn row(kind: BindingChangeKind, path: &String, previous: Option<&String>, identity: &Option<ObjectIdentity>, previous_identity: &Option<ObjectIdentity>) -> (b: BindingChange)
    ensures
        row_of(b) == (kind, path@, match previous { Some(t) => Some(t@), None => None }, opt_id(*identity), opt_id(*previous_identity)),
{
    let id = copy_identity(identity);
    let before = copy_identity(previous_identity);
    proof {
        assert(opt_id(id) == opt_id(*identity));
        assert(opt_id(before) == opt_id(*previous_identity));
    }
    BindingChange {
        kind,
        path: path.clone(),
        previous_path: match previous { Some(t) => Some(t.clone()), None => None },
        identity: id,
        previous_identity: before,
    }
}

fn modified_exec(p: &ScanSnapshot, c: &ScanSnapshot, continuity: IdentityContinuity, out: &mut Vec<BindingChange>)
    requires
        p.wf(),
    ensures
        rows_of(final(out)@) == rows_of(old(out)@) + modified_rows(*p, *c, continuity),
{
    let ghost start = rows_of(out@);
    let ghost pred = modified_pred(*p, *c, continuity);
    let ghost f = modified_map(*p);
    let mut j: usize = 0;
    while j < c.entries.len()
        invariant
            j <= c.entries@.len(),
            p.wf(),
            pred == modified_pred(*p, *c, continuity),
            f == modified_map(*p),
            rows_of(out@) == start + c.entries@.take(j as int).filter(pred).map_values(f),
        decreases c.entries@.len() - j,
    {
        proof {
            filter_map_take(c.entries@, j as int, pred, f);
        }
        let (path, m) = (&c.entries[j].0, &c.entries[j].1);
        let ghost old_rows = out@;
        match p.get(path.as_str()) {
            Some(old) => {
                let replaced = continuity == IdentityContinuity::ObservedWithoutGap && old.identity_differs(m);
                match (old.allocated_bytes, m.allocated_bytes) {
                    (Some(before), Some(after)) => {
                        if before != after && !replaced && !unreadable_exec(p, c, path.as_str()) {
                            let b = row(BindingChangeKind::Modified, path, Some(path), &m.identity, &old.identity);
                            out.push(b);
                            proof {
                                assert(rows_of(out@) =~= rows_of(old_rows).push(row_of(b)));
                            }
                        }
                    },
                    _ => {},
                }
            },
            None => {},
        }
        j = j + 1;
    }
    proof {
        assert(c.entries@.take(c.entries@.len() as int) =~= c.entries@);
    }
}

fn replaced_exec(p: &ScanSnapshot, c: &ScanSnapshot, continuity: IdentityContinuity, out: &mut Vec<BindingChange>)
    requires
        p.wf(),
    ensures
        rows_of(final(out)@) == rows_of(old(out)@) + replaced_rows(*p, *c, continuity),
{
    let ghost start = rows_of(out@);
    let ghost pred = replaced_pred(*p, continuity);
    let ghost f = replaced_map(*p);
    let mut j: usize = 0;
    while j < c.entries.len()
        invariant
            j <= c.entries@.len(),
            p.wf(),
            pred == replaced_pred(*p, continuity),
            f == replaced_map(*p),
            rows_of(out@) == start + c.entries@.take(j as int).filter(pred).map_values(f),
        decreases c.entries@.len() - j,
    {
        proof {
            filter_map_take(c.entries@, j as int, pred, f);
        }
        let (path, m) = (&c.entries[j].0, &c.entries[j].1);
        let ghost old_rows = out@;
        if continuity == IdentityContinuity::ObservedWithoutGap {
            match p.get(path.as_str()) {
                Some(old) => {
                    if old.identity_differs(m) {
                        let b = row(BindingChangeKind::Replaced, path, Some(path), &m.identity, &old.identity);
                        out.push(b);
                        proof {
                            assert(rows_of(out@) =~= rows_of(old_rows).push(row_of(b)));
                        }
                    }
                },
                None => {},
            }
        }
        j = j + 1;
    }
    proof {
        assert(c.entries@.take(c.entries@.len() as int) =~= c.entries@);
    }
}

/// Two different positions that a predicate keeps make a filter of at least
/// two.
proof fn filter_two<A>(s: Seq<A>, pred: spec_fn(A) -> bool, a: int, b: int)
    requires
        0 <= a < b < s.len(),
        pred(s[a]),
        pred(s[b]),
    ensures
        s.filter(pred).len() >= 2,
{
    let front = s.take(b);
    assert(front[a] == s[a]);
    front.lemma_filter_contains(pred, a);
    assert(front.filter(pred).len() >= 1);
    filter_take_step(s, b, pred);
    assert(s.take(b + 1).filter(pred).len() >= 2);
    assert(s =~= s.take(b + 1) + s.skip(b + 1));
    Seq::filter_distributes_over_add(s.take(b + 1), s.skip(b + 1), pred);
}

/// The one element a filter of one keeps is any element it keeps.
proof fn filter_single<A>(s: Seq<A>, pred: spec_fn(A) -> bool, k: int)
    requires
        0 <= k < s.len(),
        pred(s[k]),
        s.filter(pred).len() == 1,
    ensures
        s.filter(pred)[0] == s[k],
{
    s.lemma_filter_contains(pred, k);
}

fn has_identity(e: &FileMeasurement, id: &ObjectIdentity) -> (r: bool)
    ensures
        r == (id_of(*e) == Some(id.id())),
{
    match &e.identity {
        Some(x) => x.same(id),
        None => false,
    }
}

/// How many names `id` lost.
fn count_lost(p: &ScanSnapshot, c: &ScanSnapshot, removed: &Vec<bool>, id: &ObjectIdentity) -> (n: usize)
    requires
        removed@.len() == p.entries@.len(),
        forall|k: int| 0 <= k < removed@.len() ==> removed@[k] == is_removed(*p, *c, #[trigger] p.entries@[k]),
    ensures
        n == lost(*p, *c, id.id()).len(),
{
    let ghost pred = lost_pred(*p, *c, id.id());
    let mut n: usize = 0;
    let mut k: usize = 0;
    while k < p.entries.len()
        invariant
            k <= p.entries@.len(),
            removed@.len() == p.entries@.len(),
            forall|j: int| 0 <= j < removed@.len() ==> removed@[j] == is_removed(*p, *c, #[trigger] p.entries@[j]),
            pred == lost_pred(*p, *c, id.id()),
            n == p.entries@.take(k as int).filter(pred).len(),
            n <= k,
        decreases p.entries@.len() - k,
    {
        proof {
            filter_take_step(p.entries@, k as int, pred);
        }
        if removed[k] && has_identity(&p.entries[k].1, id) {
            n = n + 1;
        }
        k = k + 1;
    }
    proof {
        assert(p.entries@.take(p.entries@.len() as int) =~= p.entries@);
    }
    n
}

/// How many names `id` gained, and where the last of them is.
fn count_gained(p: &ScanSnapshot, c: &ScanSnapshot, added: &Vec<bool>, id: &ObjectIdentity) -> (r: (usize, usize))
    requires
        added@.len() == c.entries@.len(),
        forall|k: int| 0 <= k < added@.len() ==> added@[k] == is_added(*p, *c, #[trigger] c.entries@[k]),
    ensures
        r.0 == gained(*p, *c, id.id()).len(),
        r.0 >= 1 ==> r.1 < c.entries@.len() && is_gained(*p, *c, id.id(), c.entries@[r.1 as int]),
{
    let ghost pred = gained_pred(*p, *c, id.id());
    let mut n: usize = 0;
    let mut at: usize = 0;
    let mut k: usize = 0;
    while k < c.entries.len()
        invariant
            k <= c.entries@.len(),
            added@.len() == c.entries@.len(),
            forall|j: int| 0 <= j < added@.len() ==> added@[j] == is_added(*p, *c, #[trigger] c.entries@[j]),
            pred == gained_pred(*p, *c, id.id()),
            n == c.entries@.take(k as int).filter(pred).len(),
            n <= k,
            n >= 1 ==> at < k && is_gained(*p, *c, id.id(), c.entries@[at as int]),
        decreases c.entries@.len() - k,
    {
        proof {
            filter_take_step(c.entries@, k as int, pred);
        }
        if added[k] && has_identity(&c.entries[k].1, id) {
            n = n + 1;
            at = k;
        }
        k = k + 1;
    }
    proof {
        assert(c.entries@.take(c.entries@.len() as int) =~= c.entries@);
    }
    (n, at)
}

/// Whether some entry carries `id`.
fn holds_identity(entries: &Vec<Entry>, id: &ObjectIdentity) -> (r: bool)
    ensures
        r == holds_id(entries@, id.id()),
{
    let mut k: usize = 0;
    while k < entries.len()
        invariant
            k <= entries@.len(),
            forall|j: int| 0 <= j < k ==> !has_id(#[trigger] entries@[j], id.id()),
        decreases entries@.len() - k,
    {
        if has_identity(&entries[k].1, id) {
            return true;
        }
        k = k + 1;
    }
    false
}

/// Whether `id` lost exactly one name and gained exactly one.
fn pairs_exec(p: &ScanSnapshot, c: &ScanSnapshot, removed: &Vec<bool>, added: &Vec<bool>, id: &ObjectIdentity) -> (r: bool)
    requires
        removed@.len() == p.entries@.len(),
        forall|k: int| 0 <= k < removed@.len() ==> removed@[k] == is_removed(*p, *c, #[trigger] p.entries@[k]),
        added@.len() == c.entries@.len(),
        forall|k: int| 0 <= k < added@.len() ==> added@[k] == is_added(*p, *c, #[trigger] c.entries@[k]),
    ensures
        r == pairs(*p, *c, id.id()),
{
    count_lost(p, c, removed, id) == 1 && count_gained(p, c, added, id).0 == 1
}

fn removed_exec(p: &ScanSnapshot, c: &ScanSnapshot, continuity: IdentityContinuity, removed: &Vec<bool>, added: &Vec<bool>, out: &mut Vec<BindingChange>)
    requires
        removed@.len() == p.entries@.len(),
        forall|k: int| 0 <= k < removed@.len() ==> removed@[k] == is_removed(*p, *c, #[trigger] p.entries@[k]),
        added@.len() == c.entries@.len(),
        forall|k: int| 0 <= k < added@.len() ==> added@[k] == is_added(*p, *c, #[trigger] c.entries@[k]),
    ensures
        rows_of(final(out)@) == rows_of(old(out)@) + removed_rows(*p, *c, continuity),
{
    let ghost start = rows_of(out@);
    let ghost pred = removed_pred(*p, *c, continuity);
    let ghost f = removed_map(*c, continuity);
    let observed_ids = continuity == IdentityContinuity::ObservedWithoutGap;
    let mut k: usize = 0;
    while k < p.entries.len()
        invariant
            k <= p.entries@.len(),
            removed@.len() == p.entries@.len(),
            forall|j: int| 0 <= j < removed@.len() ==> removed@[j] == is_removed(*p, *c, #[trigger] p.entries@[j]),
            added@.len() == c.entries@.len(),
            forall|j: int| 0 <= j < added@.len() ==> added@[j] == is_added(*p, *c, #[trigger] c.entries@[j]),
            observed_ids == observed(continuity),
            pred == removed_pred(*p, *c, continuity),
            f == removed_map(*c, continuity),
            rows_of(out@) == start + p.entries@.take(k as int).filter(pred).map_values(f),
        decreases p.entries@.len() - k,
    {
        proof {
            filter_map_take(p.entries@, k as int, pred, f);
        }
        if removed[k] {
            let (path, m) = (&p.entries[k].0, &p.entries[k].1);
            let (paired, hard_link) = match &m.identity {
                Some(id) => if observed_ids {
                    (pairs_exec(p, c, removed, added, id), holds_identity(&c.entries, id))
                } else {
                    (false, false)
                },
                None => (false, false),
            };
            if !paired {
                let kind = if hard_link { BindingChangeKind::HardLinkRemoved } else { BindingChangeKind::Removed };
                let ghost old_rows = out@;
                let b = row(kind, path, None, &m.identity, &m.identity);
                out.push(b);
                proof {
                    assert(rows_of(out@) =~= rows_of(old_rows).push(row_of(b)));
                }
            }
        }
        k = k + 1;
    }
    proof {
        assert(p.entries@.take(p.entries@.len() as int) =~= p.entries@);
    }
}

fn added_exec(p: &ScanSnapshot, c: &ScanSnapshot, continuity: IdentityContinuity, removed: &Vec<bool>, added: &Vec<bool>, out: &mut Vec<BindingChange>)
    requires
        removed@.len() == p.entries@.len(),
        forall|k: int| 0 <= k < removed@.len() ==> removed@[k] == is_removed(*p, *c, #[trigger] p.entries@[k]),
        added@.len() == c.entries@.len(),
        forall|k: int| 0 <= k < added@.len() ==> added@[k] == is_added(*p, *c, #[trigger] c.entries@[k]),
    ensures
        rows_of(final(out)@) == rows_of(old(out)@) + added_rows(*p, *c, continuity),
{
    let ghost start = rows_of(out@);
    let ghost pred = added_pred(*p, *c, continuity);
    let ghost f = added_map(*p, continuity);
    let observed_ids = continuity == IdentityContinuity::ObservedWithoutGap;
    let mut k: usize = 0;
    while k < c.entries.len()
        invariant
            k <= c.entries@.len(),
            removed@.len() == p.entries@.len(),
            forall|j: int| 0 <= j < removed@.len() ==> removed@[j] == is_removed(*p, *c, #[trigger] p.entries@[j]),
            added@.len() == c.entries@.len(),
            forall|j: int| 0 <= j < added@.len() ==> added@[j] == is_added(*p, *c, #[trigger] c.entries@[j]),
            observed_ids == observed(continuity),
            pred == added_pred(*p, *c, continuity),
            f == added_map(*p, continuity),
            rows_of(out@) == start + c.entries@.take(k as int).filter(pred).map_values(f),
        decreases c.entries@.len() - k,
    {
        proof {
            filter_map_take(c.entries@, k as int, pred, f);
        }
        if added[k] {
            let (path, m) = (&c.entries[k].0, &c.entries[k].1);
            let (paired, hard_link) = match &m.identity {
                Some(id) => if observed_ids {
                    (pairs_exec(p, c, removed, added, id), holds_identity(&p.entries, id))
                } else {
                    (false, false)
                },
                None => (false, false),
            };
            if !paired {
                let kind = if hard_link { BindingChangeKind::HardLinkAdded } else { BindingChangeKind::Created };
                let ghost old_rows = out@;
                let b = row(kind, path, None, &m.identity, &None);
                out.push(b);
                proof {
                    assert(rows_of(out@) =~= rows_of(old_rows).push(row_of(b)));
                }
            }
        }
        k = k + 1;
    }
    proof {
        assert(c.entries@.take(c.entries@.len() as int) =~= c.entries@);
    }
}

/// What holds of the rename rows after the first `k` names of the earlier
/// walk: ordered by identity, each a proper rename row, one for every pairing
/// object among those names, and each owed to one of them.
#[verifier::opaque]
pub open spec fn block_upto(p: ScanSnapshot, c: ScanSnapshot, rows: Seq<RowView>, k: int) -> bool {
    &&& forall|i: int, j: int| 0 <= i < j < rows.len() ==> id_less((#[trigger] rows[i]).3->0, (#[trigger] rows[j]).3->0)
    &&& forall|i: int| 0 <= i < rows.len() ==> (#[trigger] rows[i]).3 is Some
        && pairs(p, c, rows[i].3->0) && rows[i] == rename_row(p, c, rows[i].3->0)
    &&& forall|kk: int| 0 <= kk < k && is_removed(p, c, #[trigger] p.entries@[kk]) && id_of(p.entries@[kk].1) is Some
        && pairs(p, c, id_of(p.entries@[kk].1)->0)
        ==> exists|i: int| 0 <= i < rows.len() && (#[trigger] rows[i]).3 == id_of(p.entries@[kk].1)
    &&& forall|i: int| 0 <= i < rows.len() ==> exists|kk: int| 0 <= kk < k
        && #[trigger] is_lost(p, c, (#[trigger] rows[i]).3->0, p.entries@[kk])
}

/// Past a name that adds no row, the rows still hold for one more name.
proof fn block_skips(p: ScanSnapshot, c: ScanSnapshot, rows: Seq<RowView>, k: int)
    requires
        0 <= k < p.entries@.len(),
        block_upto(p, c, rows, k),
        !(is_removed(p, c, p.entries@[k]) && id_of(p.entries@[k].1) is Some && pairs(p, c, id_of(p.entries@[k].1)->0)),
    ensures
        block_upto(p, c, rows, k + 1),
{
    reveal(block_upto);
    assert forall|i: int| 0 <= i < rows.len() implies exists|kk: int| 0 <= kk < k + 1
        && #[trigger] is_lost(p, c, (#[trigger] rows[i]).3->0, p.entries@[kk]) by {
        let kk = choose|kk: int| 0 <= kk < k && #[trigger] is_lost(p, c, rows[i].3->0, p.entries@[kk]);
        assert(is_lost(p, c, rows[i].3->0, p.entries@[kk]));
    }
}

/// No row so far belongs to an object whose one lost name is the `k`th.
proof fn no_row_yet(p: ScanSnapshot, c: ScanSnapshot, rows: Seq<RowView>, k: int, idv: IdView)
    requires
        0 <= k < p.entries@.len(),
        block_upto(p, c, rows, k),
        is_lost(p, c, idv, p.entries@[k]),
        lost(p, c, idv).len() == 1,
    ensures
        forall|i: int| 0 <= i < rows.len() ==> (#[trigger] rows[i]).3 != Some(idv),
{
    reveal(block_upto);
    assert forall|i: int| 0 <= i < rows.len() implies (#[trigger] rows[i]).3 != Some(idv) by {
        if rows[i].3 == Some(idv) {
            let kk = choose|kk: int| 0 <= kk < k && #[trigger] is_lost(p, c, rows[i].3->0, p.entries@[kk]);
            filter_two(p.entries@, lost_pred(p, c, idv), kk, k);
        }
    }
}

proof fn inserted_in_order(rows: Seq<RowView>, pos: int, r: RowView)
    requires
        0 <= pos <= rows.len(),
        r.3 is Some,
        forall|i: int, j: int| 0 <= i < j < rows.len() ==> id_less((#[trigger] rows[i]).3->0, (#[trigger] rows[j]).3->0),
        forall|i: int| 0 <= i < rows.len() ==> (#[trigger] rows[i]).3 != r.3,
        forall|i: int| 0 <= i < pos ==> !id_less(r.3->0, (#[trigger] rows[i]).3->0),
        forall|i: int| 0 <= i < rows.len() ==> (#[trigger] rows[i]).3 is Some,
        pos < rows.len() ==> id_less(r.3->0, rows[pos].3->0),
    ensures
        forall|i: int, j: int| 0 <= i < j < rows.insert(pos, r).len() ==> id_less(
            (#[trigger] rows.insert(pos, r)[i]).3->0, (#[trigger] rows.insert(pos, r)[j]).3->0),
{
    let new_rows = rows.insert(pos, r);
    let idv = r.3->0;
    assert forall|i: int, j: int| 0 <= i < j < new_rows.len() implies id_less(
        (#[trigger] new_rows[i]).3->0, (#[trigger] new_rows[j]).3->0) by {
        if i < pos && j == pos {
            assert(new_rows[i] == rows[i]);
            id_less_is_an_order(rows[i].3->0, idv, idv);
        } else if i < pos && j > pos {
            assert(new_rows[i] == rows[i]);
            assert(new_rows[j] == rows[j - 1]);
            if j - 1 > i {
                assert(id_less(rows[i].3->0, rows[j - 1].3->0));
            }
        } else if i == pos && j > pos {
            assert(new_rows[j] == rows[j - 1]);
            if j - 1 > pos {
                assert(id_less(rows[pos].3->0, rows[j - 1].3->0));
                id_less_is_an_order(idv, rows[pos].3->0, rows[j - 1].3->0);
            }
        } else if i > pos {
            assert(new_rows[i] == rows[i - 1]);
            assert(new_rows[j] == rows[j - 1]);
            assert(id_less(rows[i - 1].3->0, rows[j - 1].3->0));
        } else {
            assert(new_rows[i] == rows[i]);
            assert(new_rows[j] == rows[j]);
        }
    }
}

proof fn inserted_rows_are_renames(p: ScanSnapshot, c: ScanSnapshot, rows: Seq<RowView>, pos: int, r: RowView)
    requires
        0 <= pos <= rows.len(),
        r.3 is Some,
        pairs(p, c, r.3->0),
        r == rename_row(p, c, r.3->0),
        forall|i: int| 0 <= i < rows.len() ==> (#[trigger] rows[i]).3 is Some
            && pairs(p, c, rows[i].3->0) && rows[i] == rename_row(p, c, rows[i].3->0),
    ensures
        forall|i: int| 0 <= i < rows.insert(pos, r).len() ==> (#[trigger] rows.insert(pos, r)[i]).3 is Some
            && pairs(p, c, rows.insert(pos, r)[i].3->0) && rows.insert(pos, r)[i] == rename_row(p, c, rows.insert(pos, r)[i].3->0),
{
    let new_rows = rows.insert(pos, r);
    assert forall|i: int| 0 <= i < new_rows.len() implies (#[trigger] new_rows[i]).3 is Some
        && pairs(p, c, new_rows[i].3->0) && new_rows[i] == rename_row(p, c, new_rows[i].3->0) by {
        if i < pos {
            assert(new_rows[i] == rows[i]);
        } else if i > pos {
            assert(new_rows[i] == rows[i - 1]);
        }
    }
}

proof fn inserted_covers(p: ScanSnapshot, c: ScanSnapshot, rows: Seq<RowView>, k: int, pos: int, r: RowView)
    requires
        0 <= k < p.entries@.len(),
        0 <= pos <= rows.len(),
        r.3 == id_of(p.entries@[k].1),
        forall|kk: int| 0 <= kk < k && is_removed(p, c, #[trigger] p.entries@[kk]) && id_of(p.entries@[kk].1) is Some
            && pairs(p, c, id_of(p.entries@[kk].1)->0)
            ==> exists|i: int| 0 <= i < rows.len() && (#[trigger] rows[i]).3 == id_of(p.entries@[kk].1),
        forall|i: int| 0 <= i < rows.len() ==> exists|kk: int| 0 <= kk < k
            && #[trigger] is_lost(p, c, (#[trigger] rows[i]).3->0, p.entries@[kk]),
        is_lost(p, c, r.3->0, p.entries@[k]),
    ensures
        forall|kk: int| 0 <= kk < k + 1 && is_removed(p, c, #[trigger] p.entries@[kk]) && id_of(p.entries@[kk].1) is Some
            && pairs(p, c, id_of(p.entries@[kk].1)->0)
            ==> exists|i: int| 0 <= i < rows.insert(pos, r).len() && (#[trigger] rows.insert(pos, r)[i]).3 == id_of(p.entries@[kk].1),
        forall|i: int| 0 <= i < rows.insert(pos, r).len() ==> exists|kk: int| 0 <= kk < k + 1
            && #[trigger] is_lost(p, c, (#[trigger] rows.insert(pos, r)[i]).3->0, p.entries@[kk]),
{
    let new_rows = rows.insert(pos, r);
    assert forall|kk: int| 0 <= kk < k + 1 && is_removed(p, c, #[trigger] p.entries@[kk])
        && id_of(p.entries@[kk].1) is Some && pairs(p, c, id_of(p.entries@[kk].1)->0)
        implies exists|i: int| 0 <= i < new_rows.len() && (#[trigger] new_rows[i]).3 == id_of(p.entries@[kk].1) by {
        if kk < k {
            let i = choose|i: int| 0 <= i < rows.len() && (#[trigger] rows[i]).3 == id_of(p.entries@[kk].1);
            if i < pos {
                assert(new_rows[i] == rows[i]);
            } else {
                assert(new_rows[i + 1] == rows[i]);
            }
        } else {
            assert(new_rows[pos] == r);
        }
    }
    assert forall|i: int| 0 <= i < new_rows.len() implies exists|kk: int| 0 <= kk < k + 1
        && #[trigger] is_lost(p, c, (#[trigger] new_rows[i]).3->0, p.entries@[kk]) by {
        if i < pos {
            assert(new_rows[i] == rows[i]);
            let kk = choose|kk: int| 0 <= kk < k && #[trigger] is_lost(p, c, rows[i].3->0, p.entries@[kk]);
            assert(is_lost(p, c, new_rows[i].3->0, p.entries@[kk]));
        } else if i > pos {
            assert(new_rows[i] == rows[i - 1]);
            let kk = choose|kk: int| 0 <= kk < k && #[trigger] is_lost(p, c, rows[i - 1].3->0, p.entries@[kk]);
            assert(is_lost(p, c, new_rows[i].3->0, p.entries@[kk]));
        } else {
            assert(new_rows[i] == r);
        }
    }
}

proof fn block_parts(p: ScanSnapshot, c: ScanSnapshot, rows: Seq<RowView>, k: int)
    requires
        block_upto(p, c, rows, k),
    ensures
        forall|i: int, j: int| 0 <= i < j < rows.len() ==> id_less((#[trigger] rows[i]).3->0, (#[trigger] rows[j]).3->0),
        forall|i: int| 0 <= i < rows.len() ==> (#[trigger] rows[i]).3 is Some
            && pairs(p, c, rows[i].3->0) && rows[i] == rename_row(p, c, rows[i].3->0),
        forall|kk: int| 0 <= kk < k && is_removed(p, c, #[trigger] p.entries@[kk]) && id_of(p.entries@[kk].1) is Some
            && pairs(p, c, id_of(p.entries@[kk].1)->0)
            ==> exists|i: int| 0 <= i < rows.len() && (#[trigger] rows[i]).3 == id_of(p.entries@[kk].1),
        forall|i: int| 0 <= i < rows.len() ==> exists|kk: int| 0 <= kk < k
            && #[trigger] is_lost(p, c, (#[trigger] rows[i]).3->0, p.entries@[kk]),
{
    reveal(block_upto);
}

proof fn order_after_insert(p: ScanSnapshot, c: ScanSnapshot, rows: Seq<RowView>, k: int, pos: int, r: RowView)
    requires
        block_upto(p, c, rows, k),
        0 <= pos <= rows.len(),
        r.3 is Some,
        forall|i: int| 0 <= i < rows.len() ==> (#[trigger] rows[i]).3 != r.3,
        forall|i: int| 0 <= i < pos ==> !id_less(r.3->0, (#[trigger] rows[i]).3->0),
        pos < rows.len() ==> id_less(r.3->0, rows[pos].3->0),
    ensures
        forall|i: int, j: int| 0 <= i < j < rows.insert(pos, r).len() ==> id_less(
            (#[trigger] rows.insert(pos, r)[i]).3->0, (#[trigger] rows.insert(pos, r)[j]).3->0),
{
    block_parts(p, c, rows, k);
    inserted_in_order(rows, pos, r);
}

proof fn renames_after_insert(p: ScanSnapshot, c: ScanSnapshot, rows: Seq<RowView>, k: int, pos: int, r: RowView)
    requires
        block_upto(p, c, rows, k),
        0 <= pos <= rows.len(),
        r.3 is Some,
        pairs(p, c, r.3->0),
        r == rename_row(p, c, r.3->0),
    ensures
        forall|i: int| 0 <= i < rows.insert(pos, r).len() ==> (#[trigger] rows.insert(pos, r)[i]).3 is Some
            && pairs(p, c, rows.insert(pos, r)[i].3->0) && rows.insert(pos, r)[i] == rename_row(p, c, rows.insert(pos, r)[i].3->0),
{
    block_parts(p, c, rows, k);
    inserted_rows_are_renames(p, c, rows, pos, r);
}

proof fn covers_after_insert(p: ScanSnapshot, c: ScanSnapshot, rows: Seq<RowView>, k: int, pos: int, r: RowView)
    requires
        0 <= k < p.entries@.len(),
        block_upto(p, c, rows, k),
        0 <= pos <= rows.len(),
        r.3 == id_of(p.entries@[k].1),
        r.3 is Some,
        is_lost(p, c, r.3->0, p.entries@[k]),
    ensures
        forall|kk: int| 0 <= kk < k + 1 && is_removed(p, c, #[trigger] p.entries@[kk]) && id_of(p.entries@[kk].1) is Some
            && pairs(p, c, id_of(p.entries@[kk].1)->0)
            ==> exists|i: int| 0 <= i < rows.insert(pos, r).len() && (#[trigger] rows.insert(pos, r)[i]).3 == id_of(p.entries@[kk].1),
        forall|i: int| 0 <= i < rows.insert(pos, r).len() ==> exists|kk: int| 0 <= kk < k + 1
            && #[trigger] is_lost(p, c, (#[trigger] rows.insert(pos, r)[i]).3->0, p.entries@[kk]),
{
    block_parts(p, c, rows, k);
    inserted_covers(p, c, rows, k, pos, r);
}

proof fn block_from_parts(p: ScanSnapshot, c: ScanSnapshot, rows: Seq<RowView>, k: int)
    requires
        forall|i: int, j: int| 0 <= i < j < rows.len() ==> id_less((#[trigger] rows[i]).3->0, (#[trigger] rows[j]).3->0),
        forall|i: int| 0 <= i < rows.len() ==> (#[trigger] rows[i]).3 is Some
            && pairs(p, c, rows[i].3->0) && rows[i] == rename_row(p, c, rows[i].3->0),
        forall|kk: int| 0 <= kk < k && is_removed(p, c, #[trigger] p.entries@[kk]) && id_of(p.entries@[kk].1) is Some
            && pairs(p, c, id_of(p.entries@[kk].1)->0)
            ==> exists|i: int| 0 <= i < rows.len() && (#[trigger] rows[i]).3 == id_of(p.entries@[kk].1),
        forall|i: int| 0 <= i < rows.len() ==> exists|kk: int| 0 <= kk < k
            && #[trigger] is_lost(p, c, (#[trigger] rows[i]).3->0, p.entries@[kk]),
    ensures
        block_upto(p, c, rows, k),
{
    reveal(block_upto);
}

/// A new object's rename row put where its identity sorts keeps the rows.
proof fn block_inserts(p: ScanSnapshot, c: ScanSnapshot, rows: Seq<RowView>, k: int, pos: int, r: RowView)
    requires
        0 <= k < p.entries@.len(),
        block_upto(p, c, rows, k),
        0 <= pos <= rows.len(),
        is_removed(p, c, p.entries@[k]),
        id_of(p.entries@[k].1) is Some,
        pairs(p, c, id_of(p.entries@[k].1)->0),
        r == rename_row(p, c, id_of(p.entries@[k].1)->0),
        forall|i: int| 0 <= i < pos ==> !id_less(id_of(p.entries@[k].1)->0, (#[trigger] rows[i]).3->0),
        pos < rows.len() ==> id_less(id_of(p.entries@[k].1)->0, rows[pos].3->0),
    ensures
        block_upto(p, c, rows.insert(pos, r), k + 1),
{
    let idv = id_of(p.entries@[k].1)->0;
    assert(is_lost(p, c, idv, p.entries@[k]));
    no_row_yet(p, c, rows, k, idv);
    order_after_insert(p, c, rows, k, pos, r);
    renames_after_insert(p, c, rows, k, pos, r);
    covers_after_insert(p, c, rows, k, pos, r);
    block_from_parts(p, c, rows.insert(pos, r), k + 1);
}

/// Where a rename row for `id` goes among rows ordered by identity.
fn rename_position(out: &Vec<BindingChange>, id: &ObjectIdentity) -> (pos: usize)
    requires
        forall|i: int| 0 <= i < out@.len() ==> (#[trigger] out@[i]).identity is Some,
    ensures
        pos <= out@.len(),
        forall|i: int| 0 <= i < pos ==> !id_less(id.id(), (#[trigger] rows_of(out@)[i]).3->0),
        pos < out@.len() ==> id_less(id.id(), rows_of(out@)[pos as int].3->0),
{
    let mut pos: usize = 0;
    while pos < out.len() && !id.is_before(out[pos].identity.as_ref().unwrap())
        invariant
            pos <= out@.len(),
            forall|i: int| 0 <= i < out@.len() ==> (#[trigger] out@[i]).identity is Some,
            forall|i: int| 0 <= i < pos ==> !id_less(id.id(), (#[trigger] rows_of(out@)[i]).3->0),
        decreases out@.len() - pos,
    {
        proof {
            assert(rows_of(out@)[pos as int] == row_of(out@[pos as int]));
        }
        pos = pos + 1;
    }
    proof {
        if pos < out@.len() {
            assert(rows_of(out@)[pos as int] == row_of(out@[pos as int]));
        }
    }
    pos
}

/// One more name of the earlier walk: its rename row, if it has one.
#[verifier::rlimit(40)]
fn rename_step(p: &ScanSnapshot, c: &ScanSnapshot, removed: &Vec<bool>, added: &Vec<bool>, k: usize, out: &mut Vec<BindingChange>)
    requires
        k < p.entries@.len(),
        removed@.len() == p.entries@.len(),
        forall|j: int| 0 <= j < removed@.len() ==> removed@[j] == is_removed(*p, *c, #[trigger] p.entries@[j]),
        added@.len() == c.entries@.len(),
        forall|j: int| 0 <= j < added@.len() ==> added@[j] == is_added(*p, *c, #[trigger] c.entries@[j]),
        forall|i: int| 0 <= i < old(out)@.len() ==> (#[trigger] old(out)@[i]).identity is Some,
        block_upto(*p, *c, rows_of(old(out)@), k as int),
    ensures
        forall|i: int| 0 <= i < final(out)@.len() ==> (#[trigger] final(out)@[i]).identity is Some,
        block_upto(*p, *c, rows_of(final(out)@), k + 1),
{
    let ghost rows = rows_of(out@);
    if removed[k] {
        match &p.entries[k].1.identity {
            Some(id) => {
                let lost_count = count_lost(p, c, removed, id);
                let (gained_count, g) = count_gained(p, c, added, id);
                if lost_count == 1 && gained_count == 1 {
                    let ghost idv = id.id();
                    proof {
                        assert(is_lost(*p, *c, idv, p.entries@[k as int]));
                        filter_single(p.entries@, lost_pred(*p, *c, idv), k as int);
                        filter_single(c.entries@, gained_pred(*p, *c, idv), g as int);
                    }
                    let b = row(BindingChangeKind::Renamed, &c.entries[g].0, Some(&p.entries[k].0), &p.entries[k].1.identity, &p.entries[k].1.identity);
                    let pos = rename_position(out, id);
                    let ghost before_out = out@;
                    out.insert(pos, b);
                    proof {
                        assert(rows_of(out@) =~= rows.insert(pos as int, row_of(b)));
                        block_inserts(*p, *c, rows, k as int, pos as int, row_of(b));
                        assert forall|i: int| 0 <= i < out@.len() implies (#[trigger] out@[i]).identity is Some by {
                            if i > pos {
                                assert(out@[i] == before_out[i - 1]);
                            } else if i < pos {
                                assert(out@[i] == before_out[i]);
                            }
                        }
                    }
                    return;
                }
            },
            None => {},
        }
    }
    proof {
        block_skips(*p, *c, rows, k as int);
    }
}

/// The rename rows of two walks, ordered by identity.
fn renames_exec(p: &ScanSnapshot, c: &ScanSnapshot, continuity: IdentityContinuity, removed: &Vec<bool>, added: &Vec<bool>) -> (out: Vec<BindingChange>)
    requires
        removed@.len() == p.entries@.len(),
        forall|k: int| 0 <= k < removed@.len() ==> removed@[k] == is_removed(*p, *c, #[trigger] p.entries@[k]),
        added@.len() == c.entries@.len(),
        forall|k: int| 0 <= k < added@.len() ==> added@[k] == is_added(*p, *c, #[trigger] c.entries@[k]),
    ensures
        is_rename_block(*p, *c, continuity, rows_of(out@)),
{
    let mut out: Vec<BindingChange> = Vec::new();
    if continuity != IdentityContinuity::ObservedWithoutGap {
        proof {
            assert(rows_of(out@) =~= Seq::<RowView>::empty());
        }
        return out;
    }
    proof {
        assert(rows_of(out@) =~= Seq::<RowView>::empty());
        reveal(block_upto);
    }
    let mut k: usize = 0;
    while k < p.entries.len()
        invariant
            k <= p.entries@.len(),
            removed@.len() == p.entries@.len(),
            forall|j: int| 0 <= j < removed@.len() ==> removed@[j] == is_removed(*p, *c, #[trigger] p.entries@[j]),
            added@.len() == c.entries@.len(),
            forall|j: int| 0 <= j < added@.len() ==> added@[j] == is_added(*p, *c, #[trigger] c.entries@[j]),
            forall|i: int| 0 <= i < out@.len() ==> (#[trigger] out@[i]).identity is Some,
            block_upto(*p, *c, rows_of(out@), k as int),
        decreases p.entries@.len() - k,
    {
        rename_step(p, c, removed, added, k, &mut out);
        k = k + 1;
    }
    proof {
        reveal(block_upto);
        let rows = rows_of(out@);
        assert forall|id: IdView| #[trigger] pairs(*p, *c, id) implies exists|i: int| 0 <= i < rows.len() && (#[trigger] rows[i]).3 == Some(id) by {
            let pred = lost_pred(*p, *c, id);
            let l = p.entries@.filter(pred);
            assert(l.contains(l[0]));
            p.entries@.lemma_filter_contains_rev(pred, l[0]);
            p.entries@.lemma_filter_pred(pred, 0);
            let kk = choose|kk: int| 0 <= kk < p.entries@.len() && p.entries@[kk] == l[0];
            assert(is_lost(*p, *c, id, p.entries@[kk]));
            assert(id_of(p.entries@[kk].1) == Some(id));
        }
    }
    out
}

/// Compares two walks of one root.
///
/// Identity matches are scoped to these observations. Native IDs may be
/// reused across deletion, gaps or remounts; a matching ID does not prove
/// continuity. Renamed denotes one lost and one gained name with matching
/// observed IDs, which can also result from unlink/link. It must not count
/// filesystem calls.
pub fn reconcile(previous: &ScanSnapshot, current: &ScanSnapshot, identity_continuity: IdentityContinuity) -> (r: Reconciliation)
    requires
        previous.wf(),
        current.wf(),
    ensures
        is_reconciliation(*previous, *current, identity_continuity, r),
{
    let mut result = Reconciliation { logical_delta: None, allocated_delta: None, bindings: Vec::new(), historical_complete: false };
    if previous.root != current.root {
        return result;
    }
    let same_root_object = match (previous.get(previous.root.as_str()), current.get(current.root.as_str())) {
        (Some(a), Some(b)) => a.identity_matches(b),
        (Some(a), None) => a.identity.is_none(),
        (None, Some(b)) => b.identity.is_none(),
        (None, None) => true,
    };
    if !same_root_object {
        return result;
    }
    if previous.is_complete() && current.is_complete() {
        let before = previous.totals();
        let after = current.totals();
        result.logical_delta = match (before.logical_bytes, after.logical_bytes) {
            (Some(a), Some(b)) => Some(b as i128 - a as i128),
            _ => None,
        };
        result.allocated_delta = match (before.allocated_bytes, after.allocated_bytes) {
            (Some(a), Some(b)) => Some(b as i128 - a as i128),
            _ => None,
        };
    }
    let removed = removed_flags(previous, current);
    let added = added_flags(previous, current);
    let mut bindings: Vec<BindingChange> = Vec::new();
    proof {
        assert(rows_of(bindings@) =~= Seq::<RowView>::empty());
    }
    modified_exec(previous, current, identity_continuity, &mut bindings);
    let mut renames = renames_exec(previous, current, identity_continuity, &removed, &added);
    let ghost rename_rows = rows_of(renames@);
    let ghost before_renames = bindings@;
    bindings.append(&mut renames);
    proof {
        assert(rows_of(bindings@) =~= rows_of(before_renames) + rename_rows);
    }
    removed_exec(previous, current, identity_continuity, &removed, &added, &mut bindings);
    added_exec(previous, current, identity_continuity, &removed, &added, &mut bindings);
    replaced_exec(previous, current, identity_continuity, &mut bindings);
    result.bindings = bindings;
    proof {
        assert(is_rename_block(*previous, *current, identity_continuity, rename_rows));
    }
    result
}

/// What a measurement says, identity by its view.
pub type MView = (Option<IdView>, FileKind, u64, Option<u64>, Option<u64>, Timestamp);

pub open spec fn mview(m: FileMeasurement) -> MView {
    (id_of(m), m.kind, m.logical_bytes, m.allocated_bytes, m.link_count, m.measured_at)
}

/// A measurement made from a live size rather than a stat: the identity,
/// kind, length and link count are kept when there was a measurement,
/// because the size is all the live path knows.
pub open spec fn amended_view(previous: Option<FileMeasurement>, size: u64, now: Timestamp) -> MView {
    match previous {
        Some(m) => (id_of(m), m.kind, m.logical_bytes, Some(size), m.link_count, now),
        None => (None, FileKind::File, size, Some(size), None, now),
    }
}

/// Whether the live changes are sorted by path, one per path.
pub open spec fn sorted_changes(changes: Seq<(String, Option<u64>)>) -> bool {
    forall|i: int, j: int| 0 <= i < j < changes.len() ==> path_less((#[trigger] changes[i]).0@, (#[trigger] changes[j]).0@)
}

/// The live change recorded for `path`, if any: its size now, or `None` for
/// a path that is gone.
pub open spec fn change_at(changes: Seq<(String, Option<u64>)>, path: Seq<char>) -> Option<Option<u64>> {
    if exists|i: int| 0 <= i < changes.len() && (#[trigger] changes[i]).0@ == path {
        Some(changes[choose|i: int| 0 <= i < changes.len() && (#[trigger] changes[i]).0@ == path].1)
    } else {
        None
    }
}

/// What an amended snapshot holds for `path`.
pub open spec fn amended_at(entries: Seq<Entry>, changes: Seq<(String, Option<u64>)>, path: Seq<char>, now: Timestamp) -> Option<MView> {
    match change_at(changes, path) {
        Some(Some(size)) => Some(amended_view(find(entries, path), size, now)),
        Some(None) => None,
        None => match find(entries, path) {
            Some(m) => Some(mview(m)),
            None => None,
        },
    }
}

proof fn change_at_index(changes: Seq<(String, Option<u64>)>, k: int)
    requires
        sorted_changes(changes),
        0 <= k < changes.len(),
    ensures
        change_at(changes, changes[k].0@) == Some(changes[k].1),
{
    let path = changes[k].0@;
    assert(0 <= k < changes.len() && changes[k].0@ == path);
    let c = choose|i: int| 0 <= i < changes.len() && (#[trigger] changes[i]).0@ == path;
    assert(0 <= c < changes.len() && changes[c].0@ == path);
    path_less_is_an_order(path, path, path);
    if c < k {
        assert(path_less(changes[c].0@, changes[k].0@));
    } else if k < c {
        assert(path_less(changes[k].0@, changes[c].0@));
    }
}

/// Appending an entry whose path sorts after every other keeps the entries
/// sorted, and adds exactly that path.
proof fn find_push(entries: Seq<Entry>, x: Entry, q: Seq<char>)
    requires
        sorted_entries(entries),
        forall|k: int| 0 <= k < entries.len() ==> path_less((#[trigger] entries[k]).0@, x.0@),
    ensures
        sorted_entries(entries.push(x)),
        find(entries.push(x), q) == (if q == x.0@ { Some(x.1) } else { find(entries, q) }),
{
    let pushed = entries.push(x);
    assert forall|i: int, j: int| 0 <= i < j < pushed.len() implies path_less((#[trigger] pushed[i]).0@, (#[trigger] pushed[j]).0@) by {
        if j == entries.len() {
            assert(pushed[i] == entries[i]);
        } else {
            assert(pushed[i] == entries[i]);
            assert(pushed[j] == entries[j]);
        }
    }
    find_at(pushed, entries.len() as int);
    if q != x.0@ {
        if has_path(entries, q) {
            let k = choose|i: int| 0 <= i < entries.len() && (#[trigger] entries[i]).0@ == q;
            find_at(entries, k);
            assert(pushed[k] == entries[k]);
            find_at(pushed, k);
        } else {
            assert forall|i: int| 0 <= i < pushed.len() implies (#[trigger] pushed[i]).0@ != q by {
                if i < entries.len() {
                    assert(pushed[i] == entries[i]);
                }
            }
        }
    }
}

/// Whether a merge that has taken the first `i` entries and the first `j`
/// changes has passed `path`.
pub open spec fn seen(entries: Seq<Entry>, changes: Seq<(String, Option<u64>)>, i: int, j: int, path: Seq<char>) -> bool {
    (exists|a: int| 0 <= a < i && (#[trigger] entries[a]).0@ == path)
        || (exists|b: int| 0 <= b < j && (#[trigger] changes[b]).0@ == path)
}

pub open spec fn view_at(entries: Seq<Entry>, path: Seq<char>) -> Option<MView> {
    match find(entries, path) {
        Some(m) => Some(mview(m)),
        None => None,
    }
}

/// What a merge holds part-way: every path it has passed as amended, and
/// nothing it has not passed yet.
pub open spec fn merged_upto(
    entries: Seq<Entry>,
    changes: Seq<(String, Option<u64>)>,
    now: Timestamp,
    merged: Seq<Entry>,
    i: int,
    j: int,
) -> bool {
    forall|q: Seq<char>| #[trigger] view_at(merged, q) == (if seen(entries, changes, i, j, q) {
        amended_at(entries, changes, q, now)
    } else {
        None
    })
}

proof fn seen_after(entries: Seq<Entry>, changes: Seq<(String, Option<u64>)>, i: int, j: int, di: int, dj: int, q: Seq<char>)
    requires
        0 <= i,
        0 <= j,
        0 <= di <= 1,
        0 <= dj <= 1,
        i + di <= entries.len(),
        j + dj <= changes.len(),
    ensures
        seen(entries, changes, i + di, j + dj, q) == (seen(entries, changes, i, j, q)
            || (di == 1 && entries[i].0@ == q) || (dj == 1 && changes[j].0@ == q)),
{
    if seen(entries, changes, i + di, j + dj, q) {
        if exists|a: int| 0 <= a < i + di && (#[trigger] entries[a]).0@ == q {
            let a = choose|a: int| 0 <= a < i + di && (#[trigger] entries[a]).0@ == q;
            if a < i {
                assert(entries[a].0@ == q);
            }
        } else {
            let b = choose|b: int| 0 <= b < j + dj && (#[trigger] changes[b]).0@ == q;
            if b < j {
                assert(changes[b].0@ == q);
            }
        }
    }
    if di == 1 && entries[i].0@ == q {
        assert(entries[i].0@ == q);
    }
    if dj == 1 && changes[j].0@ == q {
        assert(changes[j].0@ == q);
    }
    if seen(entries, changes, i, j, q) {
        if exists|a: int| 0 <= a < i && (#[trigger] entries[a]).0@ == q {
            let a = choose|a: int| 0 <= a < i && (#[trigger] entries[a]).0@ == q;
            assert(entries[a].0@ == q);
        } else {
            let b = choose|b: int| 0 <= b < j && (#[trigger] changes[b]).0@ == q;
            assert(changes[b].0@ == q);
        }
    }
}

/// Taking the next steps of a merge: `x` is what it pushes, if anything,
/// and `path` the one path it passes.
proof fn merge_step(
    entries: Seq<Entry>,
    changes: Seq<(String, Option<u64>)>,
    now: Timestamp,
    merged: Seq<Entry>,
    i: int,
    j: int,
    di: int,
    dj: int,
    path: Seq<char>,
    x: Option<Entry>,
)
    requires
        0 <= i,
        0 <= j,
        0 <= di <= 1,
        0 <= dj <= 1,
        di + dj >= 1,
        i + di <= entries.len(),
        j + dj <= changes.len(),
        di == 1 ==> entries[i].0@ == path,
        dj == 1 ==> changes[j].0@ == path,
        sorted_entries(merged),
        merged_upto(entries, changes, now, merged, i, j),
        !seen(entries, changes, i, j, path),
        x matches Some(e) ==> e.0@ == path && Some(mview(e.1)) == amended_at(entries, changes, path, now)
            && forall|k: int| 0 <= k < merged.len() ==> path_less((#[trigger] merged[k]).0@, path),
        x is None ==> amended_at(entries, changes, path, now) is None,
    ensures
        sorted_entries(match x { Some(e) => merged.push(e), None => merged }),
        merged_upto(entries, changes, now, match x { Some(e) => merged.push(e), None => merged }, i + di, j + dj),
{
    let next = match x { Some(e) => merged.push(e), None => merged };
    assert forall|q: Seq<char>| #[trigger] view_at(next, q) == (if seen(entries, changes, i + di, j + dj, q) {
        amended_at(entries, changes, q, now)
    } else {
        None
    }) by {
        seen_after(entries, changes, i, j, di, dj, q);
        assert(view_at(merged, q) == (if seen(entries, changes, i, j, q) { amended_at(entries, changes, q, now) } else { None }));
        match x {
            Some(e) => {
                find_push(merged, e, q);
            },
            None => {},
        }
        if q == path {
            assert(view_at(merged, q) == None::<MView>);
        }
    }
    match x {
        Some(e) => {
            find_push(merged, e, path);
        },
        None => {},
    }
}

fn fresh_measurement(size: u64, now: Timestamp) -> (m: FileMeasurement)
    ensures
        mview(m) == amended_view(None, size, now),
{
    FileMeasurement { identity: None, kind: FileKind::File, logical_bytes: size, allocated_bytes: Some(size), link_count: None, measured_at: now }
}

fn amended_measurement(previous: &FileMeasurement, size: u64, now: Timestamp) -> (m: FileMeasurement)
    ensures
        mview(m) == amended_view(Some(*previous), size, now),
{
    FileMeasurement {
        identity: copy_identity(&previous.identity),
        kind: previous.kind,
        logical_bytes: previous.logical_bytes,
        allocated_bytes: Some(size),
        link_count: previous.link_count,
        measured_at: now,
    }
}

impl ScanSnapshot {
    /// Folds what was seen live since this snapshot into it: `Some` is the
    /// path's allocated size now, `None` a path that is gone. One merge of
    /// two sorted sequences rather than an insert per change, because the
    /// snapshot is millions of entries and the changes can be thousands.
    pub fn amend(&mut self, changes: Vec<(String, Option<u64>)>, now: Timestamp)
        requires
            old(self).wf(),
            sorted_changes(changes@),
        ensures
            final(self).wf(),
            forall|q: Seq<char>| #[trigger] view_at(final(self).entries@, q) == amended_at(old(self).entries@, changes@, q, now),
            final(self).root == old(self).root,
            final(self).errors == old(self).errors,
            final(self).started_at == old(self).started_at,
            final(self).finished_at == old(self).finished_at,
    {
        let mut entries: Vec<Entry> = Vec::new();
        std::mem::swap(&mut entries, &mut self.entries);
        let ghost old_entries = entries@;
        let mut merged: Vec<Entry> = Vec::new();
        let mut i: usize = 0;
        let mut j: usize = 0;
        proof {
            assert forall|q: Seq<char>| #[trigger] view_at(merged@, q) == (if seen(old_entries, changes@, 0, 0, q) {
                amended_at(old_entries, changes@, q, now)
            } else {
                None
            }) by {
                assert(!has_path(merged@, q));
            }
        }
        while i < entries.len() || j < changes.len()
            invariant
                i <= entries@.len(),
                j <= changes@.len(),
                entries@ == old_entries,
                sorted_entries(old_entries),
                sorted_changes(changes@),
                sorted_entries(merged@),
                forall|k: int| 0 <= k < merged@.len() && i < entries@.len() ==> path_less((#[trigger] merged@[k]).0@, entries@[i as int].0@),
                forall|k: int| 0 <= k < merged@.len() && j < changes@.len() ==> path_less((#[trigger] merged@[k]).0@, changes@[j as int].0@),
                forall|a: int| 0 <= a < i && j < changes@.len() ==> path_less((#[trigger] entries@[a]).0@, changes@[j as int].0@),
                forall|b: int| 0 <= b < j && i < entries@.len() ==> path_less((#[trigger] changes@[b]).0@, entries@[i as int].0@),
                merged_upto(old_entries, changes@, now, merged@, i as int, j as int),
            decreases entries@.len() - i + changes@.len() - j,
        {
            let ghost before = merged@;
            let take_change = j < changes.len() && (i == entries.len() || is_path_less(changes[j].0.as_str(), entries[i].0.as_str()));
            if take_change {
                let ghost path = changes@[j as int].0@;
                proof {
                    change_at_index(changes@, j as int);
                    // No entry of the snapshot has this path.
                    assert forall|a: int| 0 <= a < old_entries.len() implies (#[trigger] old_entries[a]).0@ != path by {
                        path_less_is_an_order(path, path, path);
                        if a > i {
                            assert(path_less(old_entries[i as int].0@, old_entries[a].0@));
                            path_less_is_an_order(path, old_entries[i as int].0@, old_entries[a].0@);
                        }
                    }
                    assert(!seen(old_entries, changes@, i as int, j as int, path)) by {
                        path_less_is_an_order(path, path, path);
                        assert forall|b: int| 0 <= b < j implies (#[trigger] changes@[b]).0@ != path by {
                            assert(path_less(changes@[b].0@, changes@[j as int].0@));
                        }
                    }
                }
                match changes[j].1 {
                    Some(size) => {
                        let m = fresh_measurement(size, now);
                        let e = (changes[j].0.clone(), m);
                        merged.push(e);
                        proof {
                            merge_step(old_entries, changes@, now, before, i as int, j as int, 0, 1, path, Some(e));
                        }
                    },
                    None => {
                        proof {
                            merge_step(old_entries, changes@, now, before, i as int, j as int, 0, 1, path, None);
                        }
                    },
                }
                proof {
                    assert forall|k: int| 0 <= k < merged@.len() && j + 1 < changes@.len() implies path_less((#[trigger] merged@[k]).0@, changes@[j + 1].0@) by {
                        assert(path_less(changes@[j as int].0@, changes@[j + 1].0@));
                        if k < before.len() {
                            assert(merged@[k] == before[k]);
                            path_less_is_an_order(merged@[k].0@, changes@[j as int].0@, changes@[j + 1].0@);
                        }
                    }
                    assert forall|a: int| 0 <= a < i && j + 1 < changes@.len() implies path_less((#[trigger] old_entries[a]).0@, changes@[j + 1].0@) by {
                        assert(path_less(changes@[j as int].0@, changes@[j + 1].0@));
                        path_less_is_an_order(old_entries[a].0@, changes@[j as int].0@, changes@[j + 1].0@);
                    }
                    assert forall|k: int| 0 <= k < merged@.len() && i < old_entries.len() implies path_less((#[trigger] merged@[k]).0@, old_entries[i as int].0@) by {
                        if k < before.len() {
                            assert(merged@[k] == before[k]);
                        }
                    }
                }
                j = j + 1;
            } else if j < changes.len() && changes[j].0 == entries[i].0 {
                let ghost path = old_entries[i as int].0@;
                proof {
                    change_at_index(changes@, j as int);
                    find_at(old_entries, i as int);
                    assert(!seen(old_entries, changes@, i as int, j as int, path)) by {
                        path_less_is_an_order(path, path, path);
                        assert forall|b: int| 0 <= b < j implies (#[trigger] changes@[b]).0@ != path by {}
                        assert forall|a: int| 0 <= a < i implies (#[trigger] old_entries[a]).0@ != path by {
                            assert(path_less(old_entries[a].0@, old_entries[i as int].0@));
                        }
                    }
                }
                match changes[j].1 {
                    Some(size) => {
                        let m = amended_measurement(&entries[i].1, size, now);
                        let e = (entries[i].0.clone(), m);
                        merged.push(e);
                        proof {
                            merge_step(old_entries, changes@, now, before, i as int, j as int, 1, 1, path, Some(e));
                        }
                    },
                    None => {
                        proof {
                            merge_step(old_entries, changes@, now, before, i as int, j as int, 1, 1, path, None);
                        }
                    },
                }
                proof {
                    assert forall|k: int| 0 <= k < merged@.len() && j + 1 < changes@.len() implies path_less((#[trigger] merged@[k]).0@, changes@[j + 1].0@) by {
                        assert(path_less(changes@[j as int].0@, changes@[j + 1].0@));
                        if k < before.len() {
                            assert(merged@[k] == before[k]);
                            path_less_is_an_order(merged@[k].0@, changes@[j as int].0@, changes@[j + 1].0@);
                        }
                    }
                    assert forall|k: int| 0 <= k < merged@.len() && i + 1 < old_entries.len() implies path_less((#[trigger] merged@[k]).0@, old_entries[i + 1].0@) by {
                        assert(path_less(old_entries[i as int].0@, old_entries[i + 1].0@));
                        if k < before.len() {
                            assert(merged@[k] == before[k]);
                            path_less_is_an_order(merged@[k].0@, old_entries[i as int].0@, old_entries[i + 1].0@);
                        }
                    }
                    assert forall|a: int| 0 <= a < i + 1 && j + 1 < changes@.len() implies path_less((#[trigger] old_entries[a]).0@, changes@[j + 1].0@) by {
                        assert(path_less(changes@[j as int].0@, changes@[j + 1].0@));
                        if a < i {
                            path_less_is_an_order(old_entries[a].0@, changes@[j as int].0@, changes@[j + 1].0@);
                        }
                    }
                    assert forall|b: int| 0 <= b < j + 1 && i + 1 < old_entries.len() implies path_less((#[trigger] changes@[b]).0@, old_entries[i + 1].0@) by {
                        assert(path_less(old_entries[i as int].0@, old_entries[i + 1].0@));
                        if b < j {
                            path_less_is_an_order(changes@[b].0@, old_entries[i as int].0@, old_entries[i + 1].0@);
                        }
                    }
                }
                i = i + 1;
                j = j + 1;
            } else {
                let ghost path = old_entries[i as int].0@;
                proof {
                    find_at(old_entries, i as int);
                    if j < changes@.len() {
                        path_less_is_an_order(changes@[j as int].0@, path, path);
                        assert(path_less(path, changes@[j as int].0@));
                    }
                    // No live change names this path.
                    assert forall|b: int| 0 <= b < changes@.len() implies (#[trigger] changes@[b]).0@ != path by {
                        path_less_is_an_order(path, path, path);
                        if b > j {
                            assert(path_less(changes@[j as int].0@, changes@[b].0@));
                            path_less_is_an_order(path, changes@[j as int].0@, changes@[b].0@);
                        }
                    }
                    assert(!(exists|b: int| 0 <= b < changes@.len() && (#[trigger] changes@[b]).0@ == path));
                    assert(!seen(old_entries, changes@, i as int, j as int, path)) by {
                        path_less_is_an_order(path, path, path);
                        assert forall|a: int| 0 <= a < i implies (#[trigger] old_entries[a]).0@ != path by {
                            assert(path_less(old_entries[a].0@, old_entries[i as int].0@));
                        }
                    }
                }
                let e = (entries[i].0.clone(), entries[i].1.copy());
                merged.push(e);
                proof {
                    merge_step(old_entries, changes@, now, before, i as int, j as int, 1, 0, path, Some(e));
                    assert forall|k: int| 0 <= k < merged@.len() && i + 1 < old_entries.len() implies path_less((#[trigger] merged@[k]).0@, old_entries[i + 1].0@) by {
                        assert(path_less(old_entries[i as int].0@, old_entries[i + 1].0@));
                        if k < before.len() {
                            assert(merged@[k] == before[k]);
                            path_less_is_an_order(merged@[k].0@, old_entries[i as int].0@, old_entries[i + 1].0@);
                        }
                    }
                    assert forall|k: int| 0 <= k < merged@.len() && j < changes@.len() implies path_less((#[trigger] merged@[k]).0@, changes@[j as int].0@) by {
                        if k < before.len() {
                            assert(merged@[k] == before[k]);
                        }
                    }
                    assert forall|b: int| 0 <= b < j && i + 1 < old_entries.len() implies path_less((#[trigger] changes@[b]).0@, old_entries[i + 1].0@) by {
                        assert(path_less(old_entries[i as int].0@, old_entries[i + 1].0@));
                        path_less_is_an_order(changes@[b].0@, old_entries[i as int].0@, old_entries[i + 1].0@);
                    }
                }
                i = i + 1;
            }
        }
        proof {
            assert forall|q: Seq<char>| #[trigger] view_at(merged@, q) == amended_at(old_entries, changes@, q, now) by {
                assert(view_at(merged@, q) == (if seen(old_entries, changes@, i as int, j as int, q) {
                    amended_at(old_entries, changes@, q, now)
                } else {
                    None
                }));
                if !seen(old_entries, changes@, i as int, j as int, q) {
                    assert(!has_path(old_entries, q));
                    assert(!(exists|b: int| 0 <= b < changes@.len() && (#[trigger] changes@[b]).0@ == q));
                }
            }
        }
        self.entries = merged;
    }
}
} // verus!
