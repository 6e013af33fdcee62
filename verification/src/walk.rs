//! What a walk of a folder becomes: the names it met, one entry per name, in
//! path order. The walk itself — reading directories, measuring each name —
//! is the host's; this is the snapshot it hands back.

use vstd::prelude::*;

use std::cmp::Ordering;

use crate::event::Timestamp;
use crate::measurement::{id_of, FileKind, FileMeasurement, IdView, ObjectIdentity};
use crate::snapshot::{mview, is_path_less, path_less, path_less_is_an_order, sorted_entries, ScanConsistency, ScanError, ScanSnapshot};

verus! {

/// How two paths compare, component by component.
pub fn path_order(a: &String, b: &String) -> (o: Ordering)
    ensures
        (o is Less) == path_less(a@, b@),
        (o is Greater) == path_less(b@, a@),
        (o is Equal) == (a@ == b@),
{
    proof {
        path_less_is_an_order(a@, b@, a@);
    }
    if is_path_less(a.as_str(), b.as_str()) {
        Ordering::Less
    } else if is_path_less(b.as_str(), a.as_str()) {
        Ordering::Greater
    } else {
        Ordering::Equal
    }
}

/// `slice::sort_by` with [`path_order`], which is a total order: the same
/// entries, none sorting after one that follows it.
#[verifier::external_body]
fn sort_by_path(entries: &mut Vec<(String, FileMeasurement)>)
    ensures
        final(entries)@.to_multiset() == old(entries)@.to_multiset(),
        forall|i: int, j: int| 0 <= i < j < final(entries)@.len()
            ==> !path_less(final(entries)@[j].0@, final(entries)@[i].0@),
{
    entries.sort_by(|a, b| path_order(&a.0, &b.0));
}

/// Whether `entries` holds an observation of `path` that measured `m`.
pub open spec fn observed(entries: Seq<(String, FileMeasurement)>, path: Seq<char>, m: FileMeasurement) -> bool {
    exists|j: int| 0 <= j < entries.len() && #[trigger] entries[j].0@ == path && mview(entries[j].1) == mview(m)
}

/// The snapshot a walk of `root` over `started_at` to `finished_at` makes:
/// the entries it measured sorted by path with one per name (a walk that met
/// a name twice recorded two observations of it, and readers expect one), and
/// the errors it met, in the order it met them. Which of two observations of
/// one name is kept is not said.
pub fn snapshot_of(
    root: String,
    started_at: Timestamp,
    finished_at: Timestamp,
    entries: Vec<(String, FileMeasurement)>,
    errors: Vec<ScanError>,
) -> (s: ScanSnapshot)
    ensures
        s.wf(),
        s.root == root,
        s.started_at == started_at,
        s.finished_at == finished_at,
        s.consistency == ScanConsistency::ObservedInterval,
        s.errors@ == errors@,
        forall|i: int| 0 <= i < s.entries@.len() ==> #[trigger] observed(entries@, s.entries@[i].0@, s.entries@[i].1),
        forall|i: int| 0 <= i < entries@.len() ==> exists|j: int| 0 <= j < s.entries@.len()
            && #[trigger] s.entries@[j].0@ == (#[trigger] entries@[i]).0@,
{
    let mut sorted = entries;
    let ghost given = sorted@;
    sort_by_path(&mut sorted);
    proof {
        assert forall|e: (String, FileMeasurement)| given.contains(e) <==> sorted@.contains(e) by {
            vstd::seq_lib::to_multiset_contains(given, e);
            vstd::seq_lib::to_multiset_contains(sorted@, e);
        }
    }
    let mut kept: Vec<(String, FileMeasurement)> = Vec::new();
    let mut k: usize = 0;
    while k < sorted.len()
        invariant
            k <= sorted@.len(),
            forall|a: int, b: int| 0 <= a < b < sorted@.len() ==> !path_less(sorted@[b].0@, sorted@[a].0@),
            sorted_entries(kept@),
            forall|t: int| 0 <= t < kept@.len() ==> #[trigger] observed(sorted@, kept@[t].0@, kept@[t].1),
            forall|j: int| 0 <= j < k ==> exists|t: int| 0 <= t < kept@.len() && #[trigger] kept@[t].0@ == (#[trigger] sorted@[j]).0@,
            k > 0 ==> kept@.len() > 0 && kept@.last().0@ == sorted@[k - 1].0@,
            k == 0 ==> kept@.len() == 0,
        decreases sorted@.len() - k,
    {
        let n = kept.len();
        let ghost before = kept@;
        let fresh = n == 0 || is_path_less(kept[n - 1].0.as_str(), sorted[k].0.as_str());
        if fresh {
            let entry = (sorted[k].0.clone(), sorted[k].1.copy());
            kept.push(entry);
            proof {
                let added = kept@[n as int];
                assert(added.0@ == sorted@[k as int].0@);
                assert(mview(added.1) == mview(sorted@[k as int].1));
                assert(observed(sorted@, added.0@, added.1));
                assert forall|a: int, b: int| 0 <= a < b < kept@.len() implies path_less((#[trigger] kept@[a]).0@, (#[trigger] kept@[b]).0@) by {
                    if b == n {
                        if a < n - 1 {
                            assert(path_less(before[a].0@, before[n - 1].0@));
                            path_less_is_an_order(before[a].0@, before[n - 1].0@, added.0@);
                        }
                    } else {
                        assert(kept@[a] == before[a] && kept@[b] == before[b]);
                    }
                }
                assert forall|t: int| 0 <= t < kept@.len() implies #[trigger] observed(sorted@, kept@[t].0@, kept@[t].1) by {
                    if t < n {
                        assert(kept@[t] == before[t]);
                    }
                }
                assert forall|j: int| 0 <= j < k + 1 implies exists|t: int| 0 <= t < kept@.len() && #[trigger] kept@[t].0@ == (#[trigger] sorted@[j]).0@ by {
                    if j == k {
                        assert(kept@[n as int].0@ == sorted@[j].0@);
                    } else {
                        let t = choose|t: int| 0 <= t < before.len() && #[trigger] before[t].0@ == (#[trigger] sorted@[j]).0@;
                        assert(kept@[t] == before[t]);
                    }
                }
            }
        } else {
            proof {
                path_less_is_an_order(kept@[n - 1].0@, sorted@[k as int].0@, kept@[n - 1].0@);
                assert(!path_less(sorted@[k as int].0@, sorted@[k - 1].0@));
                assert forall|j: int| 0 <= j < k + 1 implies exists|t: int| 0 <= t < kept@.len() && #[trigger] kept@[t].0@ == (#[trigger] sorted@[j]).0@ by {
                    if j == k {
                        assert(kept@[n - 1].0@ == sorted@[j].0@);
                    }
                }
            }
        }
        k = k + 1;
    }
    proof {
        assert forall|i: int| 0 <= i < kept@.len() implies #[trigger] observed(given, kept@[i].0@, kept@[i].1) by {
            assert(observed(sorted@, kept@[i].0@, kept@[i].1));
            let j = choose|j: int| 0 <= j < sorted@.len() && #[trigger] sorted@[j].0@ == kept@[i].0@ && mview(sorted@[j].1) == mview(kept@[i].1);
            assert(sorted@.contains(sorted@[j]));
            assert(given.contains(sorted@[j]));
            let w = choose|w: int| 0 <= w < given.len() && given[w] == sorted@[j];
            assert(given[w].0@ == kept@[i].0@);
        }
        assert forall|i: int| 0 <= i < given.len() implies exists|j: int| 0 <= j < kept@.len()
            && #[trigger] kept@[j].0@ == (#[trigger] given[i]).0@ by {
            assert(given.contains(given[i]));
            assert(sorted@.contains(given[i]));
            let w = choose|w: int| 0 <= w < sorted@.len() && sorted@[w] == given[i];
            let t = choose|t: int| 0 <= t < kept@.len() && #[trigger] kept@[t].0@ == (#[trigger] sorted@[w]).0@;
            assert(kept@[t].0@ == given[i].0@);
        }
    }
    ScanSnapshot { root, started_at, finished_at, consistency: ScanConsistency::ObservedInterval, entries: kept, errors }
}


/// The identity an optional identity names, as values.
pub open spec fn opt_id(identity: Option<ObjectIdentity>) -> Option<IdView> {
    match identity {
        Some(i) => Some(i.id()),
        None => None,
    }
}

/// Whether a walk may start at a root measured as `m`: only a directory is
/// walked, never a file or a symlink to one.
pub fn root_admitted(m: &FileMeasurement) -> (r: bool)
    ensures
        r == (m.kind == FileKind::Directory),
{
    match m.kind {
        FileKind::Directory => true,
        _ => false,
    }
}

/// Whether a walk descends into a directory it queued with identity
/// `queued`, now measured as `now`: only when it is still a directory and
/// still the same object, never through a replacement or a new symlink.
pub fn descends(queued: &Option<ObjectIdentity>, now: &FileMeasurement) -> (r: bool)
    ensures
        r == (now.kind == FileKind::Directory && id_of(*now) == opt_id(*queued)),
{
    let directory = match now.kind {
        FileKind::Directory => true,
        _ => false,
    };
    if !directory {
        return false;
    }
    match (queued, &now.identity) {
        (Some(a), Some(b)) => a.same(b),
        (None, None) => true,
        _ => false,
    }
}

} // verus!
