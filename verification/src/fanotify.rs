//! fanotify: what the Linux filesystem-wide watcher reads and what it means.
//!
//! One `FAN_MARK_FILESYSTEM` mark covers a whole filesystem, so every event
//! for the filesystem arrives here and is filtered down to the watched root.
//! Events come as a buffer of kernel records: a fixed metadata part, then
//! information records that name the changed object by file handle and name.
//! Reading the group, opening a handle and asking `/proc` for a path are the
//! caller's; what the bytes say and what the watch reports is decided below.

use vstd::prelude::*;

use crate::monitor::{kind_view, report_views, ChangeKind, KindView, Report, ReportView};
use crate::paths::{inside, normalized};
use crate::usn::{read16, read32, read64, u16_at, u32_at, u64_at};

verus! {

/// Event mask bits (`FAN_*`).
pub const MODIFY: u64 = 0x0000_0002;
pub const ATTRIB: u64 = 0x0000_0004;
pub const MOVED_FROM: u64 = 0x0000_0040;
pub const MOVED_TO: u64 = 0x0000_0080;
pub const CREATE: u64 = 0x0000_0100;
pub const DELETE: u64 = 0x0000_0200;
pub const Q_OVERFLOW: u64 = 0x0000_4000;
pub const RENAME: u64 = 0x1000_0000;
pub const ONDIR: u64 = 0x4000_0000;

/// Information record types (`FAN_EVENT_INFO_TYPE_*`).
pub const INFO_FID: u8 = 1;
pub const INFO_DFID_NAME: u8 = 2;
pub const INFO_DFID: u8 = 3;
pub const INFO_OLD_DFID_NAME: u8 = 10;
pub const INFO_NEW_DFID_NAME: u8 = 12;

/// The size of an event's metadata (`struct fanotify_event_metadata`).
pub const METADATA_LEN: usize = 24;

/// The size of an information record's header.
pub const INFO_HEADER_LEN: usize = 4;

/// The changes a mask stands for. fanotify carries no rename cookie, so a
/// move is two halves that only the host can pair.
pub open spec fn kinds_of(mask: u64) -> Seq<ChangeKind> {
    (if mask & CREATE != 0 { seq![ChangeKind::Created] } else { Seq::empty() })
        + (if mask & DELETE != 0 { seq![ChangeKind::Deleted] } else { Seq::empty() })
        + (if mask & (MOVED_FROM | MOVED_TO) != 0 {
        seq![ChangeKind::Renamed { previous_path: None }]
    } else {
        Seq::empty()
    }) + (if mask & (MODIFY | ATTRIB) != 0 { seq![ChangeKind::Modified] } else { Seq::empty() })
}

/// The changes `mask` stands for; a bit this backend never asked for is not
/// turned into a change.
pub fn kinds(mask: u64) -> (out: Vec<ChangeKind>)
    ensures
        out@ == kinds_of(mask),
{
    let mut out: Vec<ChangeKind> = Vec::new();
    if mask & CREATE != 0 {
        out.push(ChangeKind::Created);
    }
    if mask & DELETE != 0 {
        out.push(ChangeKind::Deleted);
    }
    if mask & (MOVED_FROM | MOVED_TO) != 0 {
        out.push(ChangeKind::Renamed { previous_path: None });
    }
    if mask & (MODIFY | ATTRIB) != 0 {
        out.push(ChangeKind::Modified);
    }
    assert(out@ =~= kinds_of(mask));
    out
}

/// One event of a read: its mask, the process that caused it, where its
/// information records start, and all its bytes.
#[derive(Debug, Clone, PartialEq, Eq)]
pub struct FanEvent {
    pub mask: u64,
    pub pid: i32,
    pub metadata_len: u16,
    pub bytes: Vec<u8>,
}

/// An event as values.
pub struct EventView {
    pub mask: u64,
    pub pid: i32,
    pub metadata_len: u16,
    pub bytes: Seq<u8>,
}

impl View for FanEvent {
    type V = EventView;

    open spec fn view(&self) -> EventView {
        EventView { mask: self.mask, pid: self.pid, metadata_len: self.metadata_len, bytes: self.bytes@ }
    }
}

/// Whether an event starts at `at`: its metadata is there and its length
/// covers the metadata and stays inside `b`.
pub open spec fn event_ok(b: Seq<u8>, at: int) -> bool {
    &&& 0 <= at
    &&& at + METADATA_LEN <= b.len()
    &&& u32_at(b, at) >= METADATA_LEN
    &&& at + u32_at(b, at) <= b.len()
}

/// The event at `at`.
pub open spec fn event_view(b: Seq<u8>, at: int) -> EventView {
    EventView {
        mask: u64_at(b, at + 8),
        pid: u32_at(b, at + 20) as i32,
        metadata_len: u16_at(b, at + 6),
        bytes: b.subrange(at, at + u32_at(b, at)),
    }
}

/// The events of a read from `at` on, up to the first that does not fit.
pub open spec fn events_from(b: Seq<u8>, at: int) -> Seq<EventView>
    decreases b.len() - at,
{
    if event_ok(b, at) {
        seq![event_view(b, at)] + events_from(b, at + u32_at(b, at))
    } else {
        Seq::empty()
    }
}

/// The events of one read of the group, up to the first that does not fit.
pub fn events(b: &[u8]) -> (found: Vec<FanEvent>)
    ensures
        found@.map_values(|e: FanEvent| e@) == events_from(b@, 0),
{
    let n = b.len();
    let mut found: Vec<FanEvent> = Vec::new();
    let mut at: usize = 0;
    while at <= n && n - at >= METADATA_LEN && read32(b, at) as usize >= METADATA_LEN && (read32(b, at) as usize)
        <= n - at
        invariant
            at <= n,
            n == b@.len(),
            found@.map_values(|e: FanEvent| e@) + events_from(b@, at as int) == events_from(b@, 0),
        decreases n - at,
    {
        let len = read32(b, at) as usize;
        let mut bytes: Vec<u8> = Vec::new();
        let mut i: usize = at;
        while i < at + len
            invariant
                at <= i <= at + len <= n,
                n == b@.len(),
                bytes@ == b@.subrange(at as int, i as int),
            decreases at + len - i,
        {
            bytes.push(b[i]);
            assert(bytes@ =~= b@.subrange(at as int, i + 1));
            i = i + 1;
        }
        let event = FanEvent {
            mask: read64(b, at + 8),
            pid: read32(b, at + 20) as i32,
            metadata_len: read16(b, at + 6),
            bytes,
        };
        let ghost before = found@.map_values(|e: FanEvent| e@);
        found.push(event);
        proof {
            assert(found@.map_values(|e: FanEvent| e@) =~= before.push(event_view(b@, at as int)));
            assert(events_from(b@, at as int) == seq![event_view(b@, at as int)] + events_from(b@, at + len));
            assert(found@.map_values(|e: FanEvent| e@) + events_from(b@, at + len) =~= before + events_from(
                b@,
                at as int,
            ));
        }
        at = at + len;
    }
    proof {
        assert(events_from(b@, at as int) =~= Seq::<EventView>::empty());
        assert(found@.map_values(|e: FanEvent| e@) =~= events_from(b@, 0));
    }
    found
}

/// Whether an information record's header at `at` is whole and its length
/// covers the header and stays inside the event.
pub open spec fn info_ok(e: Seq<u8>, at: int) -> bool {
    &&& 0 <= at
    &&& at + INFO_HEADER_LEN <= e.len()
    &&& u16_at(e, at + 2) >= INFO_HEADER_LEN
    &&& at + u16_at(e, at + 2) <= e.len()
}

/// Where the first record of type `wanted` starts, from `at` on; `None` when
/// a malformed header comes first or there is none.
pub open spec fn side_at(e: Seq<u8>, at: int, wanted: u8) -> Option<int>
    decreases e.len() - at,
{
    if at < 0 || at + INFO_HEADER_LEN > e.len() || !info_ok(e, at) {
        None
    } else if e[at] == wanted {
        Some(at)
    } else {
        side_at(e, at + u16_at(e, at + 2), wanted)
    }
}

/// The record of type `wanted` in an event, as its start and length: one
/// side of a rename, which comes as an old and a new record.
pub fn side(e: &[u8], metadata_len: u16, wanted: u8) -> (r: Option<(usize, usize)>)
    ensures
        (match r {
            Some((start, _)) => Some(start as int),
            None => None,
        }) == side_at(e@, metadata_len as int, wanted),
        r matches Some((start, len)) ==> len == u16_at(e@, start + 2) && start + len <= e@.len(),
{
    let n = e.len();
    let mut at: usize = metadata_len as usize;
    while at <= n && n - at >= INFO_HEADER_LEN
        invariant
            n == e@.len(),
            side_at(e@, at as int, wanted) == side_at(e@, metadata_len as int, wanted),
        decreases n - at,
    {
        let len = read16(e, at + 2) as usize;
        if len < INFO_HEADER_LEN || len > n - at {
            return None;
        }
        if e[at] == wanted {
            return Some((at, len));
        }
        at = at + len;
    }
    None
}

/// The records that can name an event's object, in order: the named ones
/// (`DFID_NAME`, a directory handle plus a name) and the fallbacks (`FID`,
/// the object's own handle, and — only when the object is a directory —
/// `DFID`). The walk stops at the first malformed header.
pub open spec fn path_records(e: Seq<u8>, at: int, on_directory: bool) -> (Seq<int>, Seq<int>)
    decreases e.len() - at,
{
    if at < 0 || at + INFO_HEADER_LEN > e.len() || !info_ok(e, at) {
        (Seq::empty(), Seq::empty())
    } else {
        let rest = path_records(e, at + u16_at(e, at + 2), on_directory);
        if e[at] == INFO_DFID_NAME {
            (seq![at] + rest.0, rest.1)
        } else if e[at] == INFO_FID || (e[at] == INFO_DFID && on_directory) {
            (rest.0, seq![at] + rest.1)
        } else {
            rest
        }
    }
}

/// The records that can name an event's object, as start and length: the
/// named ones and the fallbacks. The object's path is the first named
/// record that resolves, else the first fallback that does — after a
/// delete, the object's own handle no longer opens, so a name is preferred.
pub fn candidates(e: &[u8], metadata_len: u16, on_directory: bool) -> (r: (Vec<(usize, usize)>, Vec<(usize, usize)>))
    ensures
        r.0@.map_values(|p: (usize, usize)| p.0 as int) == path_records(e@, metadata_len as int, on_directory).0,
        r.1@.map_values(|p: (usize, usize)| p.0 as int) == path_records(e@, metadata_len as int, on_directory).1,
        forall|i: int| 0 <= i < r.0@.len() ==> r.0@[i].1 == u16_at(e@, r.0@[i].0 + 2) && r.0@[i].0 + r.0@[i].1 <= e@.len(),
        forall|i: int| 0 <= i < r.1@.len() ==> r.1@[i].1 == u16_at(e@, r.1@[i].0 + 2) && r.1@[i].0 + r.1@[i].1 <= e@.len(),
{
    let n = e.len();
    let mut named: Vec<(usize, usize)> = Vec::new();
    let mut fallback: Vec<(usize, usize)> = Vec::new();
    let mut at: usize = metadata_len as usize;
    loop
        invariant
            n == e@.len(),
            named@.map_values(|p: (usize, usize)| p.0 as int) + path_records(e@, at as int, on_directory).0
                == path_records(e@, metadata_len as int, on_directory).0,
            fallback@.map_values(|p: (usize, usize)| p.0 as int) + path_records(e@, at as int, on_directory).1
                == path_records(e@, metadata_len as int, on_directory).1,
            forall|i: int| 0 <= i < named@.len() ==> named@[i].1 == u16_at(e@, named@[i].0 + 2) && named@[i].0 + named@[i].1 <= e@.len(),
            forall|i: int| 0 <= i < fallback@.len() ==> fallback@[i].1 == u16_at(e@, fallback@[i].0 + 2) && fallback@[i].0 + fallback@[i].1 <= e@.len(),
        ensures
            path_records(e@, at as int, on_directory).0 =~= Seq::<int>::empty(),
            path_records(e@, at as int, on_directory).1 =~= Seq::<int>::empty(),
        decreases n - at,
    {
        if at > n || n - at < INFO_HEADER_LEN {
            break;
        }
        let len = read16(e, at + 2) as usize;
        if len < INFO_HEADER_LEN || len > n - at {
            break;
        }
        let ghost (named_before, fallback_before) = (
            named@.map_values(|p: (usize, usize)| p.0 as int),
            fallback@.map_values(|p: (usize, usize)| p.0 as int),
        );
        let ghost rest = path_records(e@, at + len, on_directory);
        if e[at] == INFO_DFID_NAME {
            named.push((at, len));
            assert(named@.map_values(|p: (usize, usize)| p.0 as int) =~= named_before.push(at as int));
            assert(named_before.push(at as int) + rest.0 =~= named_before + (seq![at as int] + rest.0));
        } else if e[at] == INFO_FID || (e[at] == INFO_DFID && on_directory) {
            fallback.push((at, len));
            assert(fallback@.map_values(|p: (usize, usize)| p.0 as int) =~= fallback_before.push(at as int));
            assert(fallback_before.push(at as int) + rest.1 =~= fallback_before + (seq![at as int] + rest.1));
        }
        at = at + len;
    }
    (named, fallback)
}

/// The bytes before the first zero, or all of them.
pub open spec fn until_nul(s: Seq<u8>) -> Seq<u8>
    decreases s.len(),
{
    if s.len() == 0 || s[0] == 0 { Seq::empty() } else { seq![s[0]] + until_nul(s.skip(1)) }
}

/// What an information record names an object by (`struct
/// fanotify_event_info_fid`: a 4-byte header, an 8-byte fsid, a `struct
/// file_handle`, and, for the named types, the NUL-terminated name right
/// after the handle's bytes): the `file_handle` itself — its byte count,
/// type and bytes — and the name, empty for a record without one. `None`
/// when the record is too short for what it says it holds.
pub open spec fn handle_of(r: Seq<u8>, named: bool) -> Option<(Seq<u8>, Seq<u8>)> {
    if r.len() < 16 {
        None
    } else {
        let end = 20 + u32_at(r, 12);
        if end > r.len() {
            None
        } else {
            Some((r.subrange(12, end), if named { until_nul(r.skip(end)) } else { Seq::empty() }))
        }
    }
}

/// The file handle an information record holds and the name that follows it
/// (empty unless `named`).
pub fn handle(record: &[u8], named: bool) -> (r: Option<(Vec<u8>, Vec<u8>)>)
    ensures
        (match r {
            Some((h, name)) => Some((h@, name@)),
            None => None,
        }) == handle_of(record@, named),
{
    let n = record.len();
    if n < 16 {
        return None;
    }
    let count = read32(record, 12);
    if (count as u64) + 20 > n as u64 {
        return None;
    }
    let end: usize = count as usize + 20;
    let mut h: Vec<u8> = Vec::new();
    let mut i: usize = 12;
    while i < end
        invariant
            12 <= i <= end <= n,
            n == record@.len(),
            h@ == record@.subrange(12, i as int),
        decreases end - i,
    {
        h.push(record[i]);
        assert(h@ =~= record@.subrange(12, i + 1));
        i = i + 1;
    }
    let mut name: Vec<u8> = Vec::new();
    if named {
        let mut j: usize = end;
        while j < n && record[j] != 0
            invariant
                end <= j <= n,
                n == record@.len(),
                name@ + until_nul(record@.skip(j as int)) == until_nul(record@.skip(end as int)),
            decreases n - j,
        {
            let ghost rest = record@.skip(j as int);
            assert(rest[0] == record@[j as int]);
            assert(rest.skip(1) =~= record@.skip(j + 1));
            let ghost before = name@;
            name.push(record[j]);
            assert(name@ + until_nul(record@.skip(j + 1)) =~= before + until_nul(rest));
            j = j + 1;
        }
        proof {
            let rest = record@.skip(j as int);
            if j < n {
                assert(rest[0] == record@[j as int]);
            }
            assert(until_nul(rest) =~= Seq::<u8>::empty());
            assert(name@ =~= until_nul(record@.skip(end as int)));
        }
    } else {
        assert(name@ =~= Seq::<u8>::empty());
    }
    Some((h, name))
}

/// What an event of a read is: a lost queue, a rename with both sides, or a
/// change to one object.
#[derive(Debug, Clone, Copy, PartialEq, Eq, Structural)]
pub enum EventClass {
    Overflow,
    Rename,
    Change,
}

/// The class of an event with `mask`.
pub open spec fn class_of(mask: u64) -> EventClass {
    if mask & Q_OVERFLOW != 0 {
        EventClass::Overflow
    } else if mask & RENAME != 0 {
        EventClass::Rename
    } else {
        EventClass::Change
    }
}

/// The class of an event with `mask`.
pub fn classify(mask: u64) -> (c: EventClass)
    ensures
        c == class_of(mask),
{
    if mask & Q_OVERFLOW != 0 {
        EventClass::Overflow
    } else if mask & RENAME != 0 {
        EventClass::Rename
    } else {
        EventClass::Change
    }
}

/// A path a handle resolved to: its spelling, replacing what is not UTF-8,
/// and whether that spelling is exact.
pub open spec fn resolved_view(p: Option<(String, bool)>) -> Option<(Seq<char>, bool)> {
    match p {
        Some((text, exact)) => Some((text@, exact)),
        None => None,
    }
}

/// What a rename from `from` to `to` reports for a watch of `root`, under
/// event ID `id`: a side that did not resolve, or that is not UTF-8, is a
/// gap, not half a rename; a move out of the root is a departure, one in an
/// arrival, and one that touches the root nowhere is nothing.
pub open spec fn rename_reports(root: Seq<char>, from: Option<(Seq<char>, bool)>, to: Option<(Seq<char>, bool)>, id: u64) -> Seq<ReportView> {
    match (from, to) {
        (Some((f, f_exact)), Some((t, t_exact))) => {
            if !f_exact || !t_exact {
                seq![ReportView::Gap(id)]
            } else if inside(root, normalized(t)) {
                seq![ReportView::Changed(KindView::Renamed(Some(normalized(f))), t, id)]
            } else if inside(root, normalized(f)) {
                seq![ReportView::Changed(KindView::Deleted, f, id)]
            } else {
                Seq::empty()
            }
        },
        _ => seq![ReportView::Gap(id)],
    }
}

/// What a rename reports, under event ID `id`.
pub fn renamed(root: &str, from: Option<(String, bool)>, to: Option<(String, bool)>, id: u64) -> (out: Vec<Report>)
    ensures
        report_views(out@) == rename_reports(root@, resolved_view(from), resolved_view(to), id),
{
    let mut out: Vec<Report> = Vec::new();
    match (from, to) {
        (Some((f, f_exact)), Some((t, t_exact))) => {
            let to_inside = crate::paths::is_inside(root, crate::paths::normalize(t.as_str()).as_str());
            let from_inside = crate::paths::is_inside(root, crate::paths::normalize(f.as_str()).as_str());
            if !f_exact || !t_exact {
                out.push(Report::Gap { event_id: id });
            } else if to_inside {
                let previous = crate::paths::normalize(f.as_str());
                out.push(Report::Changed { kind: ChangeKind::Renamed { previous_path: Some(previous) }, path: t, event_id: id });
            } else if from_inside {
                out.push(Report::Changed { kind: ChangeKind::Deleted, path: f, event_id: id });
            }
        },
        _ => {
            out.push(Report::Gap { event_id: id });
        },
    }
    assert(report_views(out@) =~= rename_reports(root@, resolved_view(from), resolved_view(to), id));
    out
}

/// What a change to one object reports for a watch of `root`, its kinds
/// numbered from `first`: an object that did not resolve is a gap; one
/// outside the root is nothing; one inside whose path is not UTF-8 is a gap,
/// since a lossy spelling would name a different file.
pub open spec fn change_reports(root: Seq<char>, mask: u64, path: Option<(Seq<char>, bool)>, first: u64) -> Seq<ReportView> {
    match path {
        None => seq![ReportView::Gap(first)],
        Some((p, exact)) => {
            if !inside(root, normalized(p)) {
                Seq::empty()
            } else if !exact {
                seq![ReportView::Gap(first)]
            } else {
                Seq::new(kinds_of(mask).len(), |i: int| ReportView::Changed(kind_view(kinds_of(mask)[i]), p, (first + i) as u64))
            }
        },
    }
}

/// What a change to one object reports, numbered from `first`; the IDs stay
/// below `u64::MAX`.
pub fn changed(root: &str, mask: u64, path: Option<(String, bool)>, first: u64) -> (out: Vec<Report>)
    requires
        first <= u64::MAX - 4,
    ensures
        report_views(out@) == change_reports(root@, mask, resolved_view(path), first),
{
    let mut out: Vec<Report> = Vec::new();
    match path {
        None => {
            out.push(Report::Gap { event_id: first });
        },
        Some((p, exact)) => {
            if !crate::paths::is_inside(root, crate::paths::normalize(p.as_str()).as_str()) {
            } else if !exact {
                out.push(Report::Gap { event_id: first });
            } else {
                let found = kinds(mask);
                let mut k: usize = 0;
                while k < found.len()
                    invariant
                        k <= found@.len(),
                        found@ == kinds_of(mask),
                        found@.len() <= 4,
                        first <= u64::MAX - 4,
                        report_views(out@) == Seq::new(
                            k as nat,
                            |i: int| ReportView::Changed(kind_view(kinds_of(mask)[i]), p@, (first + i) as u64),
                        ),
                    decreases found@.len() - k,
                {
                    let ghost before = report_views(out@);
                    let kind = found[k].copy();
                    let at = p.clone();
                    out.push(Report::Changed { kind, path: at, event_id: first + k as u64 });
                    assert(report_views(out@) =~= before.push(
                        ReportView::Changed(kind_view(found@[k as int]), p@, (first + k) as u64),
                    ));
                    assert(report_views(out@) =~= Seq::new(
                        (k + 1) as nat,
                        |i: int| ReportView::Changed(kind_view(kinds_of(mask)[i]), p@, (first + i) as u64),
                    ));
                    k = k + 1;
                }
            }
        },
    }
    assert(report_views(out@) =~= change_reports(root@, mask, resolved_view(path), first));
    out
}

} // verus!
