//! FSEvents: what a macOS event's flags mean for the watch. The mapping
//! mirrors the one the Swift host has always used, so both hosts read one
//! stream the same way.

use vstd::prelude::*;

use crate::chars::trim_end;
use crate::monitor::{ChangeKind, KindView, Report, ReportView};

verus! {

/// Event flags (`kFSEventStreamEventFlag*`).
pub const MUST_SCAN_SUB_DIRS: u32 = 0x0001;
pub const USER_DROPPED: u32 = 0x0002;
pub const KERNEL_DROPPED: u32 = 0x0004;
pub const IDS_WRAPPED: u32 = 0x0008;
pub const HISTORY_DONE: u32 = 0x0010;
pub const ROOT_CHANGED: u32 = 0x0020;
pub const MOUNT: u32 = 0x0040;
pub const UNMOUNT: u32 = 0x0080;
pub const ITEM_CREATED: u32 = 0x0100;
pub const ITEM_REMOVED: u32 = 0x0200;
pub const ITEM_RENAMED: u32 = 0x0800;

/// Every flag that says events were lost or the tree changed under the
/// stream: the host has to rescan.
pub const RESCAN_FLAGS: u32 = MUST_SCAN_SUB_DIRS | USER_DROPPED | KERNEL_DROPPED | IDS_WRAPPED | ROOT_CHANGED | MOUNT
    | UNMOUNT;

/// The kind of change an item event with `flags` reports: a removal wins
/// over a rename, a rename over a creation, and anything else is a
/// modification.
pub open spec fn item_kind(flags: u32) -> KindView {
    if flags & ITEM_REMOVED != 0 {
        KindView::Deleted
    } else if flags & ITEM_RENAMED != 0 {
        KindView::Renamed(None)
    } else if flags & ITEM_CREATED != 0 {
        KindView::Created
    } else {
        KindView::Modified
    }
}

/// What one FSEvents event reports: the end of the replay, a rescan, or a
/// change at its path without trailing slashes.
pub open spec fn report_of(flags: u32, path: Seq<char>, event_id: u64) -> ReportView {
    if flags & HISTORY_DONE != 0 {
        ReportView::CaughtUp(event_id)
    } else if flags & RESCAN_FLAGS != 0 {
        ReportView::Gap(event_id)
    } else {
        ReportView::Changed(item_kind(flags), trim_end(path, '/'), event_id)
    }
}

/// What one FSEvents event reports.
pub fn dispatch(flags: u32, path: &str, event_id: u64) -> (r: Report)
    ensures
        r@ == report_of(flags, path@, event_id),
{
    if flags & HISTORY_DONE != 0 {
        return Report::CaughtUp { event_id };
    }
    if flags & RESCAN_FLAGS != 0 {
        return Report::Gap { event_id };
    }
    let kind = if flags & ITEM_REMOVED != 0 {
        ChangeKind::Deleted
    } else if flags & ITEM_RENAMED != 0 {
        ChangeKind::Renamed { previous_path: None }
    } else if flags & ITEM_CREATED != 0 {
        ChangeKind::Created
    } else {
        ChangeKind::Modified
    };
    let chars = crate::chars::chars_of(path);
    let trimmed = crate::chars::trimmed_end(chars.as_slice(), '/');
    Report::Changed { kind, path: crate::chars::string_of(trimmed.as_slice()), event_id }
}

} // verus!
