//! What a watcher reports: typed changes tagged with an event ID, plus the
//! markers that say history caught up or was lost.

use vstd::prelude::*;

use crate::event::Timestamp;

verus! {

#[derive(Debug, Clone, PartialEq, Eq)]
pub enum ChangeKind {
    Created,
    Modified,
    Deleted,
    Renamed { previous_path: Option<String> },
}

impl ChangeKind {
    /// A copy equal to `self`.
    pub fn copy(&self) -> (c: ChangeKind)
        ensures
            c == *self,
    {
        match self {
            ChangeKind::Created => ChangeKind::Created,
            ChangeKind::Modified => ChangeKind::Modified,
            ChangeKind::Deleted => ChangeKind::Deleted,
            ChangeKind::Renamed { previous_path } => ChangeKind::Renamed {
                previous_path: crate::event::copy_text(previous_path),
            },
        }
    }
}

#[derive(Debug, Clone, PartialEq)]
pub struct Change {
    pub kind: ChangeKind,
    pub path: String,
    pub root_path: String,
    pub timestamp: Timestamp,
    /// The program that made the change, when the backend could tell.
    pub process_name: Option<String>,
}

#[derive(Debug, Clone, PartialEq)]
pub enum StreamEvent {
    Change { change: Change, event_id: u64 },
    HistoryCaughtUp { event_id: u64 },
    RequiresRescan { event_id: u64 },
}

/// What a platform's watcher backend actually guarantees.
///
/// Backends are not equal, and papering over that costs accuracy. So each
/// backend declares what it can do and the host adapts to the declaration. A
/// platform is allowed to differ; it is not allowed to be wrong about how it
/// differs.
#[derive(Debug, Clone, Copy, PartialEq, Eq, Structural)]
pub struct Capabilities {
    /// Event IDs come from the kernel, so a stored cursor really resumes a
    /// previous session instead of silently starting over.
    pub resumable_cursor: bool,
    /// Pairs observed rename halves within the backend's matching window.
    pub pairs_renames: bool,
    /// Changes name the process responsible.
    pub reports_process: bool,
    /// Events can be lost under load; the backend says so with
    /// `RequiresRescan`.
    pub may_drop_events: bool,
}

/// A change kind as values: its previous path, for a rename, as characters.
pub enum KindView {
    Created,
    Modified,
    Deleted,
    Renamed(Option<Seq<char>>),
}

/// The view of a change kind.
pub open spec fn kind_view(k: ChangeKind) -> KindView {
    match k {
        ChangeKind::Created => KindView::Created,
        ChangeKind::Modified => KindView::Modified,
        ChangeKind::Deleted => KindView::Deleted,
        ChangeKind::Renamed { previous_path } => KindView::Renamed(
            match previous_path {
                Some(p) => Some(p@),
                None => None,
            },
        ),
    }
}

/// What a backend's reader has to tell its host, before the host stamps it
/// with the time and the root.
#[derive(Debug, Clone, PartialEq, Eq)]
pub enum Report {
    /// The replay reached the present.
    CaughtUp { event_id: u64 },
    /// Something changed that cannot be reported; the host rescans.
    Gap { event_id: u64 },
    /// A change of `kind` at `path`.
    Changed { kind: ChangeKind, path: String, event_id: u64 },
}

/// A report as values.
pub enum ReportView {
    CaughtUp(u64),
    Gap(u64),
    Changed(KindView, Seq<char>, u64),
}

impl View for Report {
    type V = ReportView;

    open spec fn view(&self) -> ReportView {
        match self {
            Report::CaughtUp { event_id } => ReportView::CaughtUp(*event_id),
            Report::Gap { event_id } => ReportView::Gap(*event_id),
            Report::Changed { kind, path, event_id } => ReportView::Changed(kind_view(*kind), path@, *event_id),
        }
    }
}

/// The views of `reports`, in order.
pub open spec fn report_views(reports: Seq<Report>) -> Seq<ReportView> {
    reports.map_values(|r: Report| r@)
}

/// Implemented by the host, which is handed every event a watcher reports.
pub trait ActivityListener {
    fn on_event(&self, event: StreamEvent);
}

/// Shared by backends: knows the root and forwards to the host's listener.
pub struct Emitter<L: ActivityListener> {
    root: String,
    listener: L,
}

impl<L: ActivityListener> Emitter<L> {
    /// The root of the watch, normalized.
    pub closed spec fn root_view(&self) -> Seq<char> {
        self.root@
    }

    /// The root of the watch.
    pub fn root(&self) -> (r: &str)
        ensures
            r@ == self.root_view(),
    {
        self.root.as_str()
    }

    /// An emitter for a watch on `root`, which is normalized once here.
    pub fn new(root: &str, listener: L) -> (e: Emitter<L>)
        ensures
            e.root_view() == crate::paths::normalized(root@),
    {
        Emitter { root: crate::paths::normalize(root), listener }
    }

    /// Hands `event` to the listener.
    pub fn emit(&self, event: StreamEvent) {
        self.listener.on_event(event);
    }

    /// The event for a change of `kind` at `path`, observed at `now`: the
    /// path normalized, under this emitter's root.
    pub fn change_event(&self, kind: ChangeKind, path: &str, event_id: u64, now: Timestamp) -> (e: StreamEvent)
        ensures
            e matches StreamEvent::Change { change, event_id: id } && id == event_id
                && change.kind == kind && change.path@ == crate::paths::normalized(path@)
                && change.root_path@ == self.root_view() && change.timestamp == now && change.process_name is None,
    {
        StreamEvent::Change {
            change: Change {
                kind,
                path: crate::paths::normalize(path),
                root_path: self.root.clone(),
                timestamp: now,
                process_name: None,
            },
            event_id,
        }
    }

    /// Hands the listener the event for a change of `kind` at `path`,
    /// observed at `now`.
    pub fn change(&self, kind: ChangeKind, path: &str, event_id: u64, now: Timestamp) {
        let event = self.change_event(kind, path, event_id, now);
        self.emit(event);
    }
}

} // verus!
