//! The portable watcher: what a `notify` event means for the watch, and when
//! the watched root has to be checked for having become something else.
//!
//! The host turns each `notify` event into a [`NotifyEvent`] — its kind, as
//! far as this watch tells kinds apart, and its paths — and hands it here.

use vstd::prelude::*;

use crate::measurement::{IdView, ObjectIdentity};
use crate::monitor::{kind_view, report_views, ChangeKind, KindView, Report, ReportView};
use crate::paths::normalized;

verus! {

/// What this watch tells apart in a `notify` event kind.
#[derive(Debug, Clone, Copy, PartialEq, Eq, Structural)]
pub enum NotifyKind {
    /// A read; nothing changed.
    Access,
    Create,
    Remove,
    /// A name change; `both` when the event carries both sides of it.
    Name { both: bool },
    /// Any other change to an object, or an event of no known kind.
    Modify,
}

/// One `notify` event: its kind, its paths — `None` for one that is not
/// UTF-8 — and whether the backend says events were lost.
#[derive(Debug, Clone, PartialEq, Eq)]
pub struct NotifyEvent {
    pub kind: NotifyKind,
    pub paths: Vec<Option<String>>,
    pub need_rescan: bool,
}

/// The paths of an event as values.
pub open spec fn paths_of(paths: Seq<Option<String>>) -> Seq<Option<Seq<char>>> {
    paths.map_values(|p: Option<String>| match p {
        Some(s) => Some(s@),
        None => None,
    })
}

/// A change of `kind` at each of `paths`, all under one event ID.
pub open spec fn each(kind: KindView, paths: Seq<Option<Seq<char>>>, id: u64) -> Seq<ReportView> {
    paths.map_values(|p: Option<Seq<char>>| ReportView::Changed(kind, p->0, id))
}

/// What one `notify` event reports for a watch of `root` (normalized),
/// under event ID `id`. A backend error, lost events, or a path that is not
/// UTF-8 is a gap: a lossy spelling would name another file. A removal or
/// rename of the root itself is a gap too — the kernel drops the watch right
/// after, and the stream would stay open and silent. Otherwise every path is
/// one change of the event's kind; a rename with both sides is one move.
pub open spec fn forwarded(root: Seq<char>, event: Option<(NotifyKind, Seq<Option<Seq<char>>>, bool)>, id: u64) -> Seq<ReportView> {
    match event {
        None => seq![ReportView::Gap(id)],
        Some((kind, paths, need_rescan)) => {
            if need_rescan || exists|i: int| 0 <= i < paths.len() && paths[i] is None {
                seq![ReportView::Gap(id)]
            } else if (kind == NotifyKind::Remove || kind is Name) && exists|i: int|
                0 <= i < paths.len() && normalized(paths[i]->0) == root {
                seq![ReportView::Gap(id)]
            } else {
                match kind {
                    NotifyKind::Access => Seq::empty(),
                    NotifyKind::Create => each(KindView::Created, paths, id),
                    NotifyKind::Remove => each(KindView::Deleted, paths, id),
                    NotifyKind::Name { both } => if both && paths.len() == 2 {
                        seq![ReportView::Changed(KindView::Renamed(Some(normalized(paths[0]->0))), paths[1]->0, id)]
                    } else {
                        each(KindView::Renamed(None), paths, id)
                    },
                    NotifyKind::Modify => each(KindView::Modified, paths, id),
                }
            }
        },
    }
}

/// The view of an event handed to [`forward`].
pub open spec fn event_view(event: Option<NotifyEvent>) -> Option<(NotifyKind, Seq<Option<Seq<char>>>, bool)> {
    match event {
        Some(e) => Some((e.kind, paths_of(e.paths@), e.need_rescan)),
        None => None,
    }
}

fn each_path(kind: &ChangeKind, paths: &Vec<Option<String>>, id: u64) -> (out: Vec<Report>)
    requires
        forall|i: int| 0 <= i < paths@.len() ==> paths@[i] is Some,
    ensures
        report_views(out@) == each(kind_view(*kind), paths_of(paths@), id),
{
    let mut out: Vec<Report> = Vec::new();
    let mut i: usize = 0;
    while i < paths.len()
        invariant
            i <= paths@.len(),
            forall|j: int| 0 <= j < paths@.len() ==> paths@[j] is Some,
            report_views(out@) == each(kind_view(*kind), paths_of(paths@), id).take(i as int),
        decreases paths@.len() - i,
    {
        let path = match &paths[i] {
            Some(p) => p.clone(),
            None => String::new(),
        };
        let ghost before = report_views(out@);
        out.push(Report::Changed { kind: kind.copy(), path, event_id: id });
        assert(report_views(out@) =~= each(kind_view(*kind), paths_of(paths@), id).take(i + 1)) by {
            assert(report_views(out@) =~= before.push(ReportView::Changed(kind_view(*kind), paths@[i as int]->0@, id)));
        }
        i = i + 1;
    }
    assert(each(kind_view(*kind), paths_of(paths@), id).take(paths@.len() as int) =~= each(
        kind_view(*kind),
        paths_of(paths@),
        id,
    ));
    out
}

/// What one `notify` event reports for a watch of `root`; `None` is an
/// error the backend reported instead of an event.
pub fn forward(root: &str, event: Option<NotifyEvent>, id: u64) -> (out: Vec<Report>)
    ensures
        report_views(out@) == forwarded(root@, event_view(event), id),
{
    let mut out: Vec<Report> = Vec::new();
    let e = match event {
        None => {
            out.push(Report::Gap { event_id: id });
            assert(report_views(out@) =~= seq![ReportView::Gap(id)]);
            return out;
        },
        Some(e) => e,
    };
    let ghost paths = paths_of(e.paths@);
    let mut unspellable = false;
    let mut at_root = false;
    let mut i: usize = 0;
    while i < e.paths.len()
        invariant
            i <= e.paths@.len(),
            paths == paths_of(e.paths@),
            unspellable == exists|j: int| 0 <= j < i && paths[j] is None,
            !unspellable ==> (at_root == exists|j: int| 0 <= j < i && normalized(paths[j]->0) == root@),
        decreases e.paths@.len() - i,
    {
        let ghost was_unspellable = unspellable;
        let ghost was_at_root = at_root;
        proof {
            assert(paths[i as int] == (match e.paths@[i as int] {
                Some(s) => Some(s@),
                None => None,
            }));
        }
        match &e.paths[i] {
            None => {
                unspellable = true;
            },
            Some(p) => {
                let spelled = crate::paths::normalize(p.as_str());
                let same = crate::chars::same(
                    crate::chars::chars_of(spelled.as_str()).as_slice(),
                    crate::chars::chars_of(root).as_slice(),
                );
                if same {
                    at_root = true;
                }
            },
        }
        proof {
            if paths[i as int] is None {
                assert(0 <= i < i + 1 && paths[i as int] is None);
            } else {
                assert((exists|j: int| 0 <= j < i + 1 && paths[j] is None) == (exists|j: int|
                    0 <= j < i && paths[j] is None)) by {
                    if exists|j: int| 0 <= j < i + 1 && paths[j] is None {
                        let j = choose|j: int| 0 <= j < i + 1 && paths[j] is None;
                        assert(j < i);
                    }
                }
                if normalized(paths[i as int]->0) == root@ {
                    assert(0 <= i < i + 1 && normalized(paths[i as int]->0) == root@);
                } else {
                    assert((exists|j: int| 0 <= j < i + 1 && normalized(paths[j]->0) == root@) == (exists|j: int|
                        0 <= j < i && normalized(paths[j]->0) == root@)) by {
                        if exists|j: int| 0 <= j < i + 1 && normalized(paths[j]->0) == root@ {
                            let j = choose|j: int| 0 <= j < i + 1 && normalized(paths[j]->0) == root@;
                            assert(j < i);
                        }
                    }
                }
            }
        }
        i = i + 1;
    }
    proof {
        if !unspellable {
            assert forall|j: int| 0 <= j < e.paths@.len() implies e.paths@[j] is Some by {
                assert(paths[j] == (match e.paths@[j] {
                    Some(s) => Some(s@),
                    None => None,
                }));
            }
        }
    }
    if e.need_rescan || unspellable {
        out.push(Report::Gap { event_id: id });
        assert(report_views(out@) =~= seq![ReportView::Gap(id)]);
        return out;
    }
    let names_root = match e.kind {
        NotifyKind::Remove => true,
        NotifyKind::Name { .. } => true,
        _ => false,
    };
    if names_root && at_root {
        out.push(Report::Gap { event_id: id });
        assert(report_views(out@) =~= seq![ReportView::Gap(id)]);
        return out;
    }
    match e.kind {
        NotifyKind::Access => {
            assert(report_views(out@) =~= Seq::<ReportView>::empty());
            out
        },
        NotifyKind::Create => each_path(&ChangeKind::Created, &e.paths, id),
        NotifyKind::Remove => each_path(&ChangeKind::Deleted, &e.paths, id),
        NotifyKind::Name { both } => {
            if both && e.paths.len() == 2 {
                let from = match &e.paths[0] {
                    Some(p) => crate::paths::normalize(p.as_str()),
                    None => String::new(),
                };
                let to = match &e.paths[1] {
                    Some(p) => p.clone(),
                    None => String::new(),
                };
                out.push(Report::Changed { kind: ChangeKind::Renamed { previous_path: Some(from) }, path: to, event_id: id });
                assert(report_views(out@) =~= forwarded(root@, event_view(Some(e)), id));
                out
            } else {
                each_path(&ChangeKind::Renamed { previous_path: None }, &e.paths, id)
            }
        },
        NotifyKind::Modify => each_path(&ChangeKind::Modified, &e.paths, id),
    }
}

/// How often the root is re-checked at most, in milliseconds. Event-driven,
/// not a timer: a watch nothing is happening in asks nothing of the disk.
pub const ROOT_CHECK_EVERY_MS: u64 = 1000;

/// Whether the configured path still names the directory the watch opened
/// on. A renamed root keeps delivering events, every path in them the old
/// spelling, and nothing else says the watch has moved: a silently wrong
/// history, which is worse than a reported gap.
pub struct RootCheck {
    /// What the root was when the watch opened; `None` when the filesystem
    /// would not say, and then only disappearance is detectable.
    identity: Option<ObjectIdentity>,
    /// Latched: once reported, repeating it every second would bury it.
    reported: bool,
    due_ms: u64,
}

/// A root check as values.
pub struct RootCheckView {
    pub identity: Option<IdView>,
    pub reported: bool,
    pub due_ms: u64,
}

impl View for RootCheck {
    type V = RootCheckView;

    closed spec fn view(&self) -> RootCheckView {
        RootCheckView {
            identity: match self.identity {
                Some(i) => Some(i.id()),
                None => None,
            },
            reported: self.reported,
            due_ms: self.due_ms,
        }
    }
}

/// Whether the root has to be looked at now.
pub open spec fn due_at(c: RootCheckView, now_ms: u64) -> bool {
    !c.reported && now_ms >= c.due_ms
}

/// Whether a look at the root at `now_ms` that found `current` — `None`
/// when the root could not be read — means it drifted: unreadable counts, so
/// does another object, and a root whose identity was never known only
/// drifts by disappearing.
pub open spec fn drifted_to(c: RootCheckView, current: Option<Option<IdView>>) -> bool {
    match current {
        None => true,
        Some(now) => c.identity is Some && now != c.identity,
    }
}

impl RootCheck {
    /// A check of a root that was `identity` at `now_ms`.
    pub fn new(identity: Option<ObjectIdentity>, now_ms: u64) -> (c: RootCheck)
        ensures
            c@.identity == (match identity {
                Some(i) => Some(i.id()),
                None => None,
            }),
            !c@.reported,
            c@.due_ms == now_ms,
    {
        RootCheck { identity, reported: false, due_ms: now_ms }
    }

    /// Whether the root has to be looked at at `now_ms`.
    pub fn due(&self, now_ms: u64) -> (r: bool)
        ensures
            r == due_at(self@, now_ms),
    {
        !self.reported && now_ms >= self.due_ms
    }

    /// True once, when a look at the root that was due at `now_ms` found it
    /// gone or another directory. `current` is what the look found.
    pub fn drifted(&mut self, now_ms: u64, current: Option<Option<ObjectIdentity>>) -> (r: bool)
        ensures
            !due_at(old(self)@, now_ms) ==> !r && final(self)@ == old(self)@,
            due_at(old(self)@, now_ms) ==> r == drifted_to(
                old(self)@,
                match current {
                    Some(Some(i)) => Some(Some(i.id())),
                    Some(None) => Some(None),
                    None => None,
                },
            ) && final(self)@.reported == r && final(self)@.identity == old(self)@.identity
                && final(self)@.due_ms == (if now_ms > u64::MAX - ROOT_CHECK_EVERY_MS { u64::MAX } else { (now_ms + ROOT_CHECK_EVERY_MS) as u64 }),
    {
        if !self.due(now_ms) {
            return false;
        }
        self.due_ms = now_ms.saturating_add(ROOT_CHECK_EVERY_MS);
        let drifted = match current {
            None => true,
            Some(now) => match (&self.identity, &now) {
                (Some(before), Some(after)) => !before.same(after),
                (Some(_), None) => true,
                (None, _) => false,
            },
        };
        self.reported = drifted;
        drifted
    }
}

} // verus!
