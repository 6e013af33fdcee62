use vstd::prelude::*;

pub mod anomaly;
pub mod autostart;
pub mod attribution;
pub mod baseline;
pub mod chars;
pub mod crypt;
pub mod event;
pub mod evidence;
pub mod exclusion;
pub mod fanotify;
pub mod file_url;
pub mod fsevents;
pub mod export;
pub mod history;
pub mod journal;
pub mod measurement;
pub mod num;
pub mod order;
pub mod monitor;
pub mod notify_backend;
pub mod paths;
pub mod recording;
pub mod presets;
pub mod renames;
pub mod snapshot;
pub mod text;
pub mod store;
pub mod uninstall;
pub mod usn;
pub mod walk;
pub mod watch;

pub use attribution::{ActivityAttributor, AggregationOptions, Attributor, SizeIndex, SizeLookup};
pub use event::{ActivityEvent, Confidence, EventKind};
pub use exclusion::ExclusionFilter;
pub use history::{HistoryBucket, HistorySnapshot};
pub use monitor::{ActivityListener, Capabilities, Change, ChangeKind, StreamEvent};

verus! {

/// What went wrong, for a caller that shows it to a person.
#[derive(Debug, Clone, PartialEq, Eq)]
pub enum CoreError {
    /// Reading or writing a file failed.
    Io { message: String },
    /// Text was not what it had to be: a journal line, a pattern, a setting.
    Encoding { message: String },
    /// The operating system would not watch a folder.
    Watch { message: String },
}

/// The line a [`CoreError`] is shown as: its kind, then what went wrong.
pub open spec fn error_text(e: CoreError) -> Seq<char> {
    match e {
        CoreError::Io { message } => "I/O error: "@ + message@,
        CoreError::Encoding { message } => "encoding error: "@ + message@,
        CoreError::Watch { message } => "watch error: "@ + message@,
    }
}

impl CoreError {
    /// The line this error is shown as.
    pub fn message(&self) -> (m: String)
        ensures
            m@ == error_text(*self),
    {
        let (head, detail) = match self {
            CoreError::Io { message } => ("I/O error: ", message),
            CoreError::Encoding { message } => ("encoding error: ", message),
            CoreError::Watch { message } => ("watch error: ", message),
        };
        let mut out = crate::chars::chars_of(head);
        crate::chars::push_str(&mut out, detail.as_str());
        proof {
            reveal_strlit("I/O error: ");
            reveal_strlit("encoding error: ");
            reveal_strlit("watch error: ");
        }
        crate::chars::string_of(out.as_slice())
    }
}


/// What hitting the per-user inotify watch limit is reported as, naming the
/// limit and its current value `limit`: what the kernel passes on is "No space
/// left on device", which sends people looking at their free disk.
pub open spec fn watch_limit_text(limit: Seq<char>) -> Seq<char> {
    "this folder has more directories than one user may watch at once (fs.inotify.max_user_watches is "@
        + limit
        + "). Watch a smaller folder, or raise the limit with `sudo sysctl -w fs.inotify.max_user_watches=<larger>`; Pathlight does not change system settings itself."@
}

impl CoreError {
    /// The error a watch reports when one user may not watch this many
    /// directories; `limit` is the current limit as the system spells it.
    pub fn watch_limit_reached(limit: &str) -> (e: CoreError)
        ensures
            e matches CoreError::Watch { message } && message@ == watch_limit_text(limit@),
    {
        let mut out = crate::chars::chars_of(
            "this folder has more directories than one user may watch at once (fs.inotify.max_user_watches is ",
        );
        crate::chars::push_str(&mut out, limit);
        crate::chars::push_str(
            &mut out,
            "). Watch a smaller folder, or raise the limit with `sudo sysctl -w fs.inotify.max_user_watches=<larger>`; Pathlight does not change system settings itself.",
        );
        CoreError::Watch { message: crate::chars::string_of(out.as_slice()) }
    }
}

} // verus!
