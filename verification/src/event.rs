//! Attributed activity events and the instant they are stamped with.

use vstd::prelude::*;


verus! {

#[derive(Debug, Clone, Copy, PartialEq, Eq, Structural)]
pub enum EventKind {
    Created,
    Modified,
    Deleted,
    Moved,
    Aggregate,
}

#[derive(Debug, Clone, Copy, PartialEq, Eq, Structural)]
pub enum Confidence {
    Confirmed,
    Estimated,
    Unknown,
}

/// An instant as whole seconds since the unix epoch and the nanoseconds past
/// that second. Instants before the epoch are not recorded.
#[derive(Debug, Clone, Copy, PartialEq, Eq, Structural)]
pub struct Timestamp {
    pub secs: u64,
    pub nanos: u32,
}

impl Timestamp {
    /// Nanoseconds since the epoch, as a number.
    pub open spec fn value(self) -> int {
        self.secs * 1_000_000_000 + self.nanos
    }

    /// Whether `self` is no later than `other`.
    pub open spec fn no_later_than(self, other: Timestamp) -> bool {
        self.secs < other.secs || (self.secs == other.secs && self.nanos <= other.nanos)
    }

    /// The instant `secs` whole seconds after the epoch.
    pub fn from_secs(secs: u64) -> (t: Timestamp)
        ensures
            t.secs == secs,
            t.nanos == 0,
    {
        Timestamp { secs, nanos: 0 }
    }

    /// Exec form of [`Timestamp::no_later_than`].
    pub fn is_no_later_than(&self, other: &Timestamp) -> (r: bool)
        ensures
            r == self.no_later_than(*other),
    {
        self.secs < other.secs || (self.secs == other.secs && self.nanos <= other.nanos)
    }

    /// Whole seconds from `self` until `later`, zero when `later` is not
    /// later.
    pub open spec fn seconds_until(self, later: Timestamp) -> nat {
        if !self.no_later_than(later) {
            0
        } else if later.nanos >= self.nanos {
            (later.secs - self.secs) as nat
        } else {
            (later.secs - self.secs - 1) as nat
        }
    }

    /// Exec form of [`Timestamp::seconds_until`].
    pub fn whole_seconds_until(&self, later: &Timestamp) -> (r: u64)
        ensures
            r == self.seconds_until(*later),
    {
        if !self.is_no_later_than(later) {
            0
        } else if later.nanos >= self.nanos {
            later.secs - self.secs
        } else {
            later.secs - self.secs - 1
        }
    }

    /// The start of the UTC day this instant falls in.
    pub open spec fn day_start_spec(self) -> Timestamp {
        Timestamp { secs: (self.secs / 86_400 * 86_400) as u64, nanos: 0 }
    }

    /// Exec form of [`Timestamp::day_start_spec`].
    pub fn day_start(&self) -> (t: Timestamp)
        ensures
            t == self.day_start_spec(),
    {
        Timestamp { secs: self.secs / 86_400 * 86_400, nanos: 0 }
    }
}

/// One recorded change with its byte delta. Paths are plain filesystem paths;
/// the JSON form converts them to `file://` URLs.
#[derive(Debug, Clone, PartialEq)]
pub struct ActivityEvent {
    pub kind: EventKind,
    pub path: String,
    pub root_path: String,
    pub timestamp: Timestamp,
    pub byte_delta: Option<i64>,
    pub confidence: Confidence,
    pub previous_path: Option<String>,
    pub affected_item_count: u32,
    /// The program that made the change, when the watcher could tell.
    pub process_name: Option<String>,
}

/// A copy of `text` that is equal to it.
pub fn copy_text(text: &Option<String>) -> (out: Option<String>)
    ensures
        out == *text,
{
    match text {
        Some(inner) => Some(inner.clone()),
        None => None,
    }
}

/// The name Swift gives a kind in its JSON (`{"created":{}}`).
pub open spec fn kind_case(kind: EventKind) -> Seq<char> {
    match kind {
        EventKind::Created => "created"@,
        EventKind::Modified => "modified"@,
        EventKind::Deleted => "deleted"@,
        EventKind::Moved => "moved"@,
        EventKind::Aggregate => "aggregate"@,
    }
}

/// The kind a case name stands for, if any.
pub open spec fn kind_named(name: Seq<char>) -> Option<EventKind> {
    if name == "created"@ {
        Some(EventKind::Created)
    } else if name == "modified"@ {
        Some(EventKind::Modified)
    } else if name == "deleted"@ {
        Some(EventKind::Deleted)
    } else if name == "moved"@ {
        Some(EventKind::Moved)
    } else if name == "aggregate"@ {
        Some(EventKind::Aggregate)
    } else {
        None
    }
}

/// The name Swift gives a confidence in its JSON.
pub open spec fn confidence_case(c: Confidence) -> Seq<char> {
    match c {
        Confidence::Confirmed => "confirmed"@,
        Confidence::Estimated => "estimated"@,
        Confidence::Unknown => "unknown"@,
    }
}

/// The confidence a case name stands for, if any.
pub open spec fn confidence_named(name: Seq<char>) -> Option<Confidence> {
    if name == "confirmed"@ {
        Some(Confidence::Confirmed)
    } else if name == "estimated"@ {
        Some(Confidence::Estimated)
    } else if name == "unknown"@ {
        Some(Confidence::Unknown)
    } else {
        None
    }
}

fn spelled(name: &str, word: &str) -> (r: bool)
    ensures
        r == (name@ == word@),
{
    let a = crate::chars::chars_of(name);
    let b = crate::chars::chars_of(word);
    crate::chars::same(a.as_slice(), b.as_slice())
}

impl EventKind {
    /// The name this kind is written with.
    pub fn case_name(&self) -> (name: &'static str)
        ensures
            name@ == kind_case(*self),
    {
        match self {
            EventKind::Created => "created",
            EventKind::Modified => "modified",
            EventKind::Deleted => "deleted",
            EventKind::Moved => "moved",
            EventKind::Aggregate => "aggregate",
        }
    }

    /// The kind written as `name`, or `None` for a name no kind has.
    pub fn from_case_name(name: &str) -> (kind: Option<EventKind>)
        ensures
            kind == kind_named(name@),
    {
        if spelled(name, "created") {
            Some(EventKind::Created)
        } else if spelled(name, "modified") {
            Some(EventKind::Modified)
        } else if spelled(name, "deleted") {
            Some(EventKind::Deleted)
        } else if spelled(name, "moved") {
            Some(EventKind::Moved)
        } else if spelled(name, "aggregate") {
            Some(EventKind::Aggregate)
        } else {
            None
        }
    }
}

impl Confidence {
    /// The name this confidence is written with.
    pub fn case_name(&self) -> (name: &'static str)
        ensures
            name@ == confidence_case(*self),
    {
        match self {
            Confidence::Confirmed => "confirmed",
            Confidence::Estimated => "estimated",
            Confidence::Unknown => "unknown",
        }
    }

    /// The confidence written as `name`, or `None` for a name none has.
    pub fn from_case_name(name: &str) -> (c: Option<Confidence>)
        ensures
            c == confidence_named(name@),
    {
        if spelled(name, "confirmed") {
            Some(Confidence::Confirmed)
        } else if spelled(name, "estimated") {
            Some(Confidence::Estimated)
        } else if spelled(name, "unknown") {
            Some(Confidence::Unknown)
        } else {
            None
        }
    }
}

/// Every kind and every confidence is read back as the one it was written
/// as.
pub proof fn case_names_read_back(kind: EventKind, c: Confidence)
    ensures
        kind_named(kind_case(kind)) == Some(kind),
        confidence_named(confidence_case(c)) == Some(c),
{
    reveal_strlit("created");
    reveal_strlit("modified");
    reveal_strlit("deleted");
    reveal_strlit("moved");
    reveal_strlit("aggregate");
    reveal_strlit("confirmed");
    reveal_strlit("estimated");
    reveal_strlit("unknown");
    match kind {
        EventKind::Created => {},
        EventKind::Modified => {
            assert("modified"@[0] != "created"@[0]);
        },
        EventKind::Deleted => {
            assert("deleted"@[0] != "created"@[0]);
            assert("deleted"@[0] != "modified"@[0]);
        },
        EventKind::Moved => {
            assert("moved"@[0] != "created"@[0]);
            assert("moved"@.len() != "modified"@.len());
            assert("moved"@[0] != "deleted"@[0]);
        },
        EventKind::Aggregate => {
            assert("aggregate"@[0] != "created"@[0]);
            assert("aggregate"@[0] != "modified"@[0]);
            assert("aggregate"@[0] != "deleted"@[0]);
            assert("aggregate"@[0] != "moved"@[0]);
        },
    }
    match c {
        Confidence::Confirmed => {},
        Confidence::Estimated => {
            assert("estimated"@[0] != "confirmed"@[0]);
        },
        Confidence::Unknown => {
            assert("unknown"@[0] != "confirmed"@[0]);
            assert("unknown"@[0] != "estimated"@[0]);
        },
    }
}

/// The path an aggregate row is written with: the watch root as a directory,
/// so with a trailing `/`, unless it already has one or is a single byte.
pub open spec fn written_path(kind: EventKind, path: Seq<char>) -> Seq<char> {
    if kind == EventKind::Aggregate && !(path.len() > 0 && path.last() == '/')
        && vstd::utf8::encode_utf8(path).len() > 1 {
        path.push('/')
    } else {
        path
    }
}

/// A path is more than one byte long when it has two characters, or one
/// that is not ASCII.
proof fn longer_than_a_byte(p: Seq<char>)
    ensures
        (vstd::utf8::encode_utf8(p).len() > 1) == (p.len() >= 2 || (p.len() == 1 && p[0] as u32 > 0x7f)),
{
    if p.len() >= 1 {
        let rest = p.drop_first();
        assert(vstd::utf8::encode_utf8(p) == vstd::utf8::encode_scalar(p[0] as u32) + vstd::utf8::encode_utf8(rest));
        if rest.len() >= 1 {
            assert(vstd::utf8::encode_utf8(rest) == vstd::utf8::encode_scalar(rest[0] as u32)
                + vstd::utf8::encode_utf8(rest.drop_first()));
        } else {
            assert(vstd::utf8::encode_utf8(rest) == Seq::<u8>::empty());
        }
    } else {
        assert(vstd::utf8::encode_utf8(p) == Seq::<u8>::empty());
    }
}

/// Whether `b` is `a` with its path replaced by `path`.
pub open spec fn with_path(a: ActivityEvent, b: ActivityEvent, path: Seq<char>) -> bool {
    &&& b.path@ == path
    &&& b.kind == a.kind
    &&& b.root_path == a.root_path
    &&& b.timestamp == a.timestamp
    &&& b.byte_delta == a.byte_delta
    &&& b.confidence == a.confidence
    &&& b.previous_path == a.previous_path
    &&& b.affected_item_count == a.affected_item_count
    &&& b.process_name == a.process_name
}

impl ActivityEvent {
    /// The row as it is written: an aggregate row names the watch root as a
    /// directory.
    pub fn normalize_aggregate_path(self) -> (out: ActivityEvent)
        ensures
            with_path(self, out, written_path(self.kind, self.path@)),
    {
        let mut out = self;
        let chars = crate::chars::chars_of(out.path.as_str());
        let n = chars.len();
        proof {
            longer_than_a_byte(out.path@);
        }
        let is_aggregate = match out.kind {
            EventKind::Aggregate => true,
            _ => false,
        };
        if is_aggregate && (n >= 2 || (n == 1 && (chars[0] as u32) > 0x7f)) && chars[n - 1] != '/' {
            let mut more = chars;
            more.push('/');
            out.path = crate::chars::string_of(more.as_slice());
        }
        out
    }

    /// The row as it is read back: the slashes a path was written with at
    /// its end are not part of it, except for a lone `/`.
    pub fn strip_aggregate_slash(self) -> (out: ActivityEvent)
        ensures
            with_path(self, out, crate::file_url::without_trailing_slash(self.path@)),
    {
        let mut out = self;
        let path = out.path;
        out.path = crate::file_url::strip_trailing_slash(path);
        out
    }

    /// A copy equal to `self`, field for field.
    pub fn copy(&self) -> (out: ActivityEvent)
        ensures
            out == *self,
    {
        ActivityEvent {
            kind: self.kind,
            path: self.path.clone(),
            root_path: self.root_path.clone(),
            timestamp: self.timestamp,
            byte_delta: self.byte_delta,
            confidence: self.confidence,
            previous_path: copy_text(&self.previous_path),
            affected_item_count: self.affected_item_count,
            process_name: copy_text(&self.process_name),
        }
    }

    /// When this happened, as whole-second RFC 3339 in UTC — the one spelling
    /// of a time that reads the same next year and in every timezone.
    pub fn timestamp_text(&self) -> (out: Option<String>)
        ensures
            out matches Some(text) ==> text@ == rfc3339_utc(self.timestamp.secs as int),
            self.timestamp.secs <= LAST_SPELLABLE_SECOND ==> out is Some,
    {
        if self.timestamp.secs > LAST_SPELLABLE_SECOND {
            return None;
        }
        let secs: i64 = self.timestamp.secs as i64;
        rfc3339_utc_text(secs)
    }
}

/// The last second of the year 9999, the last one RFC 3339 can spell.
pub const LAST_SPELLABLE_SECOND: u64 = 253_402_300_799;

/// The whole-second RFC 3339 UTC spelling (`2023-11-14T22:13:20Z`) of the
/// instant `secs` seconds after the epoch, as the `time` crate writes it.
pub uninterp spec fn rfc3339_utc(secs: int) -> Seq<char>;

/// `time::OffsetDateTime::from_unix_timestamp` then `format(&Rfc3339)`: the
/// contract claims the text is the crate's RFC 3339 spelling of that instant,
/// and that every instant from the epoch to the end of the year 9999 can be
/// spelled.
#[verifier::external_body]
fn rfc3339_utc_text(secs: i64) -> (out: Option<String>)
    ensures
        out matches Some(text) ==> text@ == rfc3339_utc(secs as int),
        0 <= secs <= 253_402_300_799 ==> out is Some,
{
    time::OffsetDateTime::from_unix_timestamp(secs)
        .ok()?
        .format(&time::format_description::well_known::Rfc3339)
        .ok()
}

} // verus!
