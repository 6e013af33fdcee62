//! Where a host keeps what it recorded, the settings it recorded under, and
//! the one rule about that place.
//!
//! One settings file and one journal per install, so a folder watched from a
//! terminal is the same watch the window lists — and the guard that keeps a
//! watch out of Pathlight's own storage is written once. This module holds the
//! rules: what every setting reads as when it was never written, what a change
//! to one leaves alone, which values are refused, and which paths are the
//! storage's own. Reading and writing the settings file is the host's part;
//! it hands the parsed [`Settings`] in and saves what comes back.

use vstd::prelude::*;

use crate::attribution::AggregationOptions;
use crate::event::Timestamp;
use crate::history::{build_history, is_history_of, HistorySnapshot, Query};
use crate::journal::{newest_first, read_back};
use crate::event::ActivityEvent;
use crate::paths::{inside, is_inside, join, joined, normalize, normalized};

verus! {

pub const JOURNAL_FILE: &'static str = "activity-events.jsonl";
pub const LOG_FILE: &'static str = "pathlight.log";
/// How large the log may get before its older half goes.
pub const LOG_MAX_BYTES: u64 = 262_144;
pub const WATCHES_FILE: &'static str = "watches.json";
pub const SIZE_INDEX_FILE: &'static str = "activity-size-index.jsonl";
pub const LOCK_FILE: &'static str = "pathlight.lock";
/// How long a row is kept until the user says otherwise.
pub const DEFAULT_RETENTION_DAYS: u32 = 180;
/// Grouped rows outlive the file-level rows they were made of: "this folder
/// grew by 4 GB in March" is worth keeping long after the list of files is.
pub const DEFAULT_AGGREGATE_RETENTION_DAYS: u32 = 730;
/// How large the journal may get until the user says otherwise.
pub const DEFAULT_JOURNAL_LIMIT_BYTES: u64 = 1_073_741_824;
/// How wide a group is when rows are grouped rather than named.
pub const DEFAULT_AGGREGATION_WINDOW_SECS: u64 = 300;
/// The shipped coalescing window balances responsiveness with wake-ups.
pub const DEFAULT_LATENCY_MS: u64 = 5_000;
/// The window for a watch nobody is looking at: the kernel wakes the process
/// once for a half-minute of churn instead of once per file.
pub const BACKGROUND_LATENCY_MS: u64 = 30_000;
/// The smallest change a row is written for until the user says otherwise.
pub const DEFAULT_MINIMUM_BYTE_DELTA: i64 = 1_024;
/// One bucket per hour in a history.
pub const HISTORY_BUCKET_SECS: u64 = 3600;
/// The page a host lists when nobody asked for a different one.
pub const HISTORY_ROWS: u32 = 200;

/// One watched folder, and whether a host that resumes watches at startup
/// opens this one.
#[derive(Clone, Debug, PartialEq, Eq)]
pub struct WatchTarget {
    pub path: String,
    pub enabled: bool,
}

/// A folder in the settings file, in either shape it has been written in: a
/// list written before a watch could be left switched off is a plain list of
/// paths, and still names the folders it named.
#[derive(Clone, Debug)]
pub enum StoredWatch {
    Target { path: String, enabled: bool },
    Path(String),
}

/// The positive byte deltas of the rows stamped no earlier than `since`,
/// added up, stopping at the largest `i64` rather than wrapping.
pub open spec fn growth_since(rows: Seq<ActivityEvent>, since: Timestamp) -> i64
    decreases rows.len(),
{
    if rows.len() == 0 {
        0
    } else {
        let before = growth_since(rows.drop_last(), since);
        let row = rows.last();
        if since.no_later_than(row.timestamp) && row.byte_delta is Some {
            let bytes = row.byte_delta->0;
            let positive: i64 = if bytes > 0 { bytes } else { 0 };
            if before + positive > i64::MAX { i64::MAX } else { (before + positive) as i64 }
        } else {
            before
        }
    }
}


/// The lines of `text`: split at every `\n`, a `\r` before it dropped, the
/// empty piece after a final `\n` not counted.
pub open spec fn lines_of(text: Seq<char>) -> Seq<Seq<char>>
    decreases text.len(),
{
    if text.len() == 0 {
        Seq::empty()
    } else {
        proof {
            newline_is_in_text(text, 0);
        }
        let at = first_newline(text, 0);
        let piece = if at < 0 { text } else { text.take(at) };
        let line = if piece.len() > 0 && piece.last() == '\r' { piece.drop_last() } else { piece };
        if at < 0 { seq![line] } else { seq![line] + lines_of(text.skip(at + 1)) }
    }
}

/// Where the first `\n` at or after `from` is, or -1.
pub open spec fn first_newline(text: Seq<char>, from: int) -> int
    decreases text.len() - from,
{
    if from < 0 || from >= text.len() {
        -1
    } else if text[from] == '\n' {
        from
    } else {
        first_newline(text, from + 1)
    }
}

/// The lines that are not empty.
pub open spec fn nonempty(lines: Seq<Seq<char>>) -> Seq<Seq<char>> {
    lines.filter(|l: Seq<char>| l.len() > 0)
}

/// `lines` joined with `\n` between them.
pub open spec fn joined_lines(lines: Seq<Seq<char>>) -> Seq<char>
    decreases lines.len(),
{
    if lines.len() == 0 {
        Seq::empty()
    } else if lines.len() == 1 {
        lines[0]
    } else {
        joined_lines(lines.drop_last()) + seq!['\n'] + lines.last()
    }
}

/// The last `count` lines of the diary `text` that are not empty, newest
/// last, joined as a person reads them.
pub open spec fn tail_of(text: Seq<char>, count: nat) -> Seq<char> {
    let kept = nonempty(lines_of(text));
    let from = if kept.len() > count { kept.len() - count } else { 0 };
    joined_lines(kept.skip(from))
}

/// What the diary keeps when it grows past its cap: everything after the
/// first line break at or after its middle character, so the oldest line that
/// survives is whole; nothing when there is no break after the middle.
pub open spec fn rotated_of(text: Seq<char>) -> Seq<char> {
    let at = first_newline(text, (text.len() / 2) as int);
    if at < 0 { Seq::empty() } else { text.skip(at + 1) }
}

/// The number of rows in a journal file's bytes: the pieces between line
/// breaks that are not empty.
pub open spec fn rows_in(bytes: Seq<u8>) -> nat
    decreases bytes.len(),
{
    if bytes.len() == 0 {
        0
    } else {
        let before = rows_in(bytes.drop_last());
        let ends_row = bytes.last() != 0x0a && (bytes.len() == 1 || bytes[bytes.len() - 2] == 0x0a);
        if ends_row { before + 1 } else { before }
    }
}

/// Every file Pathlight keeps — the journal, the diary, the settings and
/// the size index — lies inside its storage directory, so the guard that
/// keeps every watch out of that directory keeps each of them out: recording
/// a journal write would otherwise append another row, whose write is
/// another change.
pub proof fn own_files_are_inside_storage(spelling: Seq<char>)
    requires
        spelling.len() > 0,
        normalized(spelling) == spelling,
    ensures
        inside(spelling, joined(spelling, JOURNAL_FILE@)),
        inside(spelling, joined(spelling, LOG_FILE@)),
        inside(spelling, joined(spelling, WATCHES_FILE@)),
        inside(spelling, joined(spelling, SIZE_INDEX_FILE@)),
{
    reveal_strlit("activity-events.jsonl");
    reveal_strlit("pathlight.log");
    reveal_strlit("watches.json");
    reveal_strlit("activity-size-index.jsonl");
    assert(spelling.last() == '/' ==> spelling == seq!['/']) by {
        if spelling.last() == '/' {
            crate::paths::trim_end_ends_clean(spelling, '/');
        }
    }
    let names = seq![JOURNAL_FILE@, LOG_FILE@, WATCHES_FILE@, SIZE_INDEX_FILE@];
    assert forall|k: int| 0 <= k < 4 implies inside(spelling, joined(spelling, #[trigger] names[k])) by {
        let name = names[k];
        let path = joined(spelling, name);
        let base = if crate::chars::ends_with(spelling, seq!['/']) { spelling.drop_last() } else { spelling };
        assert(name.len() > 0);
        if spelling.last() == '/' {
            assert(spelling == seq!['/']);
            assert(crate::chars::ends_with(spelling, seq!['/'])) by {
                assert(spelling.skip(spelling.len() - 1) =~= seq!['/']);
            }
            assert(base =~= Seq::<char>::empty());
            assert(path =~= spelling + name);
            assert(crate::chars::starts_with(path, base)) by {
                assert(path.take(0) =~= base);
            }
        } else {
            assert(!crate::chars::ends_with(spelling, seq!['/'])) by {
                if crate::chars::ends_with(spelling, seq!['/']) {
                    assert(spelling.skip(spelling.len() - 1)[0] == spelling.last());
                }
            }
            assert(path =~= spelling + seq!['/'] + name);
            assert(crate::chars::starts_with(path, base)) by {
                assert(path.take(base.len() as int) =~= base);
            }
            assert(path[base.len() as int] == '/');
        }
    }
    assert(names[0] == JOURNAL_FILE@);
    assert(names[1] == LOG_FILE@);
    assert(names[2] == WATCHES_FILE@);
    assert(names[3] == SIZE_INDEX_FILE@);
}

/// A line break found from `from` on is one, inside the text.
pub proof fn newline_is_in_text(text: Seq<char>, from: int)
    ensures
        first_newline(text, from) == -1 || (from <= first_newline(text, from) < text.len()
            && text[first_newline(text, from)] == '\n'),
    decreases text.len() - from,
{
    if 0 <= from < text.len() && text[from] != '\n' {
        newline_is_in_text(text, from + 1);
    }
}

fn newline_from(text: &[char], from: usize) -> (r: Option<usize>)
    requires
        from <= text@.len(),
    ensures
        r matches Some(i) ==> first_newline(text@, from as int) == i as int && from <= i < text@.len()
            && text@[i as int] == '\n',
        r is None ==> first_newline(text@, from as int) == -1,
{
    let mut i = from;
    while i < text.len()
        invariant
            from <= i <= text@.len(),
            first_newline(text@, i as int) == first_newline(text@, from as int),
        decreases text@.len() - i,
    {
        if text[i] == '\n' {
            return Some(i);
        }
        i = i + 1;
    }
    None
}

/// The last `count` lines of the diary `text` that are not empty, newest
/// last, joined with line breaks; empty when nothing has been written.
pub fn log_tail(text: &str, count: usize) -> (out: String)
    ensures
        out@ == tail_of(text@, count as nat),
{
    let chars = crate::chars::chars_of(text);
    let mut kept: Vec<Vec<char>> = Vec::new();
    let mut start: usize = 0;
    let ghost all = lines_of(text@);
    proof {
        assert(text@.skip(0) =~= text@);
    }
    while start < chars.len()
        invariant
            start <= chars@.len(),
            chars@ == text@,
            kept@.map_values(|l: Vec<char>| l@) + nonempty(lines_of(text@.skip(start as int))) == nonempty(all),
            all == lines_of(text@),
        decreases chars@.len() - start,
    {
        let rest = Ghost(text@.skip(start as int));
        let found = newline_from(chars.as_slice(), start);
        proof {
            lemma_newline_shift(text@, start as int, 0);
        }
        let end: usize = match found {
            Some(i) => i,
            None => chars.len(),
        };
        let mut piece = crate::chars::slice_of(chars.as_slice(), start, end);
        if piece.len() > 0 && piece[piece.len() - 1] == '\r' {
            piece.pop();
        }
        let ghost line = piece@;
        proof {
            let at = first_newline(rest@, 0);
            assert(rest@.len() > 0);
            if at >= 0 {
                assert(rest@.take(at) =~= text@.subrange(start as int, end as int));
                assert(rest@.skip(at + 1) =~= text@.skip(end + 1));
            } else {
                assert(rest@ =~= text@.subrange(start as int, end as int));
            }
            assert(lines_of(rest@) == seq![line] + (if at < 0 { Seq::<Seq<char>>::empty() } else { lines_of(text@.skip(end + 1)) })) by {
                if at < 0 {
                    assert(seq![line] + Seq::<Seq<char>>::empty() =~= seq![line]);
                }
            }
            assert(nonempty(seq![line] + (if at < 0 { Seq::<Seq<char>>::empty() } else { lines_of(text@.skip(end + 1)) }))
                =~= nonempty(seq![line]) + nonempty(if at < 0 { Seq::<Seq<char>>::empty() } else { lines_of(text@.skip(end + 1)) })) by {
                Seq::filter_distributes_over_add(
                    seq![line],
                    if at < 0 { Seq::<Seq<char>>::empty() } else { lines_of(text@.skip(end + 1)) },
                    |l: Seq<char>| l.len() > 0,
                );
            }
            reveal(Seq::filter);
            assert(nonempty(seq![line]) =~= (if line.len() > 0 { seq![line] } else { Seq::<Seq<char>>::empty() })) by {
                reveal_with_fuel(Seq::filter, 2);
                assert(seq![line].drop_last() =~= Seq::<Seq<char>>::empty());
                assert(seq![line].last() == line);
            }
        }
        let ghost before = kept@.map_values(|l: Vec<char>| l@);
        if piece.len() > 0 {
            kept.push(piece);
            assert(kept@.map_values(|l: Vec<char>| l@) =~= before.push(line));
        }
        match found {
            Some(i) => {
                proof {
                    assert(nonempty(Seq::<Seq<char>>::empty()) =~= Seq::<Seq<char>>::empty()) by {
                        reveal(Seq::filter);
                    }
                    assert(kept@.map_values(|l: Vec<char>| l@) + nonempty(lines_of(text@.skip(i + 1))) =~= before
                        + nonempty(lines_of(rest@)));
                }
                start = i + 1;
            },
            None => {
                proof {
                    assert(nonempty(Seq::<Seq<char>>::empty()) =~= Seq::<Seq<char>>::empty()) by {
                        reveal(Seq::filter);
                    }
                    assert(text@.skip(chars@.len() as int) =~= Seq::<char>::empty());
                    assert(lines_of(Seq::<char>::empty()) =~= Seq::<Seq<char>>::empty());
                    assert(kept@.map_values(|l: Vec<char>| l@) + nonempty(lines_of(text@.skip(chars@.len() as int)))
                        =~= before + nonempty(lines_of(rest@)));
                }
                start = chars.len();
            },
        }
    }
    proof {
        assert(text@.skip(start as int) =~= Seq::<char>::empty());
        assert(lines_of(Seq::<char>::empty()) =~= Seq::<Seq<char>>::empty());
        assert(nonempty(Seq::<Seq<char>>::empty()) =~= Seq::<Seq<char>>::empty()) by {
            reveal(Seq::filter);
        }
        assert(kept@.map_values(|l: Vec<char>| l@) =~= nonempty(all));
    }
    let n = kept.len();
    let from: usize = if n > count { n - count } else { 0 };
    let ghost tail = nonempty(all).skip(from as int);
    let mut out: Vec<char> = Vec::new();
    let mut k: usize = from;
    while k < n
        invariant
            from <= k <= n,
            n == kept@.len(),
            kept@.map_values(|l: Vec<char>| l@) == nonempty(all),
            tail == nonempty(all).skip(from as int),
            out@ == joined_lines(tail.take(k - from)),
        decreases n - k,
    {
        proof {
            assert(tail.take(k + 1 - from).drop_last() =~= tail.take(k - from));
            assert(tail.take(k + 1 - from).last() == kept@[k as int]@);
        }
        if k > from {
            out.push('\n');
        } else {
            assert(tail.take(k + 1 - from) =~= seq![kept@[k as int]@]);
        }
        crate::chars::push_all(&mut out, kept[k].as_slice());
        k = k + 1;
    }
    proof {
        assert(tail.take(n - from) =~= tail);
    }
    crate::chars::string_of(out.as_slice())
}

proof fn lemma_newline_shift(text: Seq<char>, start: int, from: int)
    requires
        0 <= start <= text.len(),
        0 <= from,
    ensures
        first_newline(text.skip(start), from) == (if first_newline(text, start + from) < 0 { -1 } else {
            first_newline(text, start + from) - start
        }),
    decreases text.len() - start - from,
{
    if start + from < text.len() {
        assert(text.skip(start)[from] == text[start + from]);
        if text[start + from] != '\n' {
            lemma_newline_shift(text, start, from + 1);
        }
    }
}

/// What the diary keeps once it grows past its cap.
pub fn rotated(text: &str) -> (out: String)
    ensures
        out@ == rotated_of(text@),
{
    let chars = crate::chars::chars_of(text);
    let middle = chars.len() / 2;
    match newline_from(chars.as_slice(), middle) {
        Some(i) => {
            let kept = crate::chars::slice_of(chars.as_slice(), i + 1, chars.len());
            assert(kept@ =~= text@.skip(i + 1));
            crate::chars::string_of(kept.as_slice())
        },
        None => String::new(),
    }
}

/// The number of rows in a journal file's bytes.
pub fn row_count(bytes: &[u8]) -> (n: u64)
    ensures
        n == rows_in(bytes@),
{
    let mut n: u64 = 0;
    let mut i: usize = 0;
    while i < bytes.len()
        invariant
            i <= bytes@.len(),
            n == rows_in(bytes@.take(i as int)),
            n <= i,
        decreases bytes@.len() - i,
    {
        proof {
            assert(bytes@.take(i + 1).drop_last() =~= bytes@.take(i as int));
            if i > 0 {
                assert(bytes@.take(i + 1)[i - 1] == bytes@[i - 1]);
            }
        }
        if bytes[i] != 0x0a && (i == 0 || bytes[i - 1] == 0x0a) {
            n = n + 1;
        }
        i = i + 1;
    }
    proof {
        assert(bytes@.take(bytes@.len() as int) =~= bytes@);
    }
    n
}

/// What a stored folder reads as: a bare path is a folder that was being
/// watched, because that is what the list meant before the flag existed.
pub open spec fn target_of(stored: StoredWatch) -> (Seq<char>, bool) {
    match stored {
        StoredWatch::Target { path, enabled } => (path@, enabled),
        StoredWatch::Path(path) => (path@, true),
    }
}

pub open spec fn targets_of(roots: Seq<StoredWatch>) -> Seq<(Seq<char>, bool)> {
    roots.map_values(|w: StoredWatch| target_of(w))
}

pub open spec fn watch_of(w: WatchTarget) -> (Seq<char>, bool) {
    (w.path@, w.enabled)
}

pub open spec fn watches_of(ws: Seq<WatchTarget>) -> Seq<(Seq<char>, bool)> {
    ws.map_values(|w: WatchTarget| watch_of(w))
}

impl StoredWatch {
    /// A copy of this entry, in the same shape.
    pub fn duplicate(&self) -> (out: StoredWatch)
        ensures
            out == *self,
    {
        match self {
            StoredWatch::Target { path, enabled } => StoredWatch::Target { path: path.clone(), enabled: *enabled },
            StoredWatch::Path(path) => StoredWatch::Path(path.clone()),
        }
    }

    /// The folder this entry names, in the current shape.
    pub fn target(&self) -> (w: WatchTarget)
        ensures
            watch_of(w) == target_of(*self),
    {
        match self {
            StoredWatch::Target { path, enabled } => WatchTarget { path: path.clone(), enabled: *enabled },
            StoredWatch::Path(path) => WatchTarget { path: path.clone(), enabled: true },
        }
    }
}

/// Everything the settings file holds. `None` is a setting never written,
/// which reads as the shipped value.
#[derive(Clone, Debug)]
pub struct Settings {
    pub roots: Vec<StoredWatch>,
    /// Off by default: encryption whose key is lost is history that is lost.
    pub encrypt: bool,
    pub min_file_bytes: Option<i64>,
    pub max_file_bytes: Option<i64>,
    pub retention_days: Option<u32>,
    pub aggregate_retention_days: Option<u32>,
    pub journal_limit_bytes: Option<u64>,
    pub minimum_recorded_byte_delta: Option<i64>,
    pub latency_ms: Option<u64>,
    pub paused: Option<bool>,
    pub growth_alert_bytes: Option<i64>,
    pub records_file_names: Option<bool>,
    pub aggregation_window_secs: Option<u64>,
    /// Absent means the shipped patterns; an empty list means the user asked
    /// for everything to be recorded.
    pub exclusion_patterns: Option<Vec<String>>,
    /// Incremented whenever all records are deleted. A running worker that
    /// accepted a batch under an older value must not recreate that history.
    pub records_epoch: u64,
    pub records_reset_at_ns: u64,
}

impl Settings {
    /// Whether every setting other than the folder list and the records
    /// generation is unwritten.
    pub open spec fn is_shipped(&self) -> bool {
        &&& !self.encrypt
        &&& self.min_file_bytes is None
        &&& self.max_file_bytes is None
        &&& self.retention_days is None
        &&& self.aggregate_retention_days is None
        &&& self.journal_limit_bytes is None
        &&& self.minimum_recorded_byte_delta is None
        &&& self.latency_ms is None
        &&& self.paused is None
        &&& self.growth_alert_bytes is None
        &&& self.records_file_names is None
        &&& self.aggregation_window_secs is None
        &&& self.exclusion_patterns is None
    }

    /// The settings of an install that has never saved any.
    pub fn shipped() -> (s: Settings)
        ensures
            s.is_shipped(),
            s.roots@.len() == 0,
            s.records_epoch == 0,
            s.records_reset_at_ns == 0,
    {
        Settings {
            roots: Vec::new(),
            encrypt: false,
            min_file_bytes: None,
            max_file_bytes: None,
            retention_days: None,
            aggregate_retention_days: None,
            journal_limit_bytes: None,
            minimum_recorded_byte_delta: None,
            latency_ms: None,
            paused: None,
            growth_alert_bytes: None,
            records_file_names: None,
            aggregation_window_secs: None,
            exclusion_patterns: None,
            records_epoch: 0,
            records_reset_at_ns: 0,
        }
    }
}

/// Why a setting was refused and left as it was.
#[derive(Clone, Copy, Debug, PartialEq, Eq, Structural)]
pub enum SettingError {
    /// A retention of nothing: a monitor that records and then immediately
    /// forgets, which reads as a broken journal rather than as a setting.
    RetainsNothing,
    /// The same, for grouped rows.
    RetainsNoGroups,
}

impl SettingError {
    /// What to tell the person who asked for it.
    pub fn message(&self) -> (m: String)
        ensures
            *self == SettingError::RetainsNothing ==> m@ == "a retention of nothing would delete every row as soon as it was written"@,
            *self == SettingError::RetainsNoGroups ==> m@ == "a retention of nothing would delete every grouped row as soon as it was written"@,
    {
        match self {
            SettingError::RetainsNothing => "a retention of nothing would delete every row as soon as it was written".to_string(),
            SettingError::RetainsNoGroups => "a retention of nothing would delete every grouped row as soon as it was written".to_string(),
        }
    }
}

/// The patterns a watch leaves out when nobody edited the list: the noise
/// nobody asked to be told about.
pub open spec fn default_patterns_of() -> Seq<Seq<char>> {
    seq![
        ".DS_Store"@, ".Trash/"@, ".Trashes/"@, ".fseventsd/"@, ".Spotlight-V100/"@,
        ".TemporaryItems/"@, ".DocumentRevisions-V100/"@, "**/Caches/"@, "*.tmp"@, "*.part"@,
        "*.crdownload"@, "*.download"@,
    ]
}

pub open spec fn texts_of(v: Seq<String>) -> Seq<Seq<char>> {
    v.map_values(|s: String| s@)
}

/// A copy of each text, in order.
pub fn copy_texts(v: &[String]) -> (out: Vec<String>)
    ensures
        out@ == v@,
{
    let mut out: Vec<String> = Vec::new();
    let mut i: usize = 0;
    while i < v.len()
        invariant
            i <= v@.len(),
            out@ == v@.take(i as int),
        decreases v@.len() - i,
    {
        out.push(v[i].clone());
        proof {
            assert(v@.take(i + 1) =~= v@.take(i as int).push(v@[i as int]));
        }
        i = i + 1;
    }
    proof {
        assert(v@.take(v@.len() as int) =~= v@);
    }
    out
}

/// The shipped exclusion patterns.
pub fn default_patterns() -> (out: Vec<String>)
    ensures
        texts_of(out@) == default_patterns_of(),
{
    let out: Vec<String> = vec![
        ".DS_Store".to_string(), ".Trash/".to_string(), ".Trashes/".to_string(),
        ".fseventsd/".to_string(), ".Spotlight-V100/".to_string(), ".TemporaryItems/".to_string(),
        ".DocumentRevisions-V100/".to_string(), "**/Caches/".to_string(), "*.tmp".to_string(),
        "*.part".to_string(), "*.crdownload".to_string(), "*.download".to_string(),
    ];
    proof {
        assert(texts_of(out@) =~= default_patterns_of());
    }
    out
}

/// The aggregation a set of saved settings asks for: named rows are never
/// grouped, and grouped rows have a window of at least a second.
pub open spec fn options_of(s: Settings) -> AggregationOptions {
    let names = match s.records_file_names { Some(b) => b, None => true };
    AggregationOptions {
        minimum_recorded_byte_delta: match s.minimum_recorded_byte_delta {
            Some(d) => if d < 0 { 0 } else { d },
            None => DEFAULT_MINIMUM_BYTE_DELTA,
        },
        min_file_bytes: s.min_file_bytes,
        max_file_bytes: s.max_file_bytes,
        records_file_names: names,
        aggregation_window_secs: if names {
            0
        } else {
            match s.aggregation_window_secs {
                Some(w) => if w < 1 { 1 } else { w },
                None => DEFAULT_AGGREGATION_WINDOW_SECS,
            }
        },
    }
}

/// The first folder in `roots` named `path`, if any.
pub open spec fn listed(roots: Seq<(Seq<char>, bool)>, path: Seq<char>) -> bool {
    exists|i: int| 0 <= i < roots.len() && (#[trigger] roots[i]).0 == path
}

/// `targets` with the first folder named `path` switched to `enabled`, or the
/// folder added at the end when none is.
pub open spec fn switched(targets: Seq<(Seq<char>, bool)>, path: Seq<char>, enabled: bool) -> Seq<(Seq<char>, bool)>
    decreases targets.len(),
{
    if targets.len() == 0 {
        seq![(path, enabled)]
    } else if targets[0].0 == path {
        seq![(path, enabled)] + targets.drop_first()
    } else {
        seq![targets[0]] + switched(targets.drop_first(), path, enabled)
    }
}

/// Past folders that are not `path`, switching starts where they end.
proof fn switched_after_misses(targets: Seq<(Seq<char>, bool)>, path: Seq<char>, enabled: bool, i: int)
    requires
        0 <= i <= targets.len(),
        forall|j: int| 0 <= j < i ==> (#[trigger] targets[j]).0 != path,
    ensures
        switched(targets, path, enabled) == targets.take(i) + switched(targets.skip(i), path, enabled),
    decreases i,
{
    if i == 0 {
        assert(targets.take(0) =~= Seq::<(Seq<char>, bool)>::empty());
        assert(targets.skip(0) =~= targets);
    } else {
        let rest = targets.drop_first();
        assert forall|j: int| 0 <= j < i - 1 implies (#[trigger] rest[j]).0 != path by {
            assert(rest[j] == targets[j + 1]);
        }
        switched_after_misses(rest, path, enabled, i - 1);
        assert(targets[0].0 != path);
        assert(rest.skip(i - 1) =~= targets.skip(i));
        assert(targets.take(i) =~= seq![targets[0]] + rest.take(i - 1));
    }
}

/// Pathlight's own storage directory, plus the spelling used to keep every
/// watch out of it, and the settings saved there.
#[derive(Clone, Debug)]
pub struct Storage {
    /// Resolved and normalized. One spelling serves as the directory, the
    /// journal's parent and the exclusion guard, because two spellings of one
    /// directory is the bug that lets Pathlight record itself.
    path: String,
    settings: Settings,
}

impl Storage {
    /// The spelling of the storage directory.
    pub closed spec fn spelling(&self) -> Seq<char> {
        self.path@
    }

    /// The settings this storage answers from.
    pub closed spec fn saved(&self) -> Settings {
        self.settings
    }

    /// Storage at `dir`, spelled the way a watcher reports paths, with the
    /// settings of an install that never saved any. `dir` is already
    /// resolved: backends report resolved paths, and a guard holding another
    /// spelling would never match the events it exists to drop.
    pub fn at(dir: &str) -> (s: Storage)
        ensures
            s.spelling() == normalized(dir@),
            s.saved().is_shipped(),
            s.saved().roots@.len() == 0,
            s.saved().records_epoch == 0,
    {
        Storage { path: normalize(dir), settings: Settings::shipped() }
    }

    /// Storage at `dir` answering from settings read from its settings file.
    pub fn reading(dir: &str, settings: Settings) -> (s: Storage)
        ensures
            s.spelling() == normalized(dir@),
            s.saved() == settings,
    {
        Storage { path: normalize(dir), settings }
    }

    /// The settings to save.
    pub fn settings(&self) -> (s: &Settings)
        ensures
            *s == self.saved(),
    {
        &self.settings
    }

    pub fn dir(&self) -> (d: &str)
        ensures
            d@ == self.spelling(),
    {
        self.path.as_str()
    }

    pub fn journal(&self) -> (p: String)
        ensures
            p@ == joined(self.spelling(), JOURNAL_FILE@),
    {
        join(self.path.as_str(), JOURNAL_FILE)
    }

    /// The file every host writes its diary of watch starts, gaps and
    /// failures to, beside the journal.
    pub fn log_file(&self) -> (p: String)
        ensures
            p@ == joined(self.spelling(), LOG_FILE@),
    {
        join(self.path.as_str(), LOG_FILE)
    }

    /// The settings file.
    pub fn settings_file(&self) -> (p: String)
        ensures
            p@ == joined(self.spelling(), WATCHES_FILE@),
    {
        join(self.path.as_str(), WATCHES_FILE)
    }

    /// Where a watch keeps the baselines it measures deltas against, and the
    /// journal whose key seals them when records are encrypted: one key for
    /// everything Pathlight keeps.
    pub fn size_index(&self) -> (out: (String, Option<String>))
        ensures
            out.0@ == joined(self.spelling(), SIZE_INDEX_FILE@),
            out.1 is Some <==> self.saved().encrypt,
            out.1 matches Some(j) ==> j@ == joined(self.spelling(), JOURNAL_FILE@),
    {
        let file = join(self.path.as_str(), SIZE_INDEX_FILE);
        let key = if self.settings.encrypt { Some(self.journal()) } else { None };
        (file, key)
    }

    /// True when `path` is this storage or something inside it.
    ///
    /// Recording a journal write appends another row, whose write is another
    /// change: a feedback loop no byte threshold stops. So this is checked
    /// before attribution, and it is not a user setting.
    pub fn is_own(&self, path: &str) -> (r: bool)
        ensures
            r == (path@ == self.spelling() || inside(self.spelling(), path@)),
    {
        let same = path.to_string() == self.path;
        same || is_inside(self.path.as_str(), path)
    }

    /// Every retained row for one folder, newest first — the whole record
    /// rather than a page, because an export of the newest rows is not an
    /// export of what was recorded. `journal` is every row the host read back
    /// from the journal file.
    pub fn rows(&self, journal: Vec<ActivityEvent>, root: &str) -> (out: Vec<ActivityEvent>)
        ensures
            out@ == read_back(journal@, root@, u32::MAX),
    {
        newest_first(journal, root, u32::MAX)
    }

    /// One folder's history, narrowed to what somebody typed in a search box
    /// or passed on a command line: totals and hourly buckets over every row
    /// the query matches, and the page it asked for.
    pub fn search(&self, journal: Vec<ActivityEvent>, root: &str, limit: u32, query: &Query, now: Timestamp) -> (snapshot: HistorySnapshot)
        ensures
            is_history_of(snapshot, root@, read_back(journal@, root@, u32::MAX), HISTORY_BUCKET_SECS, limit as int, *query, now),
    {
        let rows = newest_first(journal, root, u32::MAX);
        build_history(root, rows, HISTORY_BUCKET_SECS, limit, query, now)
    }

    /// One folder's history as a pane first shows it: every kind of change,
    /// newest first, one page.
    pub fn history(&self, journal: Vec<ActivityEvent>, root: &str, now: Timestamp) -> (snapshot: HistorySnapshot)
        ensures
            exists|q: Query| q.text@.len() == 0 && q.kind is None && !q.largest_first && q.skip == 0
                && #[trigger] is_history_of(snapshot, root@, read_back(journal@, root@, u32::MAX), HISTORY_BUCKET_SECS, HISTORY_ROWS as int, q, now),
    {
        let query = Query { text: String::new(), kind: None, largest_first: false, skip: 0 };
        self.search(journal, root, HISTORY_ROWS, &query, now)
    }

    /// Positive bytes recorded for `root` since `since`, from every row the
    /// host read back from the journal. A watch reads this once when it
    /// opens, so a process restart cannot reset a daily growth alert.
    pub fn positive_growth_since(&self, journal: Vec<ActivityEvent>, root: &str, since: Timestamp) -> (total: i64)
        ensures
            total == growth_since(read_back(journal@, root@, u32::MAX), since),
    {
        let rows = newest_first(journal, root, u32::MAX);
        let mut total: i64 = 0;
        let mut i: usize = 0;
        while i < rows.len()
            invariant
                i <= rows@.len(),
                total == growth_since(rows@.take(i as int), since),
                total >= 0,
            decreases rows@.len() - i,
        {
            let row = &rows[i];
            if since.is_no_later_than(&row.timestamp) {
                match row.byte_delta {
                    Some(bytes) => {
                        let positive: i64 = if bytes > 0 { bytes } else { 0 };
                        total = if total > i64::MAX - positive { i64::MAX } else { total + positive };
                    },
                    None => {},
                }
            }
            proof {
                assert(rows@.take(i + 1).drop_last() =~= rows@.take(i as int));
            }
            i = i + 1;
        }
        proof {
            assert(rows@.take(rows@.len() as int) =~= rows@);
        }
        total
    }

    /// Whether new rows are written encrypted.
    pub fn encrypting(&self) -> (r: bool)
        ensures
            r == self.saved().encrypt,
    {
        self.settings.encrypt
    }

    pub fn set_encrypting(&mut self, encrypt: bool)
        ensures
            final(self).spelling() == old(self).spelling(),
            final(self).saved() == (Settings { encrypt, ..old(self).saved() }),
    {
        self.settings.encrypt = encrypt;
    }

    /// The sizes of file every watch here records at all, smallest first;
    /// `None` is no bound.
    pub fn size_bounds(&self) -> (b: (Option<i64>, Option<i64>))
        ensures
            b == (self.saved().min_file_bytes, self.saved().max_file_bytes),
    {
        (self.settings.min_file_bytes, self.settings.max_file_bytes)
    }

    pub fn set_size_bounds(&mut self, min_bytes: Option<i64>, max_bytes: Option<i64>)
        ensures
            final(self).spelling() == old(self).spelling(),
            final(self).saved() == (Settings { min_file_bytes: min_bytes, max_file_bytes: max_bytes, ..old(self).saved() }),
    {
        self.settings.min_file_bytes = min_bytes;
        self.settings.max_file_bytes = max_bytes;
    }

    /// The folders the user chose, and whether each one is being watched.
    pub fn watches(&self) -> (out: Vec<WatchTarget>)
        ensures
            watches_of(out@) == targets_of(self.saved().roots@),
    {
        let mut out: Vec<WatchTarget> = Vec::new();
        let roots = &self.settings.roots;
        let mut i: usize = 0;
        while i < roots.len()
            invariant
                i <= roots@.len(),
                roots == &self.settings.roots,
                watches_of(out@) == targets_of(roots@.take(i as int)),
            decreases roots@.len() - i,
        {
            let ghost old_out = out@;
            let t = roots[i].target();
            out.push(t);
            proof {
                assert(roots@.take(i + 1) =~= roots@.take(i as int).push(roots@[i as int]));
                assert(watches_of(out@) =~= watches_of(old_out).push(watch_of(t)));
                assert(targets_of(roots@.take(i + 1)) =~= targets_of(roots@.take(i as int)).push(target_of(roots@[i as int])));
            }
            i = i + 1;
        }
        proof {
            assert(roots@.take(roots@.len() as int) =~= roots@);
        }
        out
    }

    pub fn set_watches(&mut self, watches: &[WatchTarget])
        ensures
            final(self).spelling() == old(self).spelling(),
            targets_of(final(self).saved().roots@) == watches_of(watches@),
            final(self).saved() == (Settings { roots: final(self).saved().roots, ..old(self).saved() }),
    {
        let mut roots: Vec<StoredWatch> = Vec::new();
        let mut i: usize = 0;
        while i < watches.len()
            invariant
                i <= watches@.len(),
                targets_of(roots@) == watches_of(watches@.take(i as int)),
            decreases watches@.len() - i,
        {
            let w = &watches[i];
            let ghost old_roots = roots@;
            let stored = StoredWatch::Target { path: w.path.clone(), enabled: w.enabled };
            roots.push(stored);
            proof {
                assert(watches@.take(i + 1) =~= watches@.take(i as int).push(watches@[i as int]));
                assert(targets_of(roots@) =~= targets_of(old_roots).push(target_of(stored)));
                assert(watches_of(watches@.take(i + 1)) =~= watches_of(watches@.take(i as int)).push(watch_of(watches@[i as int])));
            }
            i = i + 1;
        }
        proof {
            assert(watches@.take(watches@.len() as int) =~= watches@);
        }
        self.settings.roots = roots;
    }

    /// Adds a folder, switched off, unless one of that path is listed already.
    pub fn add_watch(&mut self, path: &str) -> (added: bool)
        ensures
            final(self).spelling() == old(self).spelling(),
            added == !listed(targets_of(old(self).saved().roots@), path@),
            added ==> targets_of(final(self).saved().roots@) == targets_of(old(self).saved().roots@).push((path@, false)),
            !added ==> final(self).saved() == old(self).saved(),
            final(self).saved() == (Settings { roots: final(self).saved().roots, ..old(self).saved() }),
    {
        let ghost before = targets_of(self.settings.roots@);
        let mut i: usize = 0;
        while i < self.settings.roots.len()
            invariant
                i <= self.settings.roots@.len(),
                before == targets_of(self.settings.roots@),
                forall|j: int| 0 <= j < i ==> (#[trigger] before[j]).0 != path@,
            decreases self.settings.roots@.len() - i,
        {
            let t = self.settings.roots[i].target();
            if t.path.as_str().to_string() == path.to_string() {
                proof {
                    assert(before[i as int].0 == path@);
                }
                return false;
            }
            i = i + 1;
        }
        self.settings.roots.push(StoredWatch::Target { path: path.to_string(), enabled: false });
        proof {
            assert(targets_of(self.settings.roots@) =~= before.push((path@, false)));
        }
        true
    }

    /// Takes every folder of that path off the list; false when none was on it.
    pub fn remove_watch(&mut self, path: &str) -> (removed: bool)
        ensures
            final(self).spelling() == old(self).spelling(),
            targets_of(final(self).saved().roots@) == targets_of(old(self).saved().roots@).filter(
                |t: (Seq<char>, bool)| t.0 != path@),
            removed == listed(targets_of(old(self).saved().roots@), path@),
            final(self).saved() == (Settings { roots: final(self).saved().roots, ..old(self).saved() }),
    {
        let ghost before = targets_of(self.settings.roots@);
        let ghost keep = |t: (Seq<char>, bool)| t.0 != path@;
        let mut kept: Vec<StoredWatch> = Vec::new();
        let mut found = false;
        let mut i: usize = 0;
        while i < self.settings.roots.len()
            invariant
                i <= self.settings.roots@.len(),
                before == targets_of(self.settings.roots@),
                keep == (|t: (Seq<char>, bool)| t.0 != path@),
                targets_of(kept@) == before.take(i as int).filter(keep),
                found == listed(before.take(i as int), path@),
            decreases self.settings.roots@.len() - i,
        {
            let t = self.settings.roots[i].target();
            proof {
                assert(before.take(i + 1) =~= before.take(i as int).push(before[i as int]));
                before.take(i as int).lemma_filter_push(before[i as int], keep);
            }
            if t.path.as_str().to_string() == path.to_string() {
                found = true;
                proof {
                    assert(before.take(i + 1)[i as int].0 == path@);
                }
            } else {
                let ghost old_kept = kept@;
                kept.push(self.settings.roots[i].duplicate());
                proof {
                    assert(targets_of(kept@) =~= targets_of(old_kept).push(target_of(self.settings.roots@[i as int])));
                }
            }
            proof {
                if found {
                    if !listed(before.take(i as int), path@) {
                        assert(before.take(i + 1)[i as int].0 == path@);
                    }
                } else {
                    assert forall|j: int| 0 <= j < i + 1 implies (#[trigger] before.take(i + 1)[j]).0 != path@ by {
                        if j < i {
                            assert(before.take(i + 1)[j] == before.take(i as int)[j]);
                        }
                    }
                }
            }
            i = i + 1;
        }
        proof {
            assert(before.take(before.len() as int) =~= before);
        }
        self.settings.roots = kept;
        found
    }

    /// Switches one folder on or off, leaving the rest of the list alone.
    /// An unknown path is added, because a host that can name a folder is a
    /// host the user just asked to watch it.
    pub fn set_watch_enabled(&mut self, path: &str, enabled: bool)
        ensures
            final(self).spelling() == old(self).spelling(),
            targets_of(final(self).saved().roots@) == switched(targets_of(old(self).saved().roots@), path@, enabled),
            final(self).saved() == (Settings { roots: final(self).saved().roots, ..old(self).saved() }),
    {
        let watches = self.watches();
        let ghost w = watches_of(watches@);
        let mut out: Vec<StoredWatch> = Vec::new();
        let mut done = false;
        let mut i: usize = 0;
        while i < watches.len()
            invariant
                0 <= i <= watches@.len(),
                w == watches_of(watches@),
                w == targets_of(self.settings.roots@),
                !done ==> targets_of(out@) == w.take(i as int)
                    && forall|j: int| 0 <= j < i ==> (#[trigger] w[j]).0 != path@,
                done ==> targets_of(out@) + w.skip(i as int) == switched(w, path@, enabled),
            decreases watches@.len() - i,
        {
            let item = &watches[i];
            let ghost old_out = out@;
            let matches = item.path.as_str().to_string() == path.to_string();
            if !done && matches {
                out.push(StoredWatch::Target { path: item.path.clone(), enabled });
                done = true;
                proof {
                    switched_after_misses(w, path@, enabled, i as int);
                    assert(w.skip(i as int)[0] == w[i as int]);
                    assert(w.skip(i as int).drop_first() =~= w.skip(i + 1));
                    assert(targets_of(out@) =~= w.take(i as int).push((path@, enabled)));
                    assert(targets_of(out@) + w.skip(i + 1) =~= w.take(i as int) + (seq![(path@, enabled)] + w.skip(i + 1)));
                }
            } else {
                out.push(StoredWatch::Target { path: item.path.clone(), enabled: item.enabled });
                proof {
                    assert(targets_of(out@) =~= targets_of(old_out).push(w[i as int]));
                    if done {
                        assert(w.skip(i as int) =~= seq![w[i as int]] + w.skip(i + 1));
                        assert(targets_of(out@) + w.skip(i + 1) =~= targets_of(old_out) + w.skip(i as int));
                    } else {
                        assert(w.take(i + 1) =~= w.take(i as int).push(w[i as int]));
                    }
                }
            }
            i = i + 1;
        }
        if !done {
            let ghost old_out = out@;
            out.push(StoredWatch::Target { path: path.to_string(), enabled });
            proof {
                switched_after_misses(w, path@, enabled, w.len() as int);
                assert(w.take(w.len() as int) =~= w);
                assert(w.skip(w.len() as int) =~= Seq::<(Seq<char>, bool)>::empty());
                assert(targets_of(out@) =~= targets_of(old_out).push((path@, enabled)));
                assert(targets_of(out@) =~= w + seq![(path@, enabled)]);
            }
        } else {
            proof {
                assert(w.skip(w.len() as int) =~= Seq::<(Seq<char>, bool)>::empty());
                assert(targets_of(out@) + w.skip(w.len() as int) =~= targets_of(out@));
            }
        }
        self.settings.roots = out;
    }

    /// How long a row is kept and how large the journal may get.
    pub fn retention(&self) -> (r: (u32, u64))
        ensures
            r.0 == (match self.saved().retention_days { Some(d) => d, None => DEFAULT_RETENTION_DAYS }),
            r.1 == (match self.saved().journal_limit_bytes { Some(b) => b, None => DEFAULT_JOURNAL_LIMIT_BYTES }),
    {
        let days = match self.settings.retention_days {
            Some(d) => d,
            None => DEFAULT_RETENTION_DAYS,
        };
        let limit = match self.settings.journal_limit_bytes {
            Some(b) => b,
            None => DEFAULT_JOURNAL_LIMIT_BYTES,
        };
        (days, limit)
    }

    /// How long a grouped row is kept, which is longer than a file-level one.
    pub fn aggregate_retention_days(&self) -> (d: u32)
        ensures
            d == (match self.saved().aggregate_retention_days { Some(d) => d, None => DEFAULT_AGGREGATE_RETENTION_DAYS }),
    {
        match self.settings.aggregate_retention_days {
            Some(d) => d,
            None => DEFAULT_AGGREGATE_RETENTION_DAYS,
        }
    }

    pub fn set_aggregate_retention_days(&mut self, days: u32) -> (r: Result<(), SettingError>)
        ensures
            final(self).spelling() == old(self).spelling(),
            r is Err <==> days == 0,
            r matches Err(e) ==> e == SettingError::RetainsNoGroups && final(self).saved() == old(self).saved(),
            r is Ok ==> final(self).saved() == (Settings { aggregate_retention_days: Some(days), ..old(self).saved() }),
    {
        if days == 0 {
            return Err(SettingError::RetainsNoGroups);
        }
        self.settings.aggregate_retention_days = Some(days);
        Ok(())
    }

    /// Neither may be zero: a retention of nothing is a monitor that records
    /// and then immediately forgets.
    pub fn set_retention(&mut self, days: u32, limit_bytes: u64) -> (r: Result<(), SettingError>)
        ensures
            final(self).spelling() == old(self).spelling(),
            r is Err <==> (days == 0 || limit_bytes == 0),
            r matches Err(e) ==> e == SettingError::RetainsNothing && final(self).saved() == old(self).saved(),
            r is Ok ==> final(self).saved() == (Settings {
                retention_days: Some(days),
                journal_limit_bytes: Some(limit_bytes),
                ..old(self).saved()
            }),
    {
        if days == 0 || limit_bytes == 0 {
            return Err(SettingError::RetainsNothing);
        }
        self.settings.retention_days = Some(days);
        self.settings.journal_limit_bytes = Some(limit_bytes);
        Ok(())
    }

    /// How long the watcher coalesces before it hands events over; a saved
    /// zero is no window and reads as the shipped one.
    pub fn latency_ms(&self) -> (ms: u64)
        ensures
            ms == (match self.saved().latency_ms { Some(v) => if v > 0 { v } else { DEFAULT_LATENCY_MS }, None => DEFAULT_LATENCY_MS }),
    {
        match self.settings.latency_ms {
            Some(v) => if v > 0 { v } else { DEFAULT_LATENCY_MS },
            None => DEFAULT_LATENCY_MS,
        }
    }

    pub fn set_latency_ms(&mut self, latency_ms: u64)
        ensures
            final(self).spelling() == old(self).spelling(),
            final(self).saved() == (Settings { latency_ms: Some(if latency_ms < 1 { 1 } else { latency_ms }), ..old(self).saved() }),
    {
        self.settings.latency_ms = Some(if latency_ms < 1 { 1 } else { latency_ms });
    }

    /// How much a folder may grow in a day before the user is told, or zero
    /// for never — which is the default.
    pub fn growth_alert_bytes(&self) -> (b: i64)
        ensures
            b == (match self.saved().growth_alert_bytes { Some(v) => if v < 0 { 0 } else { v }, None => 0 }),
    {
        match self.settings.growth_alert_bytes {
            Some(v) => if v < 0 { 0 } else { v },
            None => 0,
        }
    }

    pub fn set_growth_alert_bytes(&mut self, bytes: i64)
        ensures
            final(self).spelling() == old(self).spelling(),
            final(self).saved() == (Settings { growth_alert_bytes: Some(if bytes < 0 { 0 } else { bytes }), ..old(self).saved() }),
    {
        self.settings.growth_alert_bytes = Some(if bytes < 0 { 0 } else { bytes });
    }

    /// Whether every watch in this install is held off.
    pub fn paused(&self) -> (p: bool)
        ensures
            p == (match self.saved().paused { Some(p) => p, None => false }),
    {
        match self.settings.paused {
            Some(p) => p,
            None => false,
        }
    }

    /// Holds every watch off, or lets them run again. Returns the line the
    /// host writes to its diary about it.
    pub fn set_paused(&mut self, paused: bool) -> (line: String)
        ensures
            final(self).spelling() == old(self).spelling(),
            final(self).saved() == (Settings { paused: Some(paused), ..old(self).saved() }),
            line@ == (if paused { "monitoring paused"@ } else { "monitoring resumed"@ }),
    {
        self.settings.paused = Some(paused);
        if paused { "monitoring paused".to_string() } else { "monitoring resumed".to_string() }
    }

    pub fn records_epoch(&self) -> (e: u64)
        ensures
            e == self.saved().records_epoch,
    {
        self.settings.records_epoch
    }

    /// Whether a writer that started in records generation `expected` may
    /// still write: no one has deleted the records since. A writer from an
    /// older generation would re-create records the user deleted.
    pub fn in_generation(&self, expected: u64) -> (r: bool)
        ensures
            r == (self.saved().records_epoch == expected),
    {
        self.settings.records_epoch == expected
    }

    /// The records generation and when it began.
    pub fn records_generation(&self) -> (g: (u64, Timestamp))
        ensures
            g.0 == self.saved().records_epoch,
            g.1.value() == self.saved().records_reset_at_ns as int,
    {
        let ns = self.settings.records_reset_at_ns;
        let t = Timestamp { secs: ns / 1_000_000_000, nanos: (ns % 1_000_000_000) as u32 };
        proof {
            vstd::arithmetic::div_mod::lemma_fundamental_div_mod(ns as int, 1_000_000_000);
        }
        (self.settings.records_epoch, t)
    }

    /// Starts the records over: a new generation, begun at `now_ns`. The host
    /// deletes the journal, the baselines and the diary.
    pub fn forget_records(&mut self, now_ns: u64)
        ensures
            final(self).spelling() == old(self).spelling(),
            final(self).saved() == (Settings {
                records_epoch: if old(self).saved().records_epoch == u64::MAX { 0 } else { (old(self).saved().records_epoch + 1) as u64 },
                records_reset_at_ns: now_ns,
                ..old(self).saved()
            }),
    {
        self.settings.records_epoch = self.settings.records_epoch.wrapping_add(1);
        self.settings.records_reset_at_ns = now_ns;
    }

    /// What every watch here leaves out. Never edited means the shipped
    /// list; an empty list means "record everything".
    pub fn patterns(&self) -> (p: Vec<String>)
        ensures
            texts_of(p@) == (match self.saved().exclusion_patterns {
                Some(v) => texts_of(v@),
                None => default_patterns_of(),
            }),
    {
        match &self.settings.exclusion_patterns {
            Some(v) => copy_texts(v.as_slice()),
            None => default_patterns(),
        }
    }

    pub fn set_patterns(&mut self, patterns: &[String])
        ensures
            final(self).spelling() == old(self).spelling(),
            final(self).saved().exclusion_patterns matches Some(v) && texts_of(v@) == texts_of(patterns@),
            final(self).saved() == (Settings { exclusion_patterns: final(self).saved().exclusion_patterns, ..old(self).saved() }),
    {
        self.settings.exclusion_patterns = Some(copy_texts(patterns));
    }

    /// What is recorded and how it is folded together.
    pub fn options(&self) -> (o: AggregationOptions)
        ensures
            o == options_of(self.saved()),
    {
        let names = match self.settings.records_file_names {
            Some(b) => b,
            None => true,
        };
        AggregationOptions {
            minimum_recorded_byte_delta: match self.settings.minimum_recorded_byte_delta {
                Some(d) => if d < 0 { 0 } else { d },
                None => DEFAULT_MINIMUM_BYTE_DELTA,
            },
            min_file_bytes: self.settings.min_file_bytes,
            max_file_bytes: self.settings.max_file_bytes,
            records_file_names: names,
            aggregation_window_secs: if names {
                0
            } else {
                match self.settings.aggregation_window_secs {
                    Some(w) => if w < 1 { 1 } else { w },
                    None => DEFAULT_AGGREGATION_WINDOW_SECS,
                }
            },
        }
    }

    /// Whether rows name the files that changed, or say how much changed in
    /// the folder over a window.
    pub fn set_recording(&mut self, records_file_names: bool, aggregation_window_secs: u64)
        ensures
            final(self).spelling() == old(self).spelling(),
            final(self).saved() == (Settings {
                records_file_names: Some(records_file_names),
                aggregation_window_secs: Some(aggregation_window_secs),
                ..old(self).saved()
            }),
    {
        self.settings.records_file_names = Some(records_file_names);
        self.settings.aggregation_window_secs = Some(aggregation_window_secs);
    }

    pub fn set_minimum_byte_delta(&mut self, bytes: i64)
        ensures
            final(self).spelling() == old(self).spelling(),
            final(self).saved() == (Settings { minimum_recorded_byte_delta: Some(if bytes < 0 { 0 } else { bytes }), ..old(self).saved() }),
    {
        self.settings.minimum_recorded_byte_delta = Some(if bytes < 0 { 0 } else { bytes });
    }

    /// Every setting back to what shipped, leaving the folder list and the
    /// records alone: the way out of an edit whose effect the user cannot find.
    pub fn restore_default_settings(&mut self)
        ensures
            final(self).spelling() == old(self).spelling(),
            final(self).saved().is_shipped(),
            final(self).saved().roots@ == old(self).saved().roots@,
            final(self).saved().records_epoch == old(self).saved().records_epoch,
            final(self).saved().records_reset_at_ns == old(self).saved().records_reset_at_ns,
    {
        let mut roots: Vec<StoredWatch> = Vec::new();
        std::mem::swap(&mut roots, &mut self.settings.roots);
        let mut fresh = Settings::shipped();
        fresh.roots = roots;
        fresh.records_epoch = self.settings.records_epoch;
        fresh.records_reset_at_ns = self.settings.records_reset_at_ns;
        self.settings = fresh;
    }
}

} // verus!
