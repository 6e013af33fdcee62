//! The NTFS change journal: which volume a Windows watch reads, how the
//! journal's records are laid out, and what each record means for the watch.
//!
//! The journal is the volume's own log of every change, numbered with a USN
//! that keeps increasing across reboots. One handle covers the whole volume,
//! so every record is filtered down to the watched root here. Opening the
//! volume, reading it and resolving a directory's path are the caller's; what
//! the bytes say and what the watch reports is decided below.

use vstd::prelude::*;

use crate::chars::chars_of;
use crate::monitor::{kind_view, report_views, ChangeKind, KindView, Report, ReportView};
use crate::paths::inside;

verus! {

/// A separator in the first part of a Windows path, where `/` and `\` mean
/// the same.
pub open spec fn separator(c: char) -> bool {
    c == '\\' || c == '/'
}

/// An ASCII letter, the only thing that names a drive.
pub open spec fn drive_letter(c: char) -> bool {
    ('a' <= c && c <= 'z') || ('A' <= c && c <= 'Z')
}

/// A drive letter as Windows reports it: upper case.
pub open spec fn upper(c: char) -> char {
    if 'a' <= c && c <= 'z' { ((c as u32) - 32) as char } else { c }
}

/// The drive that `rest` begins with, when it is a letter, a colon, and then
/// nothing or a separator.
pub open spec fn exact_drive(rest: Seq<char>) -> Option<char> {
    if rest.len() >= 2 && drive_letter(rest[0]) && rest[1] == ':' && (rest.len() == 2 || separator(rest[2])) {
        Some(upper(rest[0]))
    } else {
        None
    }
}

/// The drive `root` lives on: a path that starts with a drive letter and a
/// colon, or the verbatim `\\?\` form of one. A path that starts with two
/// separators otherwise is a share, a device or a verbatim path that is not a
/// drive, and lives on none.
pub open spec fn disk_letter_of(root: Seq<char>) -> Option<char> {
    if root.len() >= 2 && separator(root[0]) && separator(root[1]) {
        if root.len() >= 4 && root[2] == '?' && separator(root[3]) {
            exact_drive(root.skip(4))
        } else {
            None
        }
    } else if root.len() >= 2 && drive_letter(root[0]) && root[1] == ':' {
        Some(upper(root[0]))
    } else {
        None
    }
}

fn is_separator(c: char) -> (r: bool)
    ensures
        r == separator(c),
{
    c == '\\' || c == '/'
}

fn is_drive_letter(c: char) -> (r: bool)
    ensures
        r == drive_letter(c),
{
    ('a' <= c && c <= 'z') || ('A' <= c && c <= 'Z')
}

fn upper_of(c: char) -> (r: char)
    ensures
        r == upper(c),
{
    if 'a' <= c && c <= 'z' {
        let n: u32 = (c as u32) - 32;
        let b: u8 = n as u8;
        b as char
    } else {
        c
    }
}

/// The drive a watch lives on, or `None` when the root is not on a local
/// volume: a UNC share has no journal this process can read.
pub fn disk_of(root: &str) -> (r: Option<char>)
    ensures
        r == disk_letter_of(root@),
{
    let s = chars_of(root);
    if s.len() >= 2 && is_separator(s[0]) && is_separator(s[1]) {
        if s.len() >= 4 && s[2] == '?' && is_separator(s[3]) {
            proof {
                let rest = root@.skip(4);
                if rest.len() >= 3 {
                    assert(rest[2] == root@[6]);
                }
                if rest.len() >= 2 {
                    assert(rest[0] == root@[4]);
                    assert(rest[1] == root@[5]);
                }
            }
            if s.len() >= 6 && is_drive_letter(s[4]) && s[5] == ':' && (s.len() == 6 || is_separator(s[6])) {
                Some(upper_of(s[4]))
            } else {
                None
            }
        } else {
            None
        }
    } else if s.len() >= 2 && is_drive_letter(s[0]) && s[1] == ':' {
        Some(upper_of(s[0]))
    } else {
        None
    }
}


/// Reason bits a journal record carries (`USN_REASON_*`).
pub const DATA_OVERWRITE: u32 = 0x1;
pub const DATA_EXTEND: u32 = 0x2;
pub const DATA_TRUNCATION: u32 = 0x4;
pub const FILE_CREATE: u32 = 0x100;
pub const FILE_DELETE: u32 = 0x200;
pub const RENAME_OLD_NAME: u32 = 0x1000;
pub const RENAME_NEW_NAME: u32 = 0x2000;
pub const BASIC_INFO_CHANGE: u32 = 0x8000;
pub const CLOSE: u32 = 0x8000_0000;

/// Every reason this watch asks the journal for.
pub const WATCHED: u32 = DATA_OVERWRITE | DATA_EXTEND | DATA_TRUNCATION | FILE_CREATE | FILE_DELETE
    | RENAME_OLD_NAME | RENAME_NEW_NAME | BASIC_INFO_CHANGE;

/// The reasons that mean the content changed.
pub const CONTENT: u32 = DATA_OVERWRITE | DATA_EXTEND | DATA_TRUNCATION | BASIC_INFO_CHANGE;

/// The reasons a rename writes.
pub const RENAMED: u32 = RENAME_OLD_NAME | RENAME_NEW_NAME;

/// The size of a version 2 record's fixed part (`USN_RECORD_V2`).
pub const RECORD_HEADER: usize = 64;

/// Bounded memory under a rename storm: past this many old names waiting for
/// their new one, the stream reports a gap instead of growing without limit.
pub const MAX_PENDING: usize = 1024;

/// The changes a record's new reasons stand for, in the order they are
/// reported.
pub open spec fn kinds_of(reason: u32) -> Seq<ChangeKind> {
    (if reason & FILE_CREATE != 0 { seq![ChangeKind::Created] } else { Seq::empty() })
        + (if reason & FILE_DELETE != 0 { seq![ChangeKind::Deleted] } else { Seq::empty() })
        + (if reason & CONTENT != 0 { seq![ChangeKind::Modified] } else { Seq::empty() })
}

/// The changes a record's new reasons stand for. A reason this watch never
/// asked for is not a change.
pub fn kinds(reason: u32) -> (out: Vec<ChangeKind>)
    ensures
        out@ == kinds_of(reason),
{
    let mut out: Vec<ChangeKind> = Vec::new();
    if reason & FILE_CREATE != 0 {
        out.push(ChangeKind::Created);
    }
    if reason & FILE_DELETE != 0 {
        out.push(ChangeKind::Deleted);
    }
    if reason & CONTENT != 0 {
        out.push(ChangeKind::Modified);
    }
    assert(out@ =~= kinds_of(reason));
    out
}

/// Which reasons one file's open session has already reported.
///
/// A record's reason field is cumulative within a session, so creating,
/// writing and closing a file arrives as `CREATE`, then `CREATE|EXTEND`, then
/// `CREATE|EXTEND|CLOSE`. Only the bits that are new are a change. The close
/// bit ends the session, so the next open reports its own writes again.
#[derive(Debug, Clone, Copy, PartialEq, Eq, Structural)]
pub struct Session {
    /// The file whose session this is.
    pub file: u64,
    /// The reasons already reported for it.
    pub reported: u32,
}

/// The reasons already reported for `file`: none when the session is
/// another file's.
pub open spec fn prior(s: Session, file: u64) -> u32 {
    if s.file != file { 0 } else { s.reported }
}

/// The session after a record for `file` with `reason`.
pub open spec fn after(s: Session, file: u64, reason: u32) -> Session {
    if reason & CLOSE != 0 {
        Session { file: 0, reported: 0 }
    } else {
        Session { file, reported: prior(s, file) | reason }
    }
}

impl Session {
    /// No session open.
    pub fn new() -> (s: Session)
        ensures
            s == (Session { file: 0, reported: 0 }),
    {
        Session { file: 0, reported: 0 }
    }

    /// The reasons of a record for `file` that its session has not reported
    /// yet; those are its change, and nothing is reported twice.
    pub fn fresh(&mut self, file: u64, reason: u32) -> (r: u32)
        ensures
            r == reason & !prior(*old(self), file),
            *final(self) == after(*old(self), file, reason),
            r & prior(*old(self), file) == 0,
            r | prior(*old(self), file) == reason | prior(*old(self), file),
    {
        if self.file != file {
            self.file = file;
            self.reported = 0;
        }
        let seen = self.reported;
        let r = reason & !seen;
        self.reported = seen | reason;
        if reason & CLOSE != 0 {
            self.file = 0;
            self.reported = 0;
        }
        assert(r & seen == 0) by (bit_vector)
            requires
                r == reason & !seen,
        ;
        assert(r | seen == reason | seen) by (bit_vector)
            requires
                r == reason & !seen,
        ;
        r
    }
}

impl Default for Session {
    fn default() -> (s: Session)
        ensures
            s == (Session { file: 0, reported: 0 }),
    {
        Session::new()
    }
}

/// The 16-bit number two little-endian bytes at `p` spell. Windows runs
/// little-endian, and the journal writes its records in the machine's order.
pub open spec fn u16_at(b: Seq<u8>, p: int) -> u16 {
    (b[p] as u16) | ((b[p + 1] as u16) << 8)
}

/// The 32-bit number at `p`.
pub open spec fn u32_at(b: Seq<u8>, p: int) -> u32 {
    crate::baseline::u32_of(b[p], b[p + 1], b[p + 2], b[p + 3])
}

/// The 64-bit number at `p`.
pub open spec fn u64_at(b: Seq<u8>, p: int) -> u64 {
    crate::baseline::u64_of(b[p], b[p + 1], b[p + 2], b[p + 3], b[p + 4], b[p + 5], b[p + 6], b[p + 7])
}

pub(crate) fn read16(b: &[u8], p: usize) -> (r: u16)
    requires
        p + 2 <= b@.len(),
    ensures
        r == u16_at(b@, p as int),
{
    (b[p] as u16) | ((b[p + 1] as u16) << 8)
}

pub(crate) fn read32(b: &[u8], p: usize) -> (r: u32)
    requires
        p + 4 <= b@.len(),
    ensures
        r == u32_at(b@, p as int),
{
    (b[p] as u32) | ((b[p + 1] as u32) << 8) | ((b[p + 2] as u32) << 16) | ((b[p + 3] as u32) << 24)
}

pub(crate) fn read64(b: &[u8], p: usize) -> (r: u64)
    requires
        p + 8 <= b@.len(),
    ensures
        r == u64_at(b@, p as int),
{
    (b[p] as u64) | ((b[p + 1] as u64) << 8) | ((b[p + 2] as u64) << 16) | ((b[p + 3] as u64) << 24)
        | ((b[p + 4] as u64) << 32) | ((b[p + 5] as u64) << 40) | ((b[p + 6] as u64) << 48)
        | ((b[p + 7] as u64) << 56)
}

/// What this watch reads of one journal record.
#[derive(Debug, Clone, PartialEq, Eq)]
pub struct UsnRecord {
    /// The file's reference number.
    pub file: u64,
    /// Its parent directory's reference number.
    pub parent: u64,
    /// The record's place in the journal.
    pub usn: i64,
    /// Why it was written (`USN_REASON_*` bits).
    pub reason: u32,
    /// The entry's own name as UTF-16 units, or `None` when the record's
    /// name lies outside the record.
    pub name: Option<Vec<u16>>,
}

/// A record as numbers and units.
pub struct RecordView {
    pub file: u64,
    pub parent: u64,
    pub usn: i64,
    pub reason: u32,
    pub name: Option<Seq<u16>>,
}

impl View for UsnRecord {
    type V = RecordView;

    open spec fn view(&self) -> RecordView {
        RecordView {
            file: self.file,
            parent: self.parent,
            usn: self.usn,
            reason: self.reason,
            name: match self.name {
                Some(units) => Some(units@),
                None => None,
            },
        }
    }
}

/// Whether a version 2 record starts at `at`: its fixed part is there, it
/// says it is version 2, and its length covers the fixed part and stays
/// inside `b`. Anything else means this is not the layout being read.
pub open spec fn record_ok(b: Seq<u8>, at: int) -> bool {
    &&& 0 <= at
    &&& at + RECORD_HEADER <= b.len()
    &&& u16_at(b, at + 4) == 2
    &&& u32_at(b, at) >= RECORD_HEADER
    &&& at + u32_at(b, at) <= b.len()
}

/// The name of the record at `at`: `FileNameLength` bytes at
/// `FileNameOffset` into the record, read as UTF-16 units, when they lie
/// inside the record.
pub open spec fn name_units(b: Seq<u8>, at: int) -> Option<Seq<u16>> {
    let len = u32_at(b, at);
    let offset = u16_at(b, at + 58);
    let bytes = u16_at(b, at + 56);
    if offset + bytes <= len {
        Some(Seq::new((bytes / 2) as nat, |i: int| u16_at(b, at + offset + 2 * i)))
    } else {
        None
    }
}

/// The record at `at`.
pub open spec fn record_view(b: Seq<u8>, at: int) -> RecordView {
    RecordView {
        file: u64_at(b, at + 8),
        parent: u64_at(b, at + 16),
        usn: u64_at(b, at + 24) as i64,
        reason: u32_at(b, at + 40),
        name: name_units(b, at),
    }
}

/// The records from `at` on, up to the first that is not a version 2 record.
pub open spec fn records_from(b: Seq<u8>, at: int) -> Seq<RecordView>
    decreases b.len() - at,
{
    if record_ok(b, at) {
        seq![record_view(b, at)] + records_from(b, at + u32_at(b, at))
    } else {
        Seq::empty()
    }
}

/// What one journal read holds: the USN to continue from, in its first eight
/// bytes, then the records. `None` when the read is shorter than that.
pub open spec fn journal_read(b: Seq<u8>) -> Option<(i64, Seq<RecordView>)> {
    if b.len() >= 8 { Some((u64_at(b, 0) as i64, records_from(b, 8))) } else { None }
}

fn name_at(b: &[u8], at: usize) -> (r: Option<Vec<u16>>)
    requires
        record_ok(b@, at as int),
    ensures
        (match r {
            Some(units) => Some(units@),
            None => None,
        }) == name_units(b@, at as int),
{
    let n = b.len();
    let len = read32(b, at);
    let offset = read16(b, at + 58);
    let bytes = read16(b, at + 56);
    if (offset as u32) + (bytes as u32) > len {
        return None;
    }
    let count: usize = (bytes / 2) as usize;
    let start: usize = at + offset as usize;
    let mut units: Vec<u16> = Vec::new();
    let mut i: usize = 0;
    while i < count
        invariant
            i <= count,
            count == bytes / 2,
            start == at + offset,
            record_ok(b@, at as int),
            n == b@.len(),
            offset + bytes <= len,
            len == u32_at(b@, at as int),
            units@.len() == i,
            forall|j: int| 0 <= j < i ==> units@[j] == u16_at(b@, at + offset + 2 * j),
        decreases count - i,
    {
        units.push(read16(b, start + 2 * i));
        i = i + 1;
    }
    assert(units@ =~= Seq::new((bytes / 2) as nat, |j: int| u16_at(b@, at + offset + 2 * j)));
    Some(units)
}

/// The USN to continue from and the records of one journal read, or `None`
/// when the read is too short to hold the USN.
pub fn records(b: &[u8]) -> (r: Option<(i64, Vec<UsnRecord>)>)
    ensures
        (match r {
            Some((next, found)) => Some((next, found@.map_values(|x: UsnRecord| x@))),
            None => None,
        }) == journal_read(b@),
{
    if b.len() < 8 {
        return None;
    }
    let next = read64(b, 0) as i64;
    let mut found: Vec<UsnRecord> = Vec::new();
    let mut at: usize = 8;
    while at <= b.len() && b.len() - at >= RECORD_HEADER && read16(b, at + 4) == 2 && read32(b, at) as usize
        >= RECORD_HEADER && (read32(b, at) as usize) <= b.len() - at
        invariant
            8 <= at <= b@.len(),
            found@.map_values(|x: UsnRecord| x@) + records_from(b@, at as int) == records_from(b@, 8),
        decreases b@.len() - at,
    {
        let len = read32(b, at) as usize;
        let record = UsnRecord {
            file: read64(b, at + 8),
            parent: read64(b, at + 16),
            usn: read64(b, at + 24) as i64,
            reason: read32(b, at + 40),
            name: name_at(b, at),
        };
        let ghost before = found@.map_values(|x: UsnRecord| x@);
        found.push(record);
        proof {
            assert(record@ == record_view(b@, at as int));
            assert(found@.map_values(|x: UsnRecord| x@) =~= before.push(record_view(b@, at as int)));
            assert(records_from(b@, at as int) == seq![record_view(b@, at as int)] + records_from(b@, at + len));
            assert(found@.map_values(|x: UsnRecord| x@) + records_from(b@, at + len) =~= before + records_from(b@, at as int));
        }
        at = at + len;
    }
    proof {
        assert(!record_ok(b@, at as int));
        assert(records_from(b@, at as int) =~= Seq::<RecordView>::empty());
        assert(found@.map_values(|x: UsnRecord| x@) =~= records_from(b@, 8));
    }
    Some((next, found))
}


/// UTF-16 decoding: a unit outside the surrogate range is its own character,
/// a high surrogate followed by a low one is the character they encode
/// together, and anything else is not UTF-16.
pub open spec fn utf16_decoded(u: Seq<u16>) -> Option<Seq<char>>
    decreases u.len(),
{
    if u.len() == 0 {
        Some(Seq::empty())
    } else if u[0] < 0xD800 || u[0] > 0xDFFF {
        match utf16_decoded(u.skip(1)) {
            Some(rest) => Some(seq![u[0] as char] + rest),
            None => None,
        }
    } else if u[0] <= 0xDBFF && u.len() >= 2 && 0xDC00 <= u[1] && u[1] <= 0xDFFF {
        match utf16_decoded(u.skip(2)) {
            Some(rest) => Some(seq![(0x10000 + (u[0] - 0xD800) * 0x400 + (u[1] - 0xDC00)) as char] + rest),
            None => None,
        }
    } else {
        None
    }
}

/// `String::from_utf16`: the text the units encode, or `None` when they are
/// not UTF-16.
#[verifier::external_body]
fn utf16_text(units: &[u16]) -> (r: Option<String>)
    ensures
        r matches Some(text) ==> utf16_decoded(units@) == Some(text@),
        r is None ==> utf16_decoded(units@) is None,
{
    String::from_utf16(units).ok()
}

/// The name a record carries, as text: `None` when it lies outside the
/// record or is not UTF-16.
pub open spec fn name_text(name: Option<Seq<u16>>) -> Option<Seq<char>> {
    match name {
        Some(units) => utf16_decoded(units),
        None => None,
    }
}

/// The event ID a record is reported under: its USN, never negative.
pub open spec fn event_id_of(usn: i64) -> u64 {
    if usn < 0 { 0 } else { usn as u64 }
}

fn event_id(usn: i64) -> (id: u64)
    ensures
        id == event_id_of(usn),
{
    if usn < 0 { 0 } else { usn as u64 }
}

/// The path of the entry `name` in the directory spelled `directory`.
pub open spec fn entry_path(directory: Seq<char>, name: Seq<char>) -> Seq<char> {
    crate::paths::windows_normalized(crate::chars::trim_end(directory, '\\') + seq!['\\'] + name)
}

/// What a move is for a watch of `root`: a rename when it ends inside, a
/// departure when only its start was inside, nothing when it touches the
/// root nowhere.
pub open spec fn moved(root: Seq<char>, from: Seq<char>, to: Seq<char>, id: u64) -> Seq<ReportView> {
    if inside(root, to) {
        seq![ReportView::Changed(KindView::Renamed(Some(from)), to, id)]
    } else if inside(root, from) {
        seq![ReportView::Changed(KindView::Deleted, from, id)]
    } else {
        Seq::empty()
    }
}

/// Whether `i` is the first old name waiting for `file`.
pub open spec fn first_pending(pending: Seq<(u64, Seq<char>)>, file: u64, i: int) -> bool {
    &&& 0 <= i < pending.len()
    &&& pending[i].0 == file
    &&& forall|j: int| 0 <= j < i ==> pending[j].0 != file
}

/// What the reader carries from one record to the next.
pub struct JournalState {
    /// Whether the host has been told the replay is over.
    announced: bool,
    /// Old names waiting for the new name that follows them, by reference
    /// number.
    pending: Vec<(u64, String)>,
    session: Session,
    /// The last directory resolved, and its path. A burst of records shares
    /// a parent, and resolving one costs a handle open plus a path query.
    directory: u64,
    directory_path: Option<String>,
    /// Latched: a tree being deleted makes every record in it unnameable, and
    /// one gap per record would bury the report already made.
    unnamed: bool,
}

/// The reader's state as values.
pub struct StateView {
    pub announced: bool,
    pub pending: Seq<(u64, Seq<char>)>,
    pub session: Session,
    pub directory: u64,
    pub directory_path: Option<Seq<char>>,
    pub unnamed: bool,
}

impl View for JournalState {
    type V = StateView;

    closed spec fn view(&self) -> StateView {
        StateView {
            announced: self.announced,
            pending: self.pending@.map_values(|p: (u64, String)| (p.0, p.1@)),
            session: self.session,
            directory: self.directory,
            directory_path: match self.directory_path {
                Some(p) => Some(p@),
                None => None,
            },
            unnamed: self.unnamed,
        }
    }
}

/// The reader's state after a record, what it reports at once, and — when
/// the record is news for this watch and has a name — its new reasons and
/// its name, which [`JournalState::place`] needs the parent directory for.
pub open spec fn accepted(s: StateView, r: RecordView, live: i64) -> (StateView, Seq<ReportView>, Option<(u32, Seq<char>)>) {
    let id = event_id_of(r.usn);
    let announce = !s.announced && r.usn >= live;
    let caught: Seq<ReportView> = if announce { seq![ReportView::CaughtUp(id)] } else { Seq::empty() };
    let reason = r.reason & !prior(s.session, r.file);
    let s1 = StateView {
        announced: s.announced || announce,
        pending: s.pending,
        session: after(s.session, r.file, r.reason),
        directory: s.directory,
        directory_path: s.directory_path,
        unnamed: s.unnamed,
    };
    if reason & WATCHED == 0 {
        (s1, caught, None)
    } else {
        match name_text(r.name) {
            None => (s1, caught.push(ReportView::Gap(id)), None),
            Some(name) => {
                let s2 = if reason & RENAMED != 0 {
                    StateView {
                        announced: s1.announced,
                        pending: s1.pending,
                        session: s1.session,
                        directory: 0,
                        directory_path: None,
                        unnamed: s1.unnamed,
                    }
                } else {
                    s1
                };
                (s2, caught, Some((reason, name)))
            },
        }
    }
}

/// The reader's state after placing a named record, and what it reports.
/// A record whose parent could not be resolved is a gap, said once until a
/// name resolves again. A new name completes the move its old name started;
/// an old name waits for it; anything else inside the root is a change per
/// new reason.
pub open spec fn placed(s: StateView, root: Seq<char>, r: RecordView, reason: u32, name: Seq<char>) -> (StateView, Seq<ReportView>) {
    let id = event_id_of(r.usn);
    if s.directory != r.parent || s.directory_path is None {
        if s.unnamed {
            (s, Seq::empty())
        } else {
            (
                StateView {
                    announced: s.announced,
                    pending: s.pending,
                    session: s.session,
                    directory: s.directory,
                    directory_path: s.directory_path,
                    unnamed: true,
                },
                seq![ReportView::Gap(id)],
            )
        }
    } else {
        let path = entry_path(s.directory_path->0, name);
        let s1 = StateView {
            announced: s.announced,
            pending: s.pending,
            session: s.session,
            directory: s.directory,
            directory_path: s.directory_path,
            unnamed: false,
        };
        if reason & RENAME_NEW_NAME != 0 {
            if exists|i: int| first_pending(s1.pending, r.file, i) {
                let i = choose|i: int| first_pending(s1.pending, r.file, i);
                (
                    StateView {
                        announced: s1.announced,
                        pending: s1.pending.remove(i),
                        session: s1.session,
                        directory: s1.directory,
                        directory_path: s1.directory_path,
                        unnamed: s1.unnamed,
                    },
                    moved(root, s1.pending[i].1, path, id),
                )
            } else {
                (s1, Seq::empty())
            }
        } else if reason & RENAME_OLD_NAME != 0 {
            let full = s1.pending.len() == MAX_PENDING;
            (
                StateView {
                    announced: s1.announced,
                    pending: if full { seq![(r.file, path)] } else { s1.pending.push((r.file, path)) },
                    session: s1.session,
                    directory: s1.directory,
                    directory_path: s1.directory_path,
                    unnamed: s1.unnamed,
                },
                if full { seq![ReportView::Gap(id)] } else { Seq::empty() },
            )
        } else if !inside(root, path) {
            (s1, Seq::empty())
        } else {
            (s1, kinds_of(reason).map_values(|k: ChangeKind| ReportView::Changed(kind_view(k), path, id)))
        }
    }
}

/// The old names still waiting that lie inside `root`, in the order they
/// arrived: files that left, whatever they became.
pub open spec fn departed(pending: Seq<(u64, Seq<char>)>, root: Seq<char>) -> Seq<Seq<char>>
    decreases pending.len(),
{
    if pending.len() == 0 {
        Seq::empty()
    } else {
        let rest = departed(pending.drop_last(), root);
        if inside(root, pending.last().1) { rest.push(pending.last().1) } else { rest }
    }
}

proof fn first_pending_is_unique(pending: Seq<(u64, Seq<char>)>, file: u64, i: int, k: int)
    requires
        first_pending(pending, file, i),
        first_pending(pending, file, k),
    ensures
        i == k,
{
    if i < k {
        assert(pending[i].0 != file);
    } else if k < i {
        assert(pending[k].0 != file);
    }
}

fn entry_path_of(directory: &str, name: &str) -> (path: String)
    ensures
        path@ == entry_path(directory@, name@),
{
    let dir = chars_of(directory);
    let mut text = crate::chars::trimmed_end(dir.as_slice(), '\\');
    text.push('\\');
    crate::chars::push_str(&mut text, name);
    let joined = crate::chars::string_of(text.as_slice());
    proof {
        assert(joined@ =~= crate::chars::trim_end(directory@, '\\') + seq!['\\'] + name@);
    }
    crate::paths::normalize_windows(joined.as_str())
}

impl JournalState {
    /// A reader that has reported nothing yet.
    pub fn new() -> (s: JournalState)
        ensures
            s@ == (StateView {
                announced: false,
                pending: Seq::empty(),
                session: Session { file: 0, reported: 0 },
                directory: 0,
                directory_path: None,
                unnamed: false,
            }),
    {
        let s = JournalState {
            announced: false,
            pending: Vec::new(),
            session: Session::new(),
            directory: 0,
            directory_path: None,
            unnamed: false,
        };
        assert(s@.pending =~= Seq::<(u64, Seq<char>)>::empty());
        s
    }

    /// The event that tells the host the replay is over, the first time the
    /// reader's position `cursor` reaches `live`, where history ended when
    /// the watch started.
    pub fn announce(&mut self, cursor: i64, live: i64) -> (r: Option<u64>)
        ensures
            !old(self)@.announced && cursor >= live ==> r == Some(event_id_of(cursor)) && final(self)@ == (StateView {
                announced: true,
                ..old(self)@
            }),
            !(!old(self)@.announced && cursor >= live) ==> r is None && final(self)@ == old(self)@,
    {
        if cursor >= live && !self.announced {
            self.announced = true;
            Some(event_id(cursor))
        } else {
            None
        }
    }

    /// Reads one record: says the replay is over when it reaches `live`,
    /// takes the record's new reasons from its file's session, and reports a
    /// name that is not UTF-16 as a gap. Returns what to report now and,
    /// for a named record this watch asked about, its new reasons and name.
    pub fn accept(&mut self, r: &UsnRecord, live: i64) -> (out: (Vec<Report>, Option<(u32, String)>))
        ensures
            final(self)@ == accepted(old(self)@, r@, live).0,
            report_views(out.0@) == accepted(old(self)@, r@, live).1,
            (match out.1 {
                Some((reason, name)) => Some((reason, name@)),
                None => None,
            }) == accepted(old(self)@, r@, live).2,
    {
        let ghost s = self@;
        let id = event_id(r.usn);
        let mut reports: Vec<Report> = Vec::new();
        if !self.announced && r.usn >= live {
            self.announced = true;
            reports.push(Report::CaughtUp { event_id: id });
        }
        let reason = self.session.fresh(r.file, r.reason);
        proof {
            assert(self@.pending =~= s.pending);
        }
        if reason & WATCHED == 0 {
            assert(report_views(reports@) =~= accepted(s, r@, live).1);
            return (reports, None);
        }
        let text = match &r.name {
            Some(units) => utf16_text(units.as_slice()),
            None => None,
        };
        match text {
            None => {
                reports.push(Report::Gap { event_id: id });
                assert(report_views(reports@) =~= accepted(s, r@, live).1);
                (reports, None)
            },
            Some(name) => {
                if reason & RENAMED != 0 {
                    self.directory = 0;
                    self.directory_path = None;
                }
                assert(report_views(reports@) =~= accepted(s, r@, live).1);
                assert(self@.pending =~= s.pending);
                (reports, Some((reason, name)))
            },
        }
    }

    /// Whether the directory `parent` has to be resolved before a record in
    /// it is placed.
    pub fn needs_directory(&self, parent: u64) -> (r: bool)
        ensures
            r == (self@.directory != parent || self@.directory_path is None),
    {
        self.directory != parent || self.directory_path.is_none()
    }

    /// Keeps what resolving the directory `parent` gave: its path, or `None`
    /// when it could not be opened.
    pub fn remember(&mut self, parent: u64, path: Option<String>)
        ensures
            final(self)@ == (StateView {
                directory: parent,
                directory_path: match path {
                    Some(p) => Some(p@),
                    None => None,
                },
                ..old(self)@
            }),
    {
        let ghost s = self@;
        self.directory = parent;
        self.directory_path = path;
        assert(self@.pending =~= s.pending);
    }

    fn first_waiting(&self, file: u64) -> (r: Option<usize>)
        ensures
            r matches Some(i) ==> first_pending(self@.pending, file, i as int),
            r is None ==> !exists|i: int| first_pending(self@.pending, file, i),
    {
        let mut i: usize = 0;
        while i < self.pending.len()
            invariant
                i <= self.pending@.len(),
                forall|j: int| 0 <= j < i ==> self@.pending[j].0 != file,
            decreases self.pending@.len() - i,
        {
            if self.pending[i].0 == file {
                assert(self@.pending[i as int].0 == file);
                return Some(i);
            }
            i = i + 1;
        }
        None
    }

    /// Places a record accepted with new reasons `reason` and `name`, once
    /// its parent directory has been resolved (or could not be), and says
    /// what it reports for a watch of `root`.
    pub fn place(&mut self, root: &str, r: &UsnRecord, reason: u32, name: &str) -> (out: Vec<Report>)
        ensures
            final(self)@ == placed(old(self)@, root@, r@, reason, name@).0,
            report_views(out@) == placed(old(self)@, root@, r@, reason, name@).1,
            old(self)@.pending.len() <= MAX_PENDING ==> final(self)@.pending.len() <= MAX_PENDING,
    {
        let ghost s = self@;
        let id = event_id(r.usn);
        let mut out: Vec<Report> = Vec::new();
        if self.directory != r.parent || self.directory_path.is_none() {
            if !self.unnamed {
                self.unnamed = true;
                out.push(Report::Gap { event_id: id });
            }
            assert(self@.pending =~= s.pending);
            assert(report_views(out@) =~= placed(s, root@, r@, reason, name@).1);
            return out;
        }
        let path = match &self.directory_path {
            Some(dir) => entry_path_of(dir.as_str(), name),
            None => entry_path_of("", name),
        };
        self.unnamed = false;
        assert(self@.pending =~= s.pending);
        if reason & RENAME_NEW_NAME != 0 {
            match self.first_waiting(r.file) {
                None => {
                    assert(report_views(out@) =~= placed(s, root@, r@, reason, name@).1);
                },
                Some(i) => {
                    proof {
                        let k = choose|k: int| first_pending(s.pending, r.file, k);
                        first_pending_is_unique(s.pending, r.file, i as int, k);
                    }
                    let (_, from) = self.pending.remove(i);
                    proof {
                        assert(self@.pending =~= s.pending.remove(i as int));
                    }
                    let to_inside = crate::paths::is_inside(root, path.as_str());
                    let from_inside = crate::paths::is_inside(root, from.as_str());
                    if to_inside {
                        out.push(Report::Changed {
                            kind: ChangeKind::Renamed { previous_path: Some(from) },
                            path,
                            event_id: id,
                        });
                    } else if from_inside {
                        out.push(Report::Changed { kind: ChangeKind::Deleted, path: from, event_id: id });
                    }
                    assert(report_views(out@) =~= placed(s, root@, r@, reason, name@).1);
                },
            }
            return out;
        }
        if reason & RENAME_OLD_NAME != 0 {
            if self.pending.len() == MAX_PENDING {
                self.pending = Vec::new();
                out.push(Report::Gap { event_id: id });
            }
            let ghost before = self@.pending;
            self.pending.push((r.file, path));
            proof {
                assert(self@.pending =~= before.push((r.file, placed_path(s, name@))));
                if s.pending.len() == MAX_PENDING {
                    assert(self@.pending =~= seq![(r.file, placed_path(s, name@))]);
                }
            }
            assert(report_views(out@) =~= placed(s, root@, r@, reason, name@).1);
            return out;
        }
        if !crate::paths::is_inside(root, path.as_str()) {
            assert(report_views(out@) =~= placed(s, root@, r@, reason, name@).1);
            return out;
        }
        let found = kinds(reason);
        let mut k: usize = 0;
        while k < found.len()
            invariant
                k <= found@.len(),
                found@ == kinds_of(reason),
                path@ == placed_path(s, name@),
                report_views(out@) == found@.take(k as int).map_values(
                    |c: ChangeKind| ReportView::Changed(kind_view(c), path@, id),
                ),
            decreases found@.len() - k,
        {
            let ghost before = report_views(out@);
            let kind = found[k].copy();
            let at = path.clone();
            out.push(Report::Changed { kind, path: at, event_id: id });
            proof {
                assert(report_views(out@) =~= before.push(ReportView::Changed(kind_view(found@[k as int]), path@, id)));
                assert(found@.take(k + 1) =~= found@.take(k as int).push(found@[k as int]));
                assert(report_views(out@) =~= found@.take(k + 1).map_values(
                    |c: ChangeKind| ReportView::Changed(kind_view(c), path@, id),
                ));
            }
            k = k + 1;
        }
        proof {
            assert(found@.take(found@.len() as int) =~= found@);
            assert(report_views(out@) =~= placed(s, root@, r@, reason, name@).1);
        }
        out
    }

    /// Forgets every old name still waiting: the journal no longer covers
    /// where this watch was reading.
    pub fn forget_pending(&mut self)
        ensures
            final(self)@ == (StateView { pending: Seq::empty(), ..old(self)@ }),
    {
        self.pending = Vec::new();
        assert(self@.pending =~= Seq::<(u64, Seq<char>)>::empty());
    }

    /// The old names still waiting that lie inside `root`, in arrival order,
    /// leaving none: stopping must not discard a departure already accepted.
    pub fn departures(&mut self, root: &str) -> (gone: Vec<String>)
        ensures
            gone@.map_values(|p: String| p@) == departed(old(self)@.pending, root@),
            final(self)@ == (StateView { pending: Seq::empty(), ..old(self)@ }),
    {
        let ghost s = self@;
        let mut gone: Vec<String> = Vec::new();
        let mut i: usize = 0;
        while i < self.pending.len()
            invariant
                i <= self.pending@.len(),
                self@ == s,
                gone@.map_values(|p: String| p@) == departed(s.pending.take(i as int), root@),
            decreases self.pending@.len() - i,
        {
            let ghost before = gone@.map_values(|p: String| p@);
            proof {
                assert(s.pending.take(i + 1).drop_last() =~= s.pending.take(i as int));
                assert(s.pending[i as int] == (self.pending@[i as int].0, self.pending@[i as int].1@));
            }
            if crate::paths::is_inside(root, self.pending[i].1.as_str()) {
                gone.push(self.pending[i].1.clone());
                assert(gone@.map_values(|p: String| p@) =~= before.push(s.pending[i as int].1));
            }
            i = i + 1;
        }
        proof {
            assert(s.pending.take(s.pending.len() as int) =~= s.pending);
        }
        self.pending = Vec::new();
        assert(self@.pending =~= Seq::<(u64, Seq<char>)>::empty());
        gone
    }
}

/// The path a named record is placed at, once its directory is known.
pub open spec fn placed_path(s: StateView, name: Seq<char>) -> Seq<char> {
    entry_path(s.directory_path->0, name)
}

/// Where a watch starts reading: a stored cursor the journal can still serve
/// resumes there; one it cannot — the log wrapped past it, or it is another
/// journal's — is stale, and the watch starts at the present, `next`.
pub open spec fn resume_of(stored: Option<u64>, lowest: i64, next: i64) -> (i64, bool) {
    match stored {
        Some(at) => {
            let at = at as i64;
            if at < lowest || at > next { (next, true) } else { (at, false) }
        },
        None => (next, false),
    }
}

/// Where a watch starts reading, and whether the stored cursor was stale.
pub fn resume_from(stored: Option<u64>, lowest: i64, next: i64) -> (r: (i64, bool))
    ensures
        r == resume_of(stored, lowest, next),
{
    match stored {
        Some(at) => {
            let at = at as i64;
            if at < lowest || at > next { (next, true) } else { (at, false) }
        },
        None => (next, false),
    }
}

} // verus!
