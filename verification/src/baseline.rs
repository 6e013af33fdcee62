//! The last known state of a watched folder, as bytes on disk.
//!
//! Resident it was the largest thing a background watch held — a whole-disk
//! baseline is millions of entries and only two moments need it: a gap, and
//! the restart after one. On disk it costs nothing between those moments, and
//! it survives the process, so the changes made while Pathlight was closed
//! stop being invisible.
//!
//! The format is this crate's own and only this machine reads it: a version
//! guards it, and anything that does not read back is no baseline at all
//! rather than a wrong one. It lists every file under the watch by name, which
//! is what the journal lists too — so when the journal is encrypted, this is,
//! under the same key, in frames small enough that a whole-disk baseline never
//! has to be held twice to be sealed or opened.
//!
//! The layout, every number little-endian: the eight-byte magic, a mode byte
//! (plain or sealed), then frames, each a `u32` length and that many bytes,
//! sealed one by one when there is a key. The frames joined are the body: the
//! root, the scan's start and end, the folders that could not be read, and
//! every entry with its measurement.

use vstd::prelude::*;

use crate::event::Timestamp;
use crate::measurement::{le_bytes, FileKind, FileMeasurement, IdView, IdentityPlatform, ObjectIdentity};
use crate::snapshot::{mview, MView, ScanConsistency, ScanError, ScanErrorKind, ScanSnapshot};

verus! {

/// The first bytes of every baseline: the name and the format's version.
pub open spec fn magic() -> Seq<u8> {
    seq![0x50u8, 0x4Cu8, 0x42u8, 0x41u8, 0x53u8, 0x45u8, 0x03u8, 0x0Au8]
}

/// The mode byte of a baseline written in the clear.
pub const PLAIN: u8 = 0;

/// The mode byte of a baseline whose frames are sealed.
pub const SEALED: u8 = 1;

/// How much of the body goes into one frame.
pub const FRAME: usize = 1048576;

/// The longest string the format holds: longer than any path a filesystem
/// here allows, and what stops a corrupt length from asking for all memory.
pub const MAX_STRING: usize = 65536;

/// A frame longer than this is not one this build wrote.
pub const MAX_FRAME: usize = 1114176;

/// Four little-endian bytes of `x`.
pub open spec fn le32(x: u32) -> Seq<u8> {
    seq![(x & 0xff) as u8, ((x >> 8) & 0xff) as u8, ((x >> 16) & 0xff) as u8, ((x >> 24) & 0xff) as u8]
}

/// Eight little-endian bytes of `x`.
pub open spec fn le64(x: u64) -> Seq<u8> {
    seq![
        (x & 0xff) as u8, ((x >> 8) & 0xff) as u8, ((x >> 16) & 0xff) as u8, ((x >> 24) & 0xff) as u8,
        ((x >> 32) & 0xff) as u8, ((x >> 40) & 0xff) as u8, ((x >> 48) & 0xff) as u8, ((x >> 56) & 0xff) as u8,
    ]
}

/// The number four little-endian bytes spell.
pub open spec fn u32_of(b0: u8, b1: u8, b2: u8, b3: u8) -> u32 {
    (b0 as u32) | ((b1 as u32) << 8) | ((b2 as u32) << 16) | ((b3 as u32) << 24)
}

/// The number eight little-endian bytes spell.
pub open spec fn u64_of(b0: u8, b1: u8, b2: u8, b3: u8, b4: u8, b5: u8, b6: u8, b7: u8) -> u64 {
    (b0 as u64) | ((b1 as u64) << 8) | ((b2 as u64) << 16) | ((b3 as u64) << 24) | ((b4 as u64) << 32)
        | ((b5 as u64) << 40) | ((b6 as u64) << 48) | ((b7 as u64) << 56)
}

proof fn u32_round_trip(x: u32)
    ensures
        u32_of(le32(x)[0], le32(x)[1], le32(x)[2], le32(x)[3]) == x,
{
    let b0 = (x & 0xff) as u8;
    let b1 = ((x >> 8) & 0xff) as u8;
    let b2 = ((x >> 16) & 0xff) as u8;
    let b3 = ((x >> 24) & 0xff) as u8;
    assert(u32_of(b0, b1, b2, b3) == x) by (bit_vector)
        requires
            b0 == (x & 0xff) as u8,
            b1 == ((x >> 8) & 0xff) as u8,
            b2 == ((x >> 16) & 0xff) as u8,
            b3 == ((x >> 24) & 0xff) as u8,
    ;
}

proof fn u64_round_trip(x: u64)
    ensures
        u64_of(le64(x)[0], le64(x)[1], le64(x)[2], le64(x)[3], le64(x)[4], le64(x)[5], le64(x)[6], le64(x)[7]) == x,
{
    let b0 = (x & 0xff) as u8;
    let b1 = ((x >> 8) & 0xff) as u8;
    let b2 = ((x >> 16) & 0xff) as u8;
    let b3 = ((x >> 24) & 0xff) as u8;
    let b4 = ((x >> 32) & 0xff) as u8;
    let b5 = ((x >> 40) & 0xff) as u8;
    let b6 = ((x >> 48) & 0xff) as u8;
    let b7 = ((x >> 56) & 0xff) as u8;
    assert(u64_of(b0, b1, b2, b3, b4, b5, b6, b7) == x) by (bit_vector)
        requires
            b0 == (x & 0xff) as u8,
            b1 == ((x >> 8) & 0xff) as u8,
            b2 == ((x >> 16) & 0xff) as u8,
            b3 == ((x >> 24) & 0xff) as u8,
            b4 == ((x >> 32) & 0xff) as u8,
            b5 == ((x >> 40) & 0xff) as u8,
            b6 == ((x >> 48) & 0xff) as u8,
            b7 == ((x >> 56) & 0xff) as u8,
    ;
}

/// What a baseline holds: the root, when the scan started and finished, the
/// folders that could not be read, and every entry with its measurement.
pub struct BaselineView {
    pub root: Seq<char>,
    pub started_at: Timestamp,
    pub finished_at: Timestamp,
    pub unread: Seq<Seq<char>>,
    pub entries: Seq<(Seq<char>, MView)>,
}

/// The byte of an identity's platform.
pub open spec fn platform_byte(p: IdentityPlatform) -> u8 {
    match p {
        IdentityPlatform::Unix => 0,
        IdentityPlatform::Windows => 1,
    }
}

/// The platform a byte names: anything but the Windows byte is Unix.
pub open spec fn platform_of(b: u8) -> IdentityPlatform {
    if b == 1 { IdentityPlatform::Windows } else { IdentityPlatform::Unix }
}

/// The byte of a file's kind.
pub open spec fn kind_byte(k: FileKind) -> u8 {
    match k {
        FileKind::File => 0,
        FileKind::Directory => 1,
        FileKind::Symlink => 2,
        FileKind::Other => 3,
    }
}

/// The kind a byte names: anything unknown is a file.
pub open spec fn kind_of(b: u8) -> FileKind {
    if b == 1 {
        FileKind::Directory
    } else if b == 2 {
        FileKind::Symlink
    } else if b == 3 {
        FileKind::Other
    } else {
        FileKind::File
    }
}

/// How many native bytes an identity of a platform has: a Unix inode is
/// eight, a Windows file ID sixteen.
pub open spec fn id_width(p: IdentityPlatform) -> nat {
    match p {
        IdentityPlatform::Unix => 8,
        IdentityPlatform::Windows => 16,
    }
}

/// A string as stored: its length, then its bytes.
pub open spec fn enc_bytes(b: Seq<u8>) -> Seq<u8> {
    le32(b.len() as u32) + b
}

/// A path as stored: its UTF-8 bytes as a string.
pub open spec fn enc_text(t: Seq<char>) -> Seq<u8> {
    enc_bytes(vstd::utf8::encode_utf8(t))
}

/// An instant as stored: whole seconds, then nanoseconds.
pub open spec fn enc_time(t: Timestamp) -> Seq<u8> {
    le64(t.secs) + le32(t.nanos)
}

/// An optional number as stored: whether it is there, then it or zero.
pub open spec fn enc_opt(o: Option<u64>) -> Seq<u8> {
    seq![if o is Some { 1u8 } else { 0u8 }] + le64(
        match o {
            Some(v) => v,
            None => 0,
        },
    )
}

/// Sixteen bytes of native ID: the ID zero-filled, or its first sixteen
/// bytes.
pub open spec fn fit16(file_id: Seq<u8>) -> Seq<u8> {
    if file_id.len() >= 16 {
        file_id.subrange(0, 16)
    } else {
        file_id + Seq::new((16 - file_id.len()) as nat, |i: int| 0u8)
    }
}

/// An identity as stored: whether there is one and its platform, then the
/// volume and sixteen bytes of native ID, zero-filled.
pub open spec fn enc_id(id: Option<IdView>) -> Seq<u8> {
    match id {
        Some((p, volume, file_id)) => seq![1u8, platform_byte(p)] + le64(volume) + fit16(file_id),
        None => seq![0u8, 0u8],
    }
}

/// A measurement as stored.
pub open spec fn enc_measure(m: MView) -> Seq<u8> {
    enc_id(m.0) + seq![kind_byte(m.1)] + le64(m.2) + enc_opt(m.3) + enc_opt(m.4) + enc_time(m.5)
}

/// The unreadable folders as stored, one after another.
pub open spec fn enc_paths(paths: Seq<Seq<char>>) -> Seq<u8>
    decreases paths.len(),
{
    if paths.len() == 0 {
        seq![]
    } else {
        enc_paths(paths.drop_last()) + enc_text(paths.last())
    }
}

/// The entries as stored, one after another.
pub open spec fn enc_entries(entries: Seq<(Seq<char>, MView)>) -> Seq<u8>
    decreases entries.len(),
{
    if entries.len() == 0 {
        seq![]
    } else {
        enc_entries(entries.drop_last()) + enc_text(entries.last().0) + enc_measure(entries.last().1)
    }
}

/// The body of a baseline.
#[verifier::opaque]
pub open spec fn body_of(v: BaselineView) -> Seq<u8> {
    enc_text(v.root) + enc_time(v.started_at) + enc_time(v.finished_at) + le64(v.unread.len() as u64) + enc_paths(
        v.unread,
    ) + le64(v.entries.len() as u64) + enc_entries(v.entries)
}

/// The number four bytes at `p` spell, and where they end.
pub open spec fn take32(b: Seq<u8>, p: int) -> Option<(u32, int)> {
    if 0 <= p && p + 4 <= b.len() {
        Some((u32_of(b[p], b[p + 1], b[p + 2], b[p + 3]), p + 4))
    } else {
        None
    }
}

/// The number eight bytes at `p` spell, and where they end.
pub open spec fn take64(b: Seq<u8>, p: int) -> Option<(u64, int)> {
    if 0 <= p && p + 8 <= b.len() {
        Some((u64_of(b[p], b[p + 1], b[p + 2], b[p + 3], b[p + 4], b[p + 5], b[p + 6], b[p + 7]), p + 8))
    } else {
        None
    }
}

/// The byte at `p`, and where it ends.
pub open spec fn take8(b: Seq<u8>, p: int) -> Option<(u8, int)> {
    if 0 <= p && p < b.len() { Some((b[p], p + 1)) } else { None }
}

/// The string at `p`: its length, at most [`MAX_STRING`], then its bytes.
pub open spec fn take_bytes(b: Seq<u8>, p: int) -> Option<(Seq<u8>, int)> {
    match take32(b, p) {
        Some((n, q)) => if n > MAX_STRING || q + n > b.len() {
            None
        } else {
            Some((b.subrange(q, q + n), q + n))
        },
        None => None,
    }
}

/// The path at `p`, when its bytes are UTF-8.
pub open spec fn take_text(b: Seq<u8>, p: int) -> Option<(Seq<char>, int)> {
    match take_bytes(b, p) {
        Some((bytes, q)) => if vstd::utf8::valid_utf8(bytes) {
            Some((vstd::utf8::decode_utf8(bytes), q))
        } else {
            None
        },
        None => None,
    }
}

/// The instant at `p`: nanoseconds past a second carry into the seconds, and
/// an instant whose seconds would then not fit is unreadable.
pub open spec fn take_time(b: Seq<u8>, p: int) -> Option<(Timestamp, int)> {
    match take64(b, p) {
        Some((secs, q)) => match take32(b, q) {
            Some((nanos, r)) => if nanos < 1_000_000_000 {
                Some((Timestamp { secs, nanos }, r))
            } else if secs + nanos / 1_000_000_000 > u64::MAX {
                None
            } else {
                Some((Timestamp { secs: (secs + nanos / 1_000_000_000) as u64, nanos: (nanos % 1_000_000_000) as u32 }, r))
            },
            None => None,
        },
        None => None,
    }
}

/// The optional number at `p`.
pub open spec fn take_opt(b: Seq<u8>, p: int) -> Option<(Option<u64>, int)> {
    match take8(b, p) {
        Some((present, q)) => match take64(b, q) {
            Some((v, r)) => Some((if present == 1 { Some(v) } else { None }, r)),
            None => None,
        },
        None => None,
    }
}

/// The identity at `p`: a Unix ID keeps its first eight native bytes.
pub open spec fn take_id(b: Seq<u8>, p: int) -> Option<(Option<IdView>, int)> {
    match take8(b, p) {
        Some((present, q)) => match take8(b, q) {
            Some((pb, r)) => if present != 1 {
                Some((None, r))
            } else {
                match take64(b, r) {
                    Some((volume, s)) => if s + 16 <= b.len() {
                        let platform = platform_of(pb);
                        Some((Some((platform, volume, b.subrange(s, s + id_width(platform)))), s + 16))
                    } else {
                        None
                    },
                    None => None,
                }
            },
            None => None,
        },
        None => None,
    }
}

/// The measurement at `p`.
pub open spec fn take_measure(b: Seq<u8>, p: int) -> Option<(MView, int)> {
    match take_id(b, p) {
        Some((id, q)) => match take8(b, q) {
            Some((kind, r)) => match take64(b, r) {
                Some((logical, s)) => match take_opt(b, s) {
                    Some((allocated, t)) => match take_opt(b, t) {
                        Some((links, u)) => match take_time(b, u) {
                            Some((at, w)) => Some(((id, kind_of(kind), logical, allocated, links, at), w)),
                            None => None,
                        },
                        None => None,
                    },
                    None => None,
                },
                None => None,
            },
            None => None,
        },
        None => None,
    }
}

/// `n` paths one after another from `p`.
pub open spec fn take_paths(b: Seq<u8>, p: int, n: nat) -> Option<(Seq<Seq<char>>, int)>
    decreases n,
{
    if n == 0 {
        Some((seq![], p))
    } else {
        match take_paths(b, p, (n - 1) as nat) {
            Some((paths, q)) => match take_text(b, q) {
                Some((path, r)) => Some((paths.push(path), r)),
                None => None,
            },
            None => None,
        }
    }
}

/// `n` entries one after another from `p`.
pub open spec fn take_entries(b: Seq<u8>, p: int, n: nat) -> Option<(Seq<(Seq<char>, MView)>, int)>
    decreases n,
{
    if n == 0 {
        Some((seq![], p))
    } else {
        match take_entries(b, p, (n - 1) as nat) {
            Some((entries, q)) => match take_text(b, q) {
                Some((path, r)) => match take_measure(b, r) {
                    Some((m, s)) => Some((entries.push((path, m)), s)),
                    None => None,
                },
                None => None,
            },
            None => None,
        }
    }
}

/// What a body says, or `None` when it does not read back whole.
#[verifier::opaque]
pub open spec fn parse_body(b: Seq<u8>) -> Option<BaselineView> {
    match take_text(b, 0) {
        Some((root, p1)) => match take_time(b, p1) {
            Some((started_at, p2)) => match take_time(b, p2) {
                Some((finished_at, p3)) => match take64(b, p3) {
                    Some((n, p4)) => match take_paths(b, p4, n as nat) {
                        Some((unread, p5)) => match take64(b, p5) {
                            Some((m, p6)) => match take_entries(b, p6, m as nat) {
                                Some((entries, _)) => Some(BaselineView { root, started_at, finished_at, unread, entries }),
                                None => None,
                            },
                            None => None,
                        },
                        None => None,
                    },
                    None => None,
                },
                None => None,
            },
            None => None,
        },
        None => None,
    }
}

/// A path the format can hold: at most [`MAX_STRING`] bytes of UTF-8.
pub open spec fn storable_text(t: Seq<char>) -> bool {
    vstd::utf8::encode_utf8(t).len() <= MAX_STRING
}

/// An instant as a time: nanoseconds below one second.
pub open spec fn proper_time(t: Timestamp) -> bool {
    t.nanos < 1_000_000_000
}

/// A measurement the format holds as it is: an identity of its platform's
/// width and a proper time.
pub open spec fn storable_measure(m: MView) -> bool {
    &&& match m.0 {
        Some((p, _, file_id)) => file_id.len() == id_width(p),
        None => true,
    }
    &&& proper_time(m.5)
}

/// A baseline the format holds as it is.
pub open spec fn storable(v: BaselineView) -> bool {
    &&& storable_text(v.root)
    &&& proper_time(v.started_at)
    &&& proper_time(v.finished_at)
    &&& v.unread.len() <= u64::MAX
    &&& v.entries.len() <= u64::MAX
    &&& forall|i: int| 0 <= i < v.unread.len() ==> storable_text(#[trigger] v.unread[i])
    &&& forall|i: int| 0 <= i < v.entries.len() ==> storable_text(#[trigger] v.entries[i].0)
        && storable_measure(v.entries[i].1)
}

/// `b` holds `a` then `c` from `p`, so it holds each of them.
proof fn split_at(b: Seq<u8>, p: int, a: Seq<u8>, c: Seq<u8>)
    requires
        0 <= p,
        p + a.len() + c.len() <= b.len(),
        b.subrange(p, p + a.len() + c.len()) == a + c,
    ensures
        b.subrange(p, p + a.len()) == a,
        b.subrange(p + a.len(), p + a.len() + c.len()) == c,
{
    assert(b.subrange(p, p + a.len()) =~= (a + c).subrange(0, a.len() as int));
    assert(b.subrange(p + a.len(), p + a.len() + c.len()) =~= (a + c).subrange(a.len() as int, (a.len() + c.len()) as int));
}

proof fn reads_32(b: Seq<u8>, p: int, x: u32)
    requires
        0 <= p,
        p + 4 <= b.len(),
        b.subrange(p, p + 4) == le32(x),
    ensures
        take32(b, p) == Some((x, p + 4)),
{
    assert(b[p] == b.subrange(p, p + 4)[0]);
    assert(b[p + 1] == b.subrange(p, p + 4)[1]);
    assert(b[p + 2] == b.subrange(p, p + 4)[2]);
    assert(b[p + 3] == b.subrange(p, p + 4)[3]);
    u32_round_trip(x);
}

proof fn reads_64(b: Seq<u8>, p: int, x: u64)
    requires
        0 <= p,
        p + 8 <= b.len(),
        b.subrange(p, p + 8) == le64(x),
    ensures
        take64(b, p) == Some((x, p + 8)),
{
    let w = b.subrange(p, p + 8);
    assert(b[p] == w[0]);
    assert(b[p + 1] == w[1]);
    assert(b[p + 2] == w[2]);
    assert(b[p + 3] == w[3]);
    assert(b[p + 4] == w[4]);
    assert(b[p + 5] == w[5]);
    assert(b[p + 6] == w[6]);
    assert(b[p + 7] == w[7]);
    u64_round_trip(x);
}

proof fn reads_text(b: Seq<u8>, p: int, t: Seq<char>)
    requires
        0 <= p,
        storable_text(t),
        p + enc_text(t).len() <= b.len(),
        b.subrange(p, p + enc_text(t).len()) == enc_text(t),
    ensures
        take_text(b, p) == Some((t, p + enc_text(t).len())),
{
    let bytes = vstd::utf8::encode_utf8(t);
    let n = bytes.len() as u32;
    assert(n as int == bytes.len());
    split_at(b, p, le32(n), bytes);
    reads_32(b, p, n);
    vstd::utf8::encode_utf8_valid_utf8(t);
    vstd::utf8::encode_utf8_decode_utf8(t);
}

proof fn reads_time(b: Seq<u8>, p: int, t: Timestamp)
    requires
        0 <= p,
        proper_time(t),
        p + 12 <= b.len(),
        b.subrange(p, p + 12) == enc_time(t),
    ensures
        enc_time(t).len() == 12,
        take_time(b, p) == Some((t, p + 12)),
{
    split_at(b, p, le64(t.secs), le32(t.nanos));
    reads_64(b, p, t.secs);
    reads_32(b, p + 8, t.nanos);
}

proof fn reads_opt(b: Seq<u8>, p: int, o: Option<u64>)
    requires
        0 <= p,
        p + 9 <= b.len(),
        b.subrange(p, p + 9) == enc_opt(o),
    ensures
        enc_opt(o).len() == 9,
        take_opt(b, p) == Some((o, p + 9)),
{
    let head: Seq<u8> = seq![if o is Some { 1u8 } else { 0u8 }];
    let v: u64 = match o { Some(v) => v, None => 0 };
    split_at(b, p, head, le64(v));
    assert(b[p] == b.subrange(p, p + 1)[0]);
    reads_64(b, p + 1, v);
}

proof fn reads_id(b: Seq<u8>, p: int, id: Option<IdView>)
    requires
        0 <= p,
        match id {
            Some((pl, _, file_id)) => file_id.len() == id_width(pl),
            None => true,
        },
        p + enc_id(id).len() <= b.len(),
        b.subrange(p, p + enc_id(id).len()) == enc_id(id),
    ensures
        take_id(b, p) == Some((id, p + enc_id(id).len())),
{
    let w = b.subrange(p, p + enc_id(id).len());
    match id {
        Some((pl, volume, file_id)) => {
            let pad = Seq::new((16 - file_id.len()) as nat, |i: int| 0u8);
            let head: Seq<u8> = seq![1u8, platform_byte(pl)];
            if file_id.len() == 16 {
                assert(fit16(file_id) =~= file_id + pad);
            }
            assert(enc_id(id) =~= head + (le64(volume) + (file_id + pad)));
            assert(enc_id(id).len() == 26);
            assert(b[p] == w[0]);
            assert(b[p + 1] == w[1]);
            split_at(b, p, head, le64(volume) + (file_id + pad));
            split_at(b, p + 2, le64(volume), file_id + pad);
            reads_64(b, p + 2, volume);
            split_at(b, p + 10, file_id, pad);
            assert(platform_of(platform_byte(pl)) == pl);
        },
        None => {
            assert(b[p] == w[0]);
            assert(b[p + 1] == w[1]);
        },
    }
}

proof fn reads_measure(b: Seq<u8>, p: int, m: MView)
    requires
        0 <= p,
        storable_measure(m),
        p + enc_measure(m).len() <= b.len(),
        b.subrange(p, p + enc_measure(m).len()) == enc_measure(m),
    ensures
        take_measure(b, p) == Some((m, p + enc_measure(m).len())),
{
    let a = enc_id(m.0);
    let k: Seq<u8> = seq![kind_byte(m.1)];
    let rest = le64(m.2) + (enc_opt(m.3) + (enc_opt(m.4) + enc_time(m.5)));
    assert(enc_measure(m) =~= a + (k + rest));
    split_at(b, p, a, k + rest);
    reads_id(b, p, m.0);
    let q = p + a.len();
    split_at(b, q, k, rest);
    assert(b[q] == b.subrange(q, q + 1)[0]);
    assert(kind_of(kind_byte(m.1)) == m.1);
    split_at(b, q + 1, le64(m.2), enc_opt(m.3) + (enc_opt(m.4) + enc_time(m.5)));
    reads_64(b, q + 1, m.2);
    split_at(b, q + 9, enc_opt(m.3), enc_opt(m.4) + enc_time(m.5));
    reads_opt(b, q + 9, m.3);
    split_at(b, q + 18, enc_opt(m.4), enc_time(m.5));
    reads_opt(b, q + 18, m.4);
    reads_time(b, q + 27, m.5);
}

#[verifier::spinoff_prover]
proof fn reads_paths(b: Seq<u8>, p: int, paths: Seq<Seq<char>>)
    requires
        0 <= p,
        forall|i: int| 0 <= i < paths.len() ==> storable_text(#[trigger] paths[i]),
        p + enc_paths(paths).len() <= b.len(),
        b.subrange(p, p + enc_paths(paths).len()) == enc_paths(paths),
    ensures
        take_paths(b, p, paths.len()) == Some((paths, p + enc_paths(paths).len())),
    decreases paths.len(),
{
    if paths.len() > 0 {
        let init = paths.drop_last();
        split_at(b, p, enc_paths(init), enc_text(paths.last()));
        assert forall|i: int| 0 <= i < init.len() implies storable_text(#[trigger] init[i]) by {
            assert(init[i] == paths[i]);
        }
        reads_paths(b, p, init);
        assert(storable_text(paths[paths.len() - 1]));
        reads_text(b, p + enc_paths(init).len(), paths.last());
        assert(init.push(paths.last()) =~= paths);
    }
}

#[verifier::spinoff_prover]
proof fn reads_entries(b: Seq<u8>, p: int, entries: Seq<(Seq<char>, MView)>)
    requires
        0 <= p,
        forall|i: int| 0 <= i < entries.len() ==> storable_text(#[trigger] entries[i].0)
            && storable_measure(entries[i].1),
        p + enc_entries(entries).len() <= b.len(),
        b.subrange(p, p + enc_entries(entries).len()) == enc_entries(entries),
    ensures
        take_entries(b, p, entries.len()) == Some((entries, p + enc_entries(entries).len())),
    decreases entries.len(),
{
    if entries.len() > 0 {
        let init = entries.drop_last();
        let last = entries.last();
        assert(storable_text(entries[entries.len() - 1].0) && storable_measure(entries[entries.len() - 1].1));
        assert(enc_entries(entries) =~= enc_entries(init) + (enc_text(last.0) + enc_measure(last.1)));
        split_at(b, p, enc_entries(init), enc_text(last.0) + enc_measure(last.1));
        assert forall|i: int| 0 <= i < init.len() implies storable_text(#[trigger] init[i].0)
            && storable_measure(init[i].1) by {
            assert(init[i] == entries[i]);
        }
        reads_entries(b, p, init);
        let q = p + enc_entries(init).len();
        split_at(b, q, enc_text(last.0), enc_measure(last.1));
        reads_text(b, q, last.0);
        reads_measure(b, q + enc_text(last.0).len(), last.1);
        assert(init.push(last) =~= entries);
    }
}

/// A body reads back as the baseline it was written from, whenever the
/// baseline is one the format holds.
/// The suffix of `b` from `p` is `a` then `r`: `b` holds `a` at `p` and `r`
/// after it.
proof fn peel(b: Seq<u8>, p: int, a: Seq<u8>, r: Seq<u8>)
    requires
        0 <= p <= b.len(),
        b.subrange(p, b.len() as int) == a + r,
    ensures
        p + a.len() <= b.len(),
        b.subrange(p, p + a.len()) == a,
        b.subrange(p + a.len(), b.len() as int) == r,
{
    let w = b.subrange(p, b.len() as int);
    assert(w.len() == a.len() + r.len());
    assert(b.subrange(p, p + a.len()) =~= a) by {
        assert forall|i: int| 0 <= i < a.len() implies b.subrange(p, p + a.len())[i] == a[i] by {
            assert(w[i] == (a + r)[i]);
        }
    }
    assert(b.subrange(p + a.len(), b.len() as int) =~= r) by {
        assert forall|i: int| 0 <= i < r.len() implies b.subrange(p + a.len(), b.len() as int)[i] == r[i] by {
            assert(w[a.len() + i] == (a + r)[a.len() + i]);
        }
    }
}

/// A body reads back as the baseline it was written from, whenever the
/// baseline is one the format holds.
pub proof fn body_reads_back(v: BaselineView)
    requires
        storable(v),
    ensures
        parse_body(body_of(v)) == Some(v),
{
    let b = body_of(v);
    let (p1, p5, e) = body_parts_read_back(v);
    reveal(parse_body);
    assert(parse_body(b) == Some(v));
}

/// Each part of a body reads back, at the place it was written.
#[verifier::spinoff_prover]
proof fn body_parts_read_back(v: BaselineView) -> (r: (int, int, int))
    requires
        storable(v),
    ensures
        take_text(body_of(v), 0) == Some((v.root, r.0)),
        take_time(body_of(v), r.0) == Some((v.started_at, r.0 + 12)),
        take_time(body_of(v), r.0 + 12) == Some((v.finished_at, r.0 + 24)),
        take64(body_of(v), r.0 + 24) == Some((v.unread.len() as u64, r.0 + 32)),
        take_paths(body_of(v), r.0 + 32, v.unread.len()) == Some((v.unread, r.1)),
        take64(body_of(v), r.1) == Some((v.entries.len() as u64, r.1 + 8)),
        take_entries(body_of(v), r.1 + 8, v.entries.len()) == Some((v.entries, r.2)),
{
    let b = body_of(v);
    let t = enc_text(v.root);
    let tail = enc_time(v.started_at) + (enc_time(v.finished_at) + (le64(v.unread.len() as u64) + (enc_paths(v.unread)
        + (le64(v.entries.len() as u64) + enc_entries(v.entries)))));
    assert(b =~= t + tail) by {
        reveal(body_of);
    }
    assert(b.subrange(0, b.len() as int) =~= b);
    peel(b, 0, t, tail);
    reads_text(b, 0, v.root);
    let p1 = t.len() as int;
    let (p5, e) = head_reads_back(b, p1, v);
    (p1, p5, e)
}

/// The times and the unreadable folders read back from `p`.
#[verifier::spinoff_prover]
proof fn head_reads_back(b: Seq<u8>, p: int, v: BaselineView) -> (r: (int, int))
    requires
        storable(v),
        0 <= p <= b.len(),
        b.subrange(p, b.len() as int) == enc_time(v.started_at) + (enc_time(v.finished_at) + (le64(v.unread.len() as u64)
            + (enc_paths(v.unread) + (le64(v.entries.len() as u64) + enc_entries(v.entries))))),
    ensures
        take_time(b, p) == Some((v.started_at, p + 12)),
        take_time(b, p + 12) == Some((v.finished_at, p + 24)),
        take64(b, p + 24) == Some((v.unread.len() as u64, p + 32)),
        take_paths(b, p + 32, v.unread.len()) == Some((v.unread, r.0)),
        take64(b, r.0) == Some((v.entries.len() as u64, r.0 + 8)),
        take_entries(b, r.0 + 8, v.entries.len()) == Some((v.entries, r.1)),
{
    let r3 = le64(v.unread.len() as u64) + (enc_paths(v.unread) + (le64(v.entries.len() as u64) + enc_entries(v.entries)));
    peel(b, p, enc_time(v.started_at), enc_time(v.finished_at) + r3);
    reads_time(b, p, v.started_at);
    peel(b, p + 12, enc_time(v.finished_at), r3);
    reads_time(b, p + 12, v.finished_at);
    let r4 = enc_paths(v.unread) + (le64(v.entries.len() as u64) + enc_entries(v.entries));
    peel(b, p + 24, le64(v.unread.len() as u64), r4);
    reads_64(b, p + 24, v.unread.len() as u64);
    tail_reads_back(b, p + 32, v)
}

/// The unreadable folders and the entries read back from `p`.
#[verifier::spinoff_prover]
proof fn tail_reads_back(b: Seq<u8>, p: int, v: BaselineView) -> (r: (int, int))
    requires
        storable(v),
        0 <= p <= b.len(),
        b.subrange(p, b.len() as int) == enc_paths(v.unread) + (le64(v.entries.len() as u64) + enc_entries(v.entries)),
    ensures
        take_paths(b, p, v.unread.len()) == Some((v.unread, r.0)),
        take64(b, r.0) == Some((v.entries.len() as u64, r.0 + 8)),
        take_entries(b, r.0 + 8, v.entries.len()) == Some((v.entries, r.1)),
{
    let ps = enc_paths(v.unread);
    let es = enc_entries(v.entries);
    peel(b, p, ps, le64(v.entries.len() as u64) + es);
    reads_paths(b, p, v.unread);
    let q = p + ps.len();
    peel(b, q, le64(v.entries.len() as u64), es);
    reads_64(b, q, v.entries.len() as u64);
    assert(b.subrange(q + 8, q + 8 + es.len()) =~= es) by {
        assert(b.subrange(q + 8, b.len() as int) == es);
        assert(q + 8 + es.len() == b.len());
    }
    reads_entries(b, q + 8, v.entries);
    (q, q + 8 + es.len())
}

/// What one frame holds: itself when the baseline is plain, what its box
/// opens to under the key when it is sealed.
pub open spec fn frame_content(frame: Seq<u8>, key: Option<Seq<u8>>) -> Option<Seq<u8>> {
    match key {
        None => Some(frame),
        Some(k) => crate::crypt::box_opened(k, frame),
    }
}

/// The body the frames in `rest` join into, as far as they read: a frame
/// whose length is cut off, too long, or does not open ends it.
pub open spec fn unframe(rest: Seq<u8>, key: Option<Seq<u8>>) -> Seq<u8>
    decreases rest.len(),
{
    match take32(rest, 0) {
        Some((n, q)) => if n > MAX_FRAME || q + n > rest.len() {
            seq![]
        } else {
            match frame_content(rest.subrange(q, q + n), key) {
                Some(c) => c + unframe(rest.subrange(q + n, rest.len() as int), key),
                None => seq![],
            }
        },
        None => seq![],
    }
}

/// What a baseline file holds, or `None` when it is not one this version
/// wrote, it is sealed and there is no key, or it does not read back whole.
/// A plain baseline is read without a key either way.
pub open spec fn read_back(file: Seq<u8>, key: Option<Seq<u8>>) -> Option<BaselineView> {
    if file.len() < 9 || file.subrange(0, 8) != magic() {
        None
    } else if file[8] == PLAIN {
        parse_body(unframe(file.subrange(9, file.len() as int), None))
    } else if file[8] == SEALED && key is Some {
        parse_body(unframe(file.subrange(9, file.len() as int), key))
    } else {
        None
    }
}

/// How long the next frame of `body` is: a whole frame, or what is left.
pub open spec fn frame_len(body: Seq<u8>) -> nat {
    if body.len() < FRAME { body.len() } else { FRAME as nat }
}

/// `body` cut into frames of [`FRAME`] bytes from the front, each written as
/// its length and then its content: the bytes themselves when `key` is
/// `None`, their box under the next of `nonces` when it is sealed.
pub open spec fn framed(body: Seq<u8>, key: Option<Seq<u8>>, nonces: Seq<Seq<u8>>) -> Seq<u8>
    decreases body.len(),
{
    if body.len() == 0 {
        seq![]
    } else {
        let n = frame_len(body);
        let chunk = body.subrange(0, n as int);
        let c = match key {
            None => chunk,
            Some(k) => crate::crypt::sealed_box(k, nonces[0], chunk),
        };
        le32(c.len() as u32) + c + framed(body.subrange(n as int, body.len() as int), key, nonces.drop_first())
    }
}

/// A plain baseline file.
pub open spec fn plain_file(v: BaselineView) -> Seq<u8> {
    magic() + seq![PLAIN] + framed(body_of(v), None, seq![])
}

/// Plain frames join back into the body they were cut from.
proof fn plain_frames_join(body: Seq<u8>, nonces: Seq<Seq<u8>>)
    ensures
        unframe(framed(body, None, nonces), None) == body,
    decreases body.len(),
{
    if body.len() > 0 {
        let n = frame_len(body);
        let chunk = body.subrange(0, n as int);
        let rest = body.subrange(n as int, body.len() as int);
        let f = framed(body, None, nonces);
        let tail = framed(rest, None, nonces.drop_first());
        assert(f =~= le32(n as u32) + (chunk + tail));
        assert(f.subrange(0, f.len() as int) =~= f);
        peel(f, 0, le32(n as u32), chunk + tail);
        reads_32(f, 0, n as u32);
        peel(f, 4, chunk, tail);
        plain_frames_join(rest, nonces.drop_first());
        assert(chunk + rest =~= body);
    }
}

/// A plain baseline reads back as it was written, with or without a key,
/// whenever the baseline is one the format holds.
pub proof fn plain_baseline_reads_back(v: BaselineView, key: Option<Seq<u8>>)
    requires
        storable(v),
    ensures
        read_back(plain_file(v), key) == Some(v),
{
    let file = plain_file(v);
    let frames = framed(body_of(v), None, seq![]);
    assert(file.subrange(0, 8) =~= magic());
    assert(file[8] == PLAIN);
    assert(file.subrange(9, file.len() as int) =~= frames);
    plain_frames_join(body_of(v), seq![]);
    body_reads_back(v);
}

/// What a snapshot says, as a baseline holds it.
pub open spec fn view_of(s: ScanSnapshot) -> BaselineView {
    BaselineView {
        root: s.root@,
        started_at: s.started_at,
        finished_at: s.finished_at,
        unread: s.errors@.map_values(|e: ScanError| e.path@),
        entries: s.entries@.map_values(|e: (String, FileMeasurement)| (e.0@, mview(e.1))),
    }
}

fn put32(out: &mut Vec<u8>, x: u32)
    ensures
        final(out)@ == old(out)@ + le32(x),
{
    out.push((x & 0xff) as u8);
    out.push(((x >> 8) & 0xff) as u8);
    out.push(((x >> 16) & 0xff) as u8);
    out.push(((x >> 24) & 0xff) as u8);
    proof {
        assert(out@ =~= old(out)@ + le32(x));
    }
}

fn put64(out: &mut Vec<u8>, x: u64)
    ensures
        final(out)@ == old(out)@ + le64(x),
{
    out.push((x & 0xff) as u8);
    out.push(((x >> 8) & 0xff) as u8);
    out.push(((x >> 16) & 0xff) as u8);
    out.push(((x >> 24) & 0xff) as u8);
    out.push(((x >> 32) & 0xff) as u8);
    out.push(((x >> 40) & 0xff) as u8);
    out.push(((x >> 48) & 0xff) as u8);
    out.push(((x >> 56) & 0xff) as u8);
    proof {
        assert(out@ =~= old(out)@ + le64(x));
    }
}

fn put_all(out: &mut Vec<u8>, bytes: &[u8])
    ensures
        final(out)@ == old(out)@ + bytes@,
{
    let mut i: usize = 0;
    while i < bytes.len()
        invariant
            i <= bytes@.len(),
            out@ == old(out)@ + bytes@.subrange(0, i as int),
        decreases bytes@.len() - i,
    {
        out.push(bytes[i]);
        proof {
            assert(out@ =~= old(out)@ + bytes@.subrange(0, i + 1));
        }
        i = i + 1;
    }
    proof {
        assert(bytes@.subrange(0, bytes@.len() as int) =~= bytes@);
    }
}

fn put_text(out: &mut Vec<u8>, text: &str)
    ensures
        final(out)@ == old(out)@ + enc_text(text@),
{
    let bytes = text.as_bytes();
    put32(out, #[verifier::truncate] (bytes.len() as u32));
    put_all(out, bytes);
    proof {
        assert(bytes@ == vstd::utf8::encode_utf8(text@));
        assert(out@ =~= old(out)@ + enc_text(text@));
    }
}

fn put_time(out: &mut Vec<u8>, t: Timestamp)
    ensures
        final(out)@ == old(out)@ + enc_time(t),
{
    put64(out, t.secs);
    put32(out, t.nanos);
    proof {
        assert(out@ =~= old(out)@ + enc_time(t));
    }
}

fn put_opt(out: &mut Vec<u8>, o: Option<u64>)
    ensures
        final(out)@ == old(out)@ + enc_opt(o),
{
    match o {
        Some(v) => {
            out.push(1);
            put64(out, v);
        },
        None => {
            out.push(0);
            put64(out, 0);
        },
    }
    proof {
        assert(out@ =~= old(out)@ + enc_opt(o));
    }
}

fn put_id(out: &mut Vec<u8>, id: &Option<ObjectIdentity>)
    ensures
        final(out)@ == old(out)@ + enc_id(match id { Some(i) => Some(i.id()), None => None }),
{
    match id {
        Some(i) => {
            out.push(1);
            out.push(match i.platform { IdentityPlatform::Unix => 0u8, IdentityPlatform::Windows => 1u8 });
            put64(out, i.volume_id);
            let ghost before = out@;
            let mut k: usize = 0;
            while k < 16
                invariant
                    k <= 16,
                    out@ == before + fit16(i.file_id@).subrange(0, k as int),
                decreases 16 - k,
            {
                let b: u8 = if k < i.file_id.len() { i.file_id[k] } else { 0 };
                out.push(b);
                proof {
                    let f = i.file_id@;
                    if f.len() >= 16 {
                        assert(fit16(f)[k as int] == f[k as int]);
                    } else if k < f.len() {
                        assert(fit16(f)[k as int] == f[k as int]);
                    } else {
                        assert(fit16(f)[k as int] == 0u8);
                    }
                    assert(out@ =~= before + fit16(i.file_id@).subrange(0, k + 1));
                }
                k = k + 1;
            }
            proof {
                assert(fit16(i.file_id@).len() == 16);
                assert(fit16(i.file_id@).subrange(0, 16) =~= fit16(i.file_id@));
                assert(out@ =~= old(out)@ + enc_id(Some(i.id())));
            }
        },
        None => {
            out.push(0);
            out.push(0);
            proof {
                assert(out@ =~= old(out)@ + enc_id(None));
            }
        },
    }
}

fn put_measure(out: &mut Vec<u8>, m: &FileMeasurement)
    ensures
        final(out)@ == old(out)@ + enc_measure(mview(*m)),
{
    put_id(out, &m.identity);
    out.push(match m.kind {
        FileKind::File => 0u8,
        FileKind::Directory => 1u8,
        FileKind::Symlink => 2u8,
        FileKind::Other => 3u8,
    });
    put64(out, m.logical_bytes);
    put_opt(out, m.allocated_bytes);
    put_opt(out, m.link_count);
    put_time(out, m.measured_at);
    proof {
        assert(out@ =~= old(out)@ + enc_measure(mview(*m)));
    }
}

/// The body of a baseline of `snapshot`.
pub fn body(snapshot: &ScanSnapshot) -> (out: Vec<u8>)
    ensures
        out@ == body_of(view_of(*snapshot)),
{
    let v = Ghost(view_of(*snapshot));
    let mut out: Vec<u8> = Vec::new();
    put_text(&mut out, snapshot.root.as_str());
    put_time(&mut out, snapshot.started_at);
    put_time(&mut out, snapshot.finished_at);
    put64(&mut out, snapshot.errors.len() as u64);
    let ghost head = out@;
    let mut i: usize = 0;
    while i < snapshot.errors.len()
        invariant
            i <= snapshot.errors@.len(),
            v@ == view_of(*snapshot),
            out@ == head + enc_paths(v@.unread.subrange(0, i as int)),
        decreases snapshot.errors@.len() - i,
    {
        put_text(&mut out, snapshot.errors[i].path.as_str());
        proof {
            let u = v@.unread;
            assert(u.subrange(0, i + 1).drop_last() =~= u.subrange(0, i as int));
            assert(u.subrange(0, i + 1).last() == snapshot.errors@[i as int].path@);
            assert(out@ =~= head + enc_paths(u.subrange(0, i + 1)));
        }
        i = i + 1;
    }
    proof {
        assert(v@.unread.subrange(0, v@.unread.len() as int) =~= v@.unread);
    }
    put64(&mut out, snapshot.entries.len() as u64);
    let ghost middle = out@;
    let mut j: usize = 0;
    while j < snapshot.entries.len()
        invariant
            j <= snapshot.entries@.len(),
            v@ == view_of(*snapshot),
            out@ == middle + enc_entries(v@.entries.subrange(0, j as int)),
        decreases snapshot.entries@.len() - j,
    {
        put_text(&mut out, snapshot.entries[j].0.as_str());
        put_measure(&mut out, &snapshot.entries[j].1);
        proof {
            let es = v@.entries;
            assert(es.subrange(0, j + 1).drop_last() =~= es.subrange(0, j as int));
            assert(es.subrange(0, j + 1).last() == es[j as int]);
            assert(out@ =~= middle + enc_entries(es.subrange(0, j + 1)));
        }
        j = j + 1;
    }
    proof {
        assert(v@.entries.subrange(0, v@.entries.len() as int) =~= v@.entries);
        reveal(body_of);
        assert(out@ =~= body_of(v@));
    }
    out
}

/// Plain frames do not depend on nonces.
proof fn plain_frames_need_no_nonces(body: Seq<u8>, nonces: Seq<Seq<u8>>)
    ensures
        framed(body, None, nonces) == framed(body, None, seq![]),
    decreases body.len(),
{
    if body.len() > 0 {
        let n = frame_len(body);
        plain_frames_need_no_nonces(body.subrange(n as int, body.len() as int), nonces.drop_first());
        plain_frames_need_no_nonces(body.subrange(n as int, body.len() as int), Seq::<Seq<u8>>::empty().drop_first());
    }
}

/// Framing whole frames and then one more chunk is framing them together.
proof fn framed_append(a: Seq<u8>, c: Seq<u8>, key: Option<Seq<u8>>, nonces: Seq<Seq<u8>>, nonce: Seq<u8>)
    requires
        (a.len() as int) % (FRAME as int) == 0,
        0 < c.len() <= FRAME,
        nonces.len() == (a.len() as int) / (FRAME as int),
    ensures
        framed(a + c, key, nonces.push(nonce)) == framed(a, key, nonces) + le32(
            (match key {
                None => c,
                Some(k) => crate::crypt::sealed_box(k, nonce, c),
            }).len() as u32,
        ) + match key {
            None => c,
            Some(k) => crate::crypt::sealed_box(k, nonce, c),
        },
    decreases a.len(),
{
    let all = a + c;
    let content = match key {
        None => c,
        Some(k) => crate::crypt::sealed_box(k, nonce, c),
    };
    if a.len() == 0 {
        assert(all =~= c);
        assert(nonces.push(nonce)[0] == nonce);
        assert(frame_len(c) == c.len());
        assert(c.subrange(0, c.len() as int) =~= c);
        assert(c.subrange(c.len() as int, c.len() as int) =~= Seq::<u8>::empty());
        assert(framed(Seq::<u8>::empty(), key, nonces.push(nonce).drop_first()) =~= Seq::<u8>::empty());
        assert(framed(a, key, nonces) =~= Seq::<u8>::empty());
        assert(framed(all, key, nonces.push(nonce)) =~= le32(content.len() as u32) + content + Seq::<u8>::empty());
        assert(framed(all, key, nonces.push(nonce)) =~= framed(a, key, nonces) + le32(content.len() as u32) + content);
    } else {
        assert(a.len() >= FRAME);
        assert(frame_len(all) == FRAME);
        assert(frame_len(a) == FRAME);
        let rest_a = a.subrange(FRAME as int, a.len() as int);
        assert(all.subrange(FRAME as int, all.len() as int) =~= rest_a + c);
        assert(all.subrange(0, FRAME as int) =~= a.subrange(0, FRAME as int));
        assert(nonces.push(nonce)[0] == nonces[0]);
        assert(nonces.push(nonce).drop_first() =~= nonces.drop_first().push(nonce));
        assert((rest_a.len() as int) % (FRAME as int) == 0) by {
            assert(rest_a.len() == a.len() - FRAME);
        }
        assert(rest_a.len() as int / (FRAME as int) == (a.len() as int) / (FRAME as int) - 1) by {
            assert(rest_a.len() == a.len() - FRAME);
        }
        framed_append(rest_a, c, key, nonces.drop_first(), nonce);
        let chunk = a.subrange(0, FRAME as int);
        let c0 = match key {
            None => chunk,
            Some(k) => crate::crypt::sealed_box(k, nonces[0], chunk),
        };
        assert(framed(all, key, nonces.push(nonce)) == le32(c0.len() as u32) + c0
            + framed(rest_a + c, key, nonces.drop_first().push(nonce)));
        assert(framed(a, key, nonces) == le32(c0.len() as u32) + c0 + framed(rest_a, key, nonces.drop_first()));
        assert(framed(all, key, nonces.push(nonce)) =~= framed(a, key, nonces) + le32(content.len() as u32) + content);
    }
}

/// A baseline of `snapshot`, sealed frame by frame under `key` when there is
/// one. A plain baseline is exactly [`plain_file`]; a sealed one is the same
/// frames with every frame sealed under a fresh nonce.
pub fn encode(snapshot: &ScanSnapshot, key: Option<&[u8]>) -> (r: Result<Vec<u8>, crate::CoreError>)
    requires
        key matches Some(k) ==> k@.len() == 32,
    ensures
        r is Ok,
        key is None ==> (r matches Ok(file) && file@ == plain_file(view_of(*snapshot))),
        key matches Some(k) ==> (r matches Ok(file) && exists|nonces: Seq<Seq<u8>>|
            (forall|i: int| 0 <= i < nonces.len() ==> #[trigger] nonces[i].len() == crate::crypt::NONCE_BYTES)
            && file@ == magic() + seq![SEALED] + framed(body_of(view_of(*snapshot)), Some(k@), nonces)),
{
    let whole = body(snapshot);
    let mut out: Vec<u8> = Vec::new();
    out.push(0x50);
    out.push(0x4C);
    out.push(0x42);
    out.push(0x41);
    out.push(0x53);
    out.push(0x45);
    out.push(0x03);
    out.push(0x0A);
    out.push(match key { None => PLAIN, Some(_) => SEALED });
    let ghost header = out@;
    let ghost kv: Option<Seq<u8>> = match key { None => None, Some(k) => Some(k@) };
    let ghost mut nonces: Seq<Seq<u8>> = seq![];
    let mut pos: usize = 0;
    proof {
        assert(whole@.subrange(0, 0) =~= Seq::<u8>::empty());
        assert(out@ =~= header + framed(whole@.subrange(0, 0), kv, nonces));
    }
    while pos < whole.len()
        invariant
            pos <= whole@.len(),
            pos as int % (FRAME as int) != 0 ==> pos == whole@.len(),
            pos as int % (FRAME as int) == 0 ==> nonces.len() == pos as int / (FRAME as int),
            forall|i: int| 0 <= i < nonces.len() ==> #[trigger] nonces[i].len() == crate::crypt::NONCE_BYTES,
            kv == (match key { None => None::<Seq<u8>>, Some(k) => Some(k@) }),
            key matches Some(k) ==> k@.len() == 32,
            out@ == header + framed(whole@.subrange(0, pos as int), kv, nonces),
        decreases whole@.len() - pos,
    {
        let left = whole.len() - pos;
        let n = if left < FRAME { left } else { FRAME };
        let mut chunk: Vec<u8> = Vec::new();
        let mut k: usize = 0;
        while k < n
            invariant
                k <= n,
                pos + n <= whole@.len(),
                whole@.len() == whole.len(),
                chunk@ == whole@.subrange(pos as int, pos + k),
            decreases n - k,
        {
            chunk.push(whole[pos + k]);
            proof {
                assert(chunk@ =~= whole@.subrange(pos as int, pos + k + 1));
            }
            k = k + 1;
        }
        let ghost nonce: Seq<u8> = seq![];
        let content: Vec<u8> = match key {
            None => chunk,
            Some(key_bytes) => match crate::crypt::seal_bytes(key_bytes, chunk.as_slice()) {
                Ok(sealed) => {
                    proof {
                        nonce = choose|nn: Seq<u8>| nn.len() == crate::crypt::NONCE_BYTES
                            && sealed@ == crate::crypt::sealed_box(key_bytes@, nn, chunk@);
                    }
                    sealed
                },
                Err(e) => {
                    proof {
                        assert(chunk@.len() <= crate::crypt::PLAINTEXT_MAX);
                    }
                    return Err(e);
                },
            },
        };
        proof {
            if key is None {
                nonce = seq![0u8, 0u8, 0u8, 0u8, 0u8, 0u8, 0u8, 0u8, 0u8, 0u8, 0u8, 0u8];
            }
        }
        put32(&mut out, #[verifier::truncate] (content.len() as u32));
        put_all(&mut out, content.as_slice());
        proof {
            let a = whole@.subrange(0, pos as int);
            let c = whole@.subrange(pos as int, pos + n);
            assert(a + c =~= whole@.subrange(0, pos + n));
            framed_append(a, c, kv, nonces, nonce);
            let next = nonces.push(nonce);
            assert forall|i: int| 0 <= i < next.len() implies #[trigger] next[i].len() == crate::crypt::NONCE_BYTES by {
                if i < nonces.len() {
                    assert(next[i] == nonces[i]);
                }
            }
            if n == FRAME {
                assert((pos + FRAME) as int / (FRAME as int) == pos as int / (FRAME as int) + 1);
                assert((pos + FRAME) as int % (FRAME as int) == 0);
            } else {
                assert((pos + n) as int % (FRAME as int) == n as int);
            }
            nonces = next;
        }
        pos = pos + n;
    }
    proof {
        assert(whole@.subrange(0, whole@.len() as int) =~= whole@);
        if key is None {
            plain_frames_need_no_nonces(whole@, nonces);
        }
    }
    Ok(out)
}

fn get8(b: &[u8], p: usize) -> (r: Option<(u8, usize)>)
    ensures
        r is None <==> take8(b@, p as int) is None,
        r matches Some((x, q)) ==> take8(b@, p as int) == Some((x, q as int)),
{
    if p < b.len() { Some((b[p], p + 1)) } else { None }
}

fn get32(b: &[u8], p: usize) -> (r: Option<(u32, usize)>)
    ensures
        r is None <==> take32(b@, p as int) is None,
        r matches Some((x, q)) ==> take32(b@, p as int) == Some((x, q as int)),
{
    if p < b.len() && b.len() - p >= 4 {
        let x = (b[p] as u32) | ((b[p + 1] as u32) << 8) | ((b[p + 2] as u32) << 16) | ((b[p + 3] as u32) << 24);
        Some((x, p + 4))
    } else {
        None
    }
}

fn get64(b: &[u8], p: usize) -> (r: Option<(u64, usize)>)
    ensures
        r is None <==> take64(b@, p as int) is None,
        r matches Some((x, q)) ==> take64(b@, p as int) == Some((x, q as int)),
{
    if p < b.len() && b.len() - p >= 8 {
        let x = (b[p] as u64) | ((b[p + 1] as u64) << 8) | ((b[p + 2] as u64) << 16) | ((b[p + 3] as u64) << 24)
            | ((b[p + 4] as u64) << 32) | ((b[p + 5] as u64) << 40) | ((b[p + 6] as u64) << 48) | ((b[p + 7] as u64) << 56);
        Some((x, p + 8))
    } else {
        None
    }
}

fn slice(b: &[u8], from: usize, to: usize) -> (out: Vec<u8>)
    requires
        from <= to <= b@.len(),
    ensures
        out@ == b@.subrange(from as int, to as int),
{
    let mut out: Vec<u8> = Vec::new();
    let mut i = from;
    while i < to
        invariant
            from <= i <= to <= b@.len(),
            out@ == b@.subrange(from as int, i as int),
        decreases to - i,
    {
        out.push(b[i]);
        proof {
            assert(out@ =~= b@.subrange(from as int, i + 1));
        }
        i = i + 1;
    }
    out
}

fn get_text(b: &[u8], p: usize) -> (r: Option<(String, usize)>)
    ensures
        r is None <==> take_text(b@, p as int) is None,
        r matches Some((x, q)) ==> take_text(b@, p as int) == Some((x@, q as int)),
{
    let (n, q) = match get32(b, p) {
        Some(x) => x,
        None => return None,
    };
    if n as usize > MAX_STRING || q > b.len() || b.len() - q < n as usize {
        return None;
    }
    let bytes = slice(b, q, q + n as usize);
    match crate::crypt::utf8_text(bytes) {
        Some(text) => Some((text, q + n as usize)),
        None => None,
    }
}

fn get_time(b: &[u8], p: usize) -> (r: Option<(Timestamp, usize)>)
    ensures
        r is None <==> take_time(b@, p as int) is None,
        r matches Some((x, q)) ==> take_time(b@, p as int) == Some((x, q as int)),
{
    let (secs, q) = match get64(b, p) {
        Some(x) => x,
        None => return None,
    };
    let (nanos, r) = match get32(b, q) {
        Some(x) => x,
        None => return None,
    };
    if nanos < 1_000_000_000 {
        Some((Timestamp { secs, nanos }, r))
    } else {
        let carry: u64 = (nanos / 1_000_000_000) as u64;
        if secs > u64::MAX - carry {
            None
        } else {
            Some((Timestamp { secs: secs + carry, nanos: nanos % 1_000_000_000 }, r))
        }
    }
}

fn get_opt(b: &[u8], p: usize) -> (r: Option<(Option<u64>, usize)>)
    ensures
        r is None <==> take_opt(b@, p as int) is None,
        r matches Some((x, q)) ==> take_opt(b@, p as int) == Some((x, q as int)),
{
    let (present, q) = match get8(b, p) {
        Some(x) => x,
        None => return None,
    };
    let (v, r) = match get64(b, q) {
        Some(x) => x,
        None => return None,
    };
    Some((if present == 1 { Some(v) } else { None }, r))
}

/// The view of an optional identity.
pub open spec fn id_view(id: Option<ObjectIdentity>) -> Option<IdView> {
    match id {
        Some(i) => Some(i.id()),
        None => None,
    }
}

fn get_id(b: &[u8], p: usize) -> (r: Option<(Option<ObjectIdentity>, usize)>)
    ensures
        r is None <==> take_id(b@, p as int) is None,
        r matches Some((x, q)) ==> take_id(b@, p as int) == Some((id_view(x), q as int)),
{
    let (present, q) = match get8(b, p) {
        Some(x) => x,
        None => return None,
    };
    let (pb, r) = match get8(b, q) {
        Some(x) => x,
        None => return None,
    };
    if present != 1 {
        return Some((None, r));
    }
    let (volume, s) = match get64(b, r) {
        Some(x) => x,
        None => return None,
    };
    if s > b.len() || b.len() - s < 16 {
        return None;
    }
    let platform = if pb == 1 { IdentityPlatform::Windows } else { IdentityPlatform::Unix };
    let width: usize = if pb == 1 { 16 } else { 8 };
    let file_id = slice(b, s, s + width);
    Some((Some(ObjectIdentity { platform, volume_id: volume, file_id }), s + 16))
}

#[verifier::rlimit(30)]
fn get_measure(b: &[u8], p: usize) -> (r: Option<(FileMeasurement, usize)>)
    ensures
        r is None <==> take_measure(b@, p as int) is None,
        r matches Some((x, q)) ==> take_measure(b@, p as int) == Some((mview(x), q as int)),
{
    let (identity, q) = match get_id(b, p) {
        Some(x) => x,
        None => return None,
    };
    let (kb, r) = match get8(b, q) {
        Some(x) => x,
        None => return None,
    };
    let (logical_bytes, s) = match get64(b, r) {
        Some(x) => x,
        None => return None,
    };
    let (allocated_bytes, t) = match get_opt(b, s) {
        Some(x) => x,
        None => return None,
    };
    let (link_count, u) = match get_opt(b, t) {
        Some(x) => x,
        None => return None,
    };
    let (measured_at, w) = match get_time(b, u) {
        Some(x) => x,
        None => return None,
    };
    let kind = if kb == 1 {
        FileKind::Directory
    } else if kb == 2 {
        FileKind::Symlink
    } else if kb == 3 {
        FileKind::Other
    } else {
        FileKind::File
    };
    Some((FileMeasurement { identity, kind, logical_bytes, allocated_bytes, link_count, measured_at }, w))
}

/// What a baseline says of a folder that could not be read: that it could
/// not, not why.
pub open spec fn unread_error(path: Seq<char>, e: ScanError) -> bool {
    &&& e.path@ == path
    &&& e.kind == ScanErrorKind::Other
    &&& e.message@ == "could not be read when this folder was last scanned"@
}

fn get_paths(b: &[u8], p: usize, n: u64) -> (r: Option<(Vec<ScanError>, usize)>)
    ensures
        r is None <==> take_paths(b@, p as int, n as nat) is None,
        r matches Some((errors, q)) ==> take_paths(b@, p as int, n as nat) == Some((errors@.map_values(|e: ScanError| e.path@), q as int))
            && forall|i: int| 0 <= i < errors@.len() ==> #[trigger] unread_error(errors@[i].path@, errors@[i]),
{
    let mut errors: Vec<ScanError> = Vec::new();
    let mut at = p;
    let mut i: u64 = 0;
    while i < n
        invariant
            i <= n,
            take_paths(b@, p as int, i as nat) == Some((errors@.map_values(|e: ScanError| e.path@), at as int)),
            forall|k: int| 0 <= k < errors@.len() ==> #[trigger] unread_error(errors@[k].path@, errors@[k]),
        decreases n - i,
    {
        match get_text(b, at) {
            Some((path, next)) => {
                let ghost before = errors@;
                errors.push(ScanError {
                    path,
                    kind: ScanErrorKind::Other,
                    message: "could not be read when this folder was last scanned".to_string(),
                });
                proof {
                    assert(errors@.map_values(|e: ScanError| e.path@) =~= before.map_values(|e: ScanError| e.path@).push(
                        errors@.last().path@,
                    ));
                }
                at = next;
            },
            None => {
                proof {
                    assert forall|m: nat| m > i implies #[trigger] take_paths(b@, p as int, m) is None by {
                        paths_stop(b@, p as int, i as nat, m);
                    }
                }
                return None;
            },
        }
        i = i + 1;
    }
    Some((errors, at))
}

proof fn paths_stop(b: Seq<u8>, p: int, i: nat, m: nat)
    requires
        i < m,
        take_paths(b, p, i) matches Some((_, q)) && take_text(b, q) is None,
    ensures
        take_paths(b, p, m) is None,
    decreases m,
{
    if m > i + 1 {
        paths_stop(b, p, i, (m - 1) as nat);
    }
}

fn get_entries(b: &[u8], p: usize, n: u64) -> (r: Option<(Vec<(String, FileMeasurement)>, usize)>)
    ensures
        r is None <==> take_entries(b@, p as int, n as nat) is None,
        r matches Some((entries, q)) ==> take_entries(b@, p as int, n as nat) == Some((
            entries@.map_values(|e: (String, FileMeasurement)| (e.0@, mview(e.1))),
            q as int,
        )),
{
    let mut entries: Vec<(String, FileMeasurement)> = Vec::new();
    let mut at = p;
    let mut i: u64 = 0;
    while i < n
        invariant
            i <= n,
            take_entries(b@, p as int, i as nat) == Some((entries@.map_values(|e: (String, FileMeasurement)| (e.0@, mview(e.1))), at as int)),
        decreases n - i,
    {
        let step = match get_text(b, at) {
            Some((path, next)) => match get_measure(b, next) {
                Some((m, last)) => Some((path, m, last)),
                None => None,
            },
            None => None,
        };
        match step {
            Some((path, m, next)) => {
                let ghost before = entries@;
                entries.push((path, m));
                proof {
                    assert(entries@.map_values(|e: (String, FileMeasurement)| (e.0@, mview(e.1))) =~= before.map_values(
                        |e: (String, FileMeasurement)| (e.0@, mview(e.1)),
                    ).push((entries@.last().0@, mview(entries@.last().1))));
                }
                at = next;
            },
            None => {
                proof {
                    assert forall|m: nat| m > i implies #[trigger] take_entries(b@, p as int, m) is None by {
                        entries_stop(b@, p as int, i as nat, m);
                    }
                }
                return None;
            },
        }
        i = i + 1;
    }
    Some((entries, at))
}

proof fn entries_stop(b: Seq<u8>, p: int, i: nat, m: nat)
    requires
        i < m,
        take_entries(b, p, i) matches Some((_, q)) && (take_text(b, q) matches Some((_, r)) ==> take_measure(b, r) is None),
    ensures
        take_entries(b, p, m) is None,
    decreases m,
{
    if m > i + 1 {
        entries_stop(b, p, i, (m - 1) as nat);
    }
}

/// A snapshot as a baseline reads back: what it says, every unreadable
/// folder said as such, over the interval the scan observed.
pub open spec fn read_as(s: ScanSnapshot, v: BaselineView) -> bool {
    &&& view_of(s) == v
    &&& s.consistency == ScanConsistency::ObservedInterval
    &&& forall|i: int| 0 <= i < s.errors@.len() ==> #[trigger] unread_error(s.errors@[i].path@, s.errors@[i])
}

/// The snapshot a body says, when it reads back whole.
fn parse(b: &[u8]) -> (r: Option<ScanSnapshot>)
    ensures
        r is None <==> parse_body(b@) is None,
        r matches Some(s) ==> read_as(s, parse_body(b@)->0),
{
    reveal(parse_body);
    let (root, p1) = match get_text(b, 0) {
        Some(x) => x,
        None => return None,
    };
    let (started_at, p2) = match get_time(b, p1) {
        Some(x) => x,
        None => return None,
    };
    let (finished_at, p3) = match get_time(b, p2) {
        Some(x) => x,
        None => return None,
    };
    let (n, p4) = match get64(b, p3) {
        Some(x) => x,
        None => return None,
    };
    let (errors, p5) = match get_paths(b, p4, n) {
        Some(x) => x,
        None => return None,
    };
    let (m, p6) = match get64(b, p5) {
        Some(x) => x,
        None => return None,
    };
    let (entries, _) = match get_entries(b, p6, m) {
        Some(x) => x,
        None => return None,
    };
    Some(ScanSnapshot { root, started_at, finished_at, consistency: ScanConsistency::ObservedInterval, entries, errors })
}

/// The body the frames of `file` from `start` join into, opening each with
/// `key` when there is one.
fn unframe_exec(file: &[u8], start: usize, key: Option<&[u8]>) -> (body: Vec<u8>)
    requires
        start <= file@.len(),
        key matches Some(k) ==> k@.len() == 32,
    ensures
        body@ == unframe(file@.subrange(start as int, file@.len() as int), match key { Some(k) => Some(k@), None => None }),
{
    let ghost kv: Option<Seq<u8>> = match key { Some(k) => Some(k@), None => None };
    let mut body: Vec<u8> = Vec::new();
    let mut pos = start;
    while pos < file.len()
        invariant
            start <= pos <= file@.len(),
            kv == (match key { Some(k) => Some(k@), None => None::<Seq<u8>> }),
            key matches Some(k) ==> k@.len() == 32,
            unframe(file@.subrange(start as int, file@.len() as int), kv)
                == body@ + unframe(file@.subrange(pos as int, file@.len() as int), kv),
        decreases file@.len() - pos,
    {
        let ghost rest = file@.subrange(pos as int, file@.len() as int);
        let (n, q) = match get32(file, pos) {
            Some(x) => x,
            None => {
                proof {
                    assert(take32(rest, 0) is None);
                    assert(body@ + Seq::<u8>::empty() =~= body@);
                }
                return body;
            },
        };
        proof {
            assert(take32(rest, 0) == Some((n, 4int))) by {
                assert(rest[0] == file@[pos as int]);
                assert(rest[1] == file@[pos + 1]);
                assert(rest[2] == file@[pos + 2]);
                assert(rest[3] == file@[pos + 3]);
            }
        }
        if n as usize > MAX_FRAME || file.len() - q < n as usize {
            proof {
                assert(body@ + Seq::<u8>::empty() =~= body@);
            }
            return body;
        }
        let frame = slice(file, q, q + n as usize);
        proof {
            assert(rest.subrange(4, 4 + n) =~= frame@);
            assert(rest.subrange(4 + n, rest.len() as int) =~= file@.subrange(q + n, file@.len() as int));
        }
        let content: Option<Vec<u8>> = match key {
            None => Some(frame),
            Some(k) => crate::crypt::open_bytes(k, frame.as_slice()),
        };
        match content {
            Some(c) => {
                let ghost before = body@;
                put_all(&mut body, c.as_slice());
                proof {
                    assert(frame_content(frame@, kv) == Some(c@));
                    assert(before + (c@ + unframe(file@.subrange(q + n, file@.len() as int), kv)) =~= body@ + unframe(
                        file@.subrange(q + n, file@.len() as int),
                        kv,
                    ));
                }
                pos = q + n as usize;
            },
            None => {
                proof {
                    assert(frame_content(frame@, kv) is None);
                    assert(body@ + Seq::<u8>::empty() =~= body@);
                }
                return body;
            },
        }
    }
    proof {
        assert(file@.subrange(pos as int, file@.len() as int) =~= Seq::<u8>::empty());
        assert(body@ + Seq::<u8>::empty() =~= body@);
    }
    body
}

/// The baseline in `file` when it is one for `root`: `None` when there is
/// none, it is from another version, it is sealed and `key` is not the key
/// that sealed it, it does not read back whole, or it is the right file for
/// the wrong folder. Never a partial snapshot: half a baseline would report
/// every file it is missing as deleted.
#[verifier::spinoff_prover]
#[verifier::rlimit(60)]
pub fn read(file: &[u8], root: &str, key: Option<&[u8]>) -> (r: Option<ScanSnapshot>)
    requires
        key matches Some(k) ==> k@.len() == 32,
    ensures
        r is Some <==> (read_back(file@, match key { Some(k) => Some(k@), None => None }) matches Some(v) && v.root == root@),
        r matches Some(s) ==> read_as(s, read_back(file@, match key { Some(k) => Some(k@), None => None })->0),
{
    let ghost kv: Option<Seq<u8>> = match key { Some(k) => Some(k@), None => None };
    if file.len() < 9 {
        return None;
    }
    let head = slice(file, 0, 8);
    proof {
        assert(file@.subrange(0, 8) == head@);
    }
    if !(head[0] == 0x50 && head[1] == 0x4C && head[2] == 0x42 && head[3] == 0x41 && head[4] == 0x53 && head[5] == 0x45
        && head[6] == 0x03 && head[7] == 0x0A) {
        proof {
            if head@ == magic() {
                assert(head@[0] == 0x50u8);
            }
        }
        return None;
    }
    proof {
        assert(head@ =~= magic());
    }
    let mode = file[8];
    let frames_key: Option<&[u8]> = if mode == PLAIN {
        None
    } else if mode == SEALED && key.is_some() {
        key
    } else {
        return None;
    };
    let whole = unframe_exec(file, 9, frames_key);
    let snapshot = match parse(whole.as_slice()) {
        Some(s) => s,
        None => return None,
    };
    if crate::chars::same(crate::chars::chars_of(snapshot.root.as_str()).as_slice(), crate::chars::chars_of(root).as_slice()) {
        Some(snapshot)
    } else {
        None
    }
}

/// The FNV-1a offset basis.
pub const FNV_OFFSET: u64 = 0xcbf2_9ce4_8422_2325;

/// The FNV-1a prime.
pub const FNV_PRIME: u64 = 0x0000_0100_0000_01b3;

/// The 64-bit FNV-1a hash of `bytes`: each byte mixed in by exclusive or,
/// then a wrapping multiplication by the prime.
pub open spec fn fnv_of(bytes: Seq<u8>) -> u64
    decreases bytes.len(),
{
    if bytes.len() == 0 {
        FNV_OFFSET
    } else {
        (fnv_of(bytes.drop_last()) ^ (bytes.last() as u64)).wrapping_mul(FNV_PRIME)
    }
}

/// The FNV-1a hash of `text`'s UTF-8 bytes. It names a cache file, and a
/// collision costs one unnecessary rescan, not a wrong answer, because the
/// root the file records is checked on the way back in.
pub fn fnv1a(text: &str) -> (h: u64)
    ensures
        h == fnv_of(vstd::utf8::encode_utf8(text@)),
{
    let bytes = text.as_bytes();
    let mut hash: u64 = FNV_OFFSET;
    let mut i: usize = 0;
    while i < bytes.len()
        invariant
            i <= bytes@.len(),
            hash == fnv_of(bytes@.subrange(0, i as int)),
        decreases bytes@.len() - i,
    {
        proof {
            assert(bytes@.subrange(0, i + 1).drop_last() =~= bytes@.subrange(0, i as int));
        }
        hash = (hash ^ (bytes[i] as u64)).wrapping_mul(FNV_PRIME);
        i = i + 1;
    }
    proof {
        assert(bytes@.subrange(0, bytes@.len() as int) =~= bytes@);
    }
    hash
}

/// A lower-case hexadecimal digit.
pub open spec fn hex_digit(d: u64) -> char {
    if d < 10 { ((48 + d) as u32) as char } else { ((87 + d) as u32) as char }
}

/// `x` as sixteen lower-case hexadecimal digits, the most significant first.
pub open spec fn hex16(x: u64) -> Seq<char> {
    Seq::new(16, |i: int| hex_digit((x >> (4 * (15 - i)) as u64) & 0xf))
}

fn hex_char(d: u64) -> (c: char)
    requires
        d < 16,
    ensures
        c == hex_digit(d),
{
    let n: u8 = if d < 10 { (48 + d) as u8 } else { (87 + d) as u8 };
    n as char
}

/// Where every baseline under the storage directory `dir` lives, so that
/// forgetting everything recorded can empty it.
pub open spec fn directory_of(dir: Seq<char>) -> Seq<char> {
    crate::paths::joined(dir, "baselines"@)
}

/// Exec form of [`directory_of`].
pub fn directory(dir: &str) -> (path: String)
    ensures
        path@ == directory_of(dir@),
{
    crate::paths::join(dir, "baselines")
}

/// Where the baseline for `scope` lives under `dir`: named by a hash rather
/// than by the path it stands for, which is longer than a file name may be
/// and full of separators.
pub open spec fn file_of(dir: Seq<char>, scope: Seq<char>) -> Seq<char> {
    crate::paths::joined(directory_of(dir), hex16(fnv_of(vstd::utf8::encode_utf8(scope))) + ".plb"@)
}

/// Exec form of [`file_of`].
pub fn file(dir: &str, scope: &str) -> (path: String)
    ensures
        path@ == file_of(dir@, scope@),
{
    let h = fnv1a(scope);
    let mut name: Vec<char> = Vec::new();
    let mut i: usize = 0;
    while i < 16
        invariant
            i <= 16,
            name@ == hex16(h).subrange(0, i as int),
        decreases 16 - i,
    {
        let shift: u64 = (4 * (15 - i)) as u64;
        let d = (h >> shift) & 0xf;
        assert(d < 16) by (bit_vector)
            requires
                d == (h >> shift) & 0xf;
        name.push(hex_char(d));
        proof {
            assert(name@ =~= hex16(h).subrange(0, i + 1));
        }
        i = i + 1;
    }
    crate::chars::push_str(&mut name, ".plb");
    proof {
        assert(hex16(h).subrange(0, 16) =~= hex16(h));
    }
    let base = directory(dir);
    let leaf = crate::chars::string_of(name.as_slice());
    crate::paths::join(base.as_str(), leaf.as_str())
}

/// Whether pair `a` sorts no later than pair `b`: by hash, then by size.
pub open spec fn pair_le(a: (u64, u64), b: (u64, u64)) -> bool {
    a.0 < b.0 || (a.0 == b.0 && a.1 <= b.1)
}

/// Sorted by hash and then by size.
pub open spec fn pairs_sorted(s: Seq<(u64, u64)>) -> bool {
    forall|i: int, j: int| 0 <= i < j < s.len() ==> pair_le(#[trigger] s[i], #[trigger] s[j])
}

/// `slice::sort_unstable` on pairs of numbers, which orders tuples field by
/// field: the same pairs, in order.
#[verifier::external_body]
fn sort_pairs(v: &mut Vec<(u64, u64)>)
    ensures
        final(v)@.to_multiset() == old(v)@.to_multiset(),
        pairs_sorted(final(v)@),
{
    v.sort_unstable();
}

/// The hash and size an entry contributes, when its allocation is known.
pub open spec fn pair_of(e: (String, FileMeasurement)) -> Option<(u64, u64)> {
    match e.1.allocated_bytes {
        Some(bytes) => Some((fnv_of(vstd::utf8::encode_utf8(crate::paths::normalized(e.0@))), bytes)),
        None => None,
    }
}

/// Whether some entry of `entries` contributes `pair`.
pub open spec fn contributes(entries: Seq<(String, FileMeasurement)>, pair: (u64, u64)) -> bool {
    exists|i: int| 0 <= i < entries.len() && #[trigger] pair_of(entries[i]) == Some(pair)
}

/// What every file held when the folder was last walked, for the two
/// questions a live change cannot answer on its own: how big was the file
/// that just vanished, and how big was this one before it was modified. One
/// size per path hash, sixteen bytes a file, so a whole-disk watch does not
/// hold the paths themselves; on a collision the smaller size stands.
pub struct Sizes {
    table: Vec<(u64, u64)>,
}

impl Sizes {
    /// The sizes, one per hash, in order of hash.
    pub closed spec fn view(&self) -> Seq<(u64, u64)> {
        self.table@
    }

    /// Hashes strictly increase.
    pub closed spec fn wf(&self) -> bool {
        forall|i: int, j: int| 0 <= i < j < self.table@.len() ==> #[trigger] self.table@[i].0 < #[trigger] self.table@[j].0
    }

    /// The size recorded for hash `h`.
    pub closed spec fn size_for(&self, h: u64) -> Option<u64> {
        if exists|i: int| 0 <= i < self.table@.len() && #[trigger] self.table@[i].0 == h {
            Some(self.table@[choose|i: int| 0 <= i < self.table@.len() && #[trigger] self.table@[i].0 == h].1)
        } else {
            None
        }
    }

    /// The size recorded at a place in the table is the size for its hash.
    proof fn size_at(&self, i: int)
        requires
            self.wf(),
            0 <= i < self.table@.len(),
        ensures
            self.size_for(self.table@[i].0) == Some(self.table@[i].1),
    {
        let h = self.table@[i].0;
        assert(0 <= i < self.table@.len() && self.table@[i].0 == h);
        let c = choose|k: int| 0 <= k < self.table@.len() && #[trigger] self.table@[k].0 == h;
        if c != i {
            if c < i {
                assert(self.table@[c].0 < self.table@[i].0);
            } else {
                assert(self.table@[i].0 < self.table@[c].0);
            }
        }
    }

    /// The sizes of `snapshot`'s files whose allocation is known: for each
    /// path hash, the smallest size an entry with that hash had, and nothing
    /// for a hash no such entry has.
    pub fn from(snapshot: &ScanSnapshot) -> (sizes: Sizes)
        ensures
            sizes.wf(),
            forall|h: u64| #[trigger] sizes.size_for(h) is Some <==> exists|b: u64| contributes(snapshot.entries@, (h, b)),
            forall|h: u64| #[trigger] sizes.size_for(h) is Some ==> contributes(snapshot.entries@, (h, sizes.size_for(h)->0)),
            forall|h: u64, b: u64| #[trigger] contributes(snapshot.entries@, (h, b)) ==> (sizes.size_for(h) matches Some(m) && m <= b),
    {
        let mut pairs: Vec<(u64, u64)> = Vec::new();
        let mut i: usize = 0;
        while i < snapshot.entries.len()
            invariant
                i <= snapshot.entries@.len(),
                forall|k: int| 0 <= k < pairs@.len() ==> contributes(snapshot.entries@, #[trigger] pairs@[k]),
                forall|k: int| 0 <= k < i ==> (#[trigger] pair_of(snapshot.entries@[k]) matches Some(p) && pairs@.contains(p))
                    || pair_of(snapshot.entries@[k]) is None,
            decreases snapshot.entries@.len() - i,
        {
            match snapshot.entries[i].1.allocated_bytes {
                Some(bytes) => {
                    let path = crate::paths::normalize(snapshot.entries[i].0.as_str());
                    let h = fnv1a(path.as_str());
                    let ghost before = pairs@;
                    pairs.push((h, bytes));
                    proof {
                        assert(pair_of(snapshot.entries@[i as int]) == Some((h, bytes)));
                        assert(pairs@[pairs@.len() - 1] == (h, bytes));
                        assert forall|k: int| 0 <= k < i + 1 implies (#[trigger] pair_of(snapshot.entries@[k]) matches Some(p) && pairs@.contains(p))
                            || pair_of(snapshot.entries@[k]) is None by {
                            if k < i {
                                if pair_of(snapshot.entries@[k]) is Some {
                                    let p = pair_of(snapshot.entries@[k])->0;
                                    let w = choose|w: int| 0 <= w < before.len() && before[w] == p;
                                    assert(pairs@[w] == p);
                                }
                            } else {
                                assert(pairs@[pairs@.len() - 1] == (h, bytes));
                            }
                        }
                    }
                },
                None => {},
            }
            i = i + 1;
        }
        let ghost unsorted = pairs@;
        sort_pairs(&mut pairs);
        proof {
            assert forall|p: (u64, u64)| unsorted.contains(p) <==> pairs@.contains(p) by {
                vstd::seq_lib::to_multiset_contains(unsorted, p);
                vstd::seq_lib::to_multiset_contains(pairs@, p);
            }
        }
        let mut table: Vec<(u64, u64)> = Vec::new();
        let mut k: usize = 0;
        while k < pairs.len()
            invariant
                k <= pairs@.len(),
                pairs_sorted(pairs@),
                forall|a: int, b: int| 0 <= a < b < table@.len() ==> #[trigger] table@[a].0 < #[trigger] table@[b].0,
                forall|t: int| 0 <= t < table@.len() ==> #[trigger] pairs@.contains(table@[t]),
                forall|t: int, j: int| 0 <= t < table@.len() && 0 <= j < k && pairs@[j].0 == #[trigger] table@[t].0
                    ==> table@[t].1 <= #[trigger] pairs@[j].1,
                forall|j: int| 0 <= j < k ==> exists|t: int| 0 <= t < table@.len() && #[trigger] table@[t].0 == #[trigger] pairs@[j].0,
                k > 0 ==> table@.len() > 0 && table@.last().0 == pairs@[k - 1].0,
                k == 0 ==> table@.len() == 0,
            decreases pairs@.len() - k,
        {
            let pair = pairs[k];
            let n = table.len();
            let ghost old_table = table@;
            if n == 0 || table[n - 1].0 != pair.0 {
                proof {
                    if n > 0 {
                        assert(pair_le(pairs@[k - 1], pairs@[k as int]));
                    }
                    assert forall|j: int| 0 <= j < k implies #[trigger] pairs@[j].0 < pair.0 by {
                        assert(pair_le(pairs@[j], pairs@[k as int]));
                        if j < k - 1 {
                            assert(pair_le(pairs@[j], pairs@[k - 1]));
                        }
                    }
                }
                table.push(pair);
                proof {
                    assert(pairs@.contains(pair)) by {
                        assert(pairs@[k as int] == pair);
                    }
                    assert forall|j: int| 0 <= j < k + 1 implies exists|t: int| 0 <= t < table@.len() && #[trigger] table@[t].0 == #[trigger] pairs@[j].0 by {
                        if j == k {
                            assert(table@[n as int].0 == pairs@[j].0);
                        } else {
                            let t = choose|t: int| 0 <= t < old_table.len() && #[trigger] old_table[t].0 == #[trigger] pairs@[j].0;
                            assert(table@[t] == old_table[t]);
                        }
                    }
                    assert forall|a: int, b: int| 0 <= a < b < table@.len() implies #[trigger] table@[a].0 < #[trigger] table@[b].0 by {
                        if b == n {
                            let w = choose|w: int| 0 <= w < pairs@.len() && pairs@[w] == old_table[a];
                            assert(old_table.last().0 == pairs@[k - 1].0);
                            if a < n - 1 {
                                assert(old_table[a].0 < old_table[n - 1].0);
                            }
                        }
                    }
                }
            } else {
                proof {
                    assert(pair_le(pairs@[k - 1], pairs@[k as int]));
                    assert forall|j: int| 0 <= j < k + 1 implies exists|t: int| 0 <= t < table@.len() && #[trigger] table@[t].0 == #[trigger] pairs@[j].0 by {
                        if j == k {
                            assert(table@[n - 1].0 == pairs@[j].0);
                        }
                    }
                }
            }
            k = k + 1;
        }
        let sizes = Sizes { table };
        proof {
            assert forall|h: u64| #[trigger] sizes.size_for(h) is Some <==> exists|b: u64| contributes(snapshot.entries@, (h, b)) by {
                if exists|b: u64| contributes(snapshot.entries@, (h, b)) {
                    let b = choose|b: u64| contributes(snapshot.entries@, (h, b));
                    let e = choose|e: int| 0 <= e < snapshot.entries@.len() && #[trigger] pair_of(snapshot.entries@[e]) == Some((h, b));
                    assert(unsorted.contains((h, b)));
                    assert(pairs@.contains((h, b)));
                    let j = choose|j: int| 0 <= j < pairs@.len() && pairs@[j] == (h, b);
                    let t = choose|t: int| 0 <= t < table@.len() && #[trigger] table@[t].0 == #[trigger] pairs@[j].0;
                    assert(sizes.table@ == table@);
                    sizes.size_at(t);
                }
                if sizes.size_for(h) is Some {
                    let t = choose|t: int| 0 <= t < table@.len() && #[trigger] table@[t].0 == h;
                    assert(pairs@.contains(table@[t]));
                    assert(unsorted.contains(table@[t]));
                    let w = choose|w: int| 0 <= w < unsorted.len() && unsorted[w] == table@[t];
                    assert(contributes(snapshot.entries@, unsorted[w]));
                    assert(unsorted[w] == (h, table@[t].1));
                    assert(contributes(snapshot.entries@, (h, table@[t].1)));
                }
            }
            assert forall|h: u64| #[trigger] sizes.size_for(h) is Some implies contributes(snapshot.entries@, (h, sizes.size_for(h)->0)) by {
                let t = choose|t: int| 0 <= t < table@.len() && #[trigger] table@[t].0 == h;
                assert(table@[t] == (h, sizes.size_for(h)->0));
                assert(pairs@.contains(table@[t]));
                assert(unsorted.contains(table@[t]));
                let w = choose|w: int| 0 <= w < unsorted.len() && unsorted[w] == table@[t];
                assert(contributes(snapshot.entries@, unsorted[w]));
            }
            assert forall|h: u64, b: u64| #[trigger] contributes(snapshot.entries@, (h, b)) implies (sizes.size_for(h) matches Some(m) && m <= b) by {
                let e = choose|e: int| 0 <= e < snapshot.entries@.len() && #[trigger] pair_of(snapshot.entries@[e]) == Some((h, b));
                assert(unsorted.contains((h, b)));
                assert(pairs@.contains((h, b)));
                let j = choose|j: int| 0 <= j < pairs@.len() && pairs@[j] == (h, b);
                let t = choose|t: int| 0 <= t < table@.len() && #[trigger] table@[t].0 == #[trigger] pairs@[j].0;
                let c = choose|c: int| 0 <= c < table@.len() && #[trigger] table@[c].0 == h;
                if c != t {
                    if c < t {
                        assert(table@[c].0 < table@[t].0);
                    } else {
                        assert(table@[t].0 < table@[c].0);
                    }
                }
            }
        }
        sizes
    }

    /// The size recorded for `path` when the folder was last walked, found by
    /// its hash.
    pub fn get(&self, path: &str) -> (r: Option<u64>)
        requires
            self.wf(),
        ensures
            r == self.size_for(fnv_of(vstd::utf8::encode_utf8(path@))),
    {
        let h = fnv1a(path);
        let mut lo: usize = 0;
        let mut hi: usize = self.table.len();
        while lo < hi
            invariant
                lo <= hi <= self.table@.len(),
                self.wf(),
                h == fnv_of(vstd::utf8::encode_utf8(path@)),
                forall|i: int| 0 <= i < lo ==> #[trigger] self.table@[i].0 < h,
                forall|i: int| hi <= i < self.table@.len() ==> #[trigger] self.table@[i].0 > h,
            decreases hi - lo,
        {
            let mid = lo + (hi - lo) / 2;
            let key = self.table[mid].0;
            if key == h {
                proof {
                    assert(self.table@[mid as int].0 == h);
                    let c = choose|i: int| 0 <= i < self.table@.len() && #[trigger] self.table@[i].0 == h;
                    if c != mid as int {
                        if c < mid {
                            assert(self.table@[c].0 < self.table@[mid as int].0);
                        } else {
                            assert(self.table@[mid as int].0 < self.table@[c].0);
                        }
                    }
                    self.size_at(mid as int);
                }
                return Some(self.table[mid].1);
            } else if key < h {
                proof {
                    assert forall|i: int| 0 <= i < mid + 1 implies #[trigger] self.table@[i].0 < h by {
                        if i < mid {
                            assert(self.table@[i].0 < self.table@[mid as int].0);
                        }
                    }
                }
                lo = mid + 1;
            } else {
                proof {
                    assert forall|i: int| mid <= i < self.table@.len() implies #[trigger] self.table@[i].0 > h by {
                        if i > mid {
                            assert(self.table@[mid as int].0 < self.table@[i].0);
                        }
                    }
                }
                hi = mid;
            }
        }
        proof {
            if exists|i: int| 0 <= i < self.table@.len() && #[trigger] self.table@[i].0 == h {
                let c = choose|i: int| 0 <= i < self.table@.len() && #[trigger] self.table@[i].0 == h;
                assert(c < lo || c >= hi);
            }
        }
        None
    }
}

} // verus!
