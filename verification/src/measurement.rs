//! Filesystem-reported object measurements, separate from I/O byte counters.
//!
//! Identity links names to an object within an observed filesystem lifetime.
//! IDs can be reused after deletion or a filesystem lifecycle change; callers
//! must not infer continuity across an unknown gap or remount from equality
//! alone. Allocation is not exclusive physical usage: clones and snapshots may
//! share extents. The metadata read itself is the host's; this module builds
//! the measurement from what the read returned.

use vstd::prelude::*;

use crate::event::Timestamp;

verus! {

#[derive(Debug, Clone, Copy, PartialEq, Eq, Structural)]
pub enum IdentityPlatform {
    Unix,
    Windows,
}

/// A native object identifier scoped to a volume and its observed lifetime.
/// Unix IDs contain the inode as eight little-endian bytes; Windows IDs retain
/// all 128 native bits. `volume_id` is a device ID or volume serial number, not
/// a globally unique or permanent filesystem identity.
#[derive(Debug, Clone, PartialEq, Eq)]
pub struct ObjectIdentity {
    pub platform: IdentityPlatform,
    pub volume_id: u64,
    pub file_id: Vec<u8>,
}

/// What an identity is: its platform, volume and native bytes.
pub type IdView = (IdentityPlatform, u64, Seq<u8>);

impl ObjectIdentity {
    pub open spec fn id(&self) -> IdView {
        (self.platform, self.volume_id, self.file_id@)
    }

    /// A copy with the same platform, volume and bytes.
    pub fn copy(&self) -> (out: ObjectIdentity)
        ensures
            out.id() == self.id(),
    {
        ObjectIdentity { platform: self.platform, volume_id: self.volume_id, file_id: copy_bytes(&self.file_id) }
    }

    /// Whether two identities name the same object.
    pub fn same(&self, other: &ObjectIdentity) -> (r: bool)
        ensures
            r == (self.id() == other.id()),
    {
        if self.platform != other.platform || self.volume_id != other.volume_id {
            return false;
        }
        if self.file_id.len() != other.file_id.len() {
            return false;
        }
        let mut i: usize = 0;
        while i < self.file_id.len()
            invariant
                i <= self.file_id@.len(),
                self.file_id@.len() == other.file_id@.len(),
                forall|j: int| 0 <= j < i ==> self.file_id@[j] == other.file_id@[j],
            decreases self.file_id@.len() - i,
        {
            if self.file_id[i] != other.file_id[i] {
                return false;
            }
            i = i + 1;
        }
        proof {
            assert(self.file_id@ =~= other.file_id@);
        }
        true
    }

    /// Whether `self` sorts before `other` by platform, volume and then bytes.
    pub fn is_before(&self, other: &ObjectIdentity) -> (r: bool)
        ensures
            r == id_less(self.id(), other.id()),
    {
        let pa: u8 = match self.platform { IdentityPlatform::Unix => 0, IdentityPlatform::Windows => 1 };
        let pb: u8 = match other.platform { IdentityPlatform::Unix => 0, IdentityPlatform::Windows => 1 };
        if pa != pb {
            return pa < pb;
        }
        if self.volume_id != other.volume_id {
            return self.volume_id < other.volume_id;
        }
        bytes_less_exec(self.file_id.as_slice(), other.file_id.as_slice())
    }
}

/// A copy of `bytes`.
pub fn copy_bytes(bytes: &Vec<u8>) -> (out: Vec<u8>)
    ensures
        out@ == bytes@,
{
    let mut out: Vec<u8> = Vec::new();
    let mut i: usize = 0;
    while i < bytes.len()
        invariant
            i <= bytes@.len(),
            out@ == bytes@.take(i as int),
        decreases bytes@.len() - i,
    {
        out.push(bytes[i]);
        proof {
            assert(bytes@.take(i + 1) =~= bytes@.take(i as int).push(bytes@[i as int]));
        }
        i = i + 1;
    }
    proof {
        assert(bytes@.take(bytes@.len() as int) =~= bytes@);
    }
    out
}

/// Byte strings in lexicographic order, a proper prefix first.
pub open spec fn bytes_less(a: Seq<u8>, b: Seq<u8>) -> bool
    decreases a.len(),
{
    if a.len() == 0 {
        b.len() > 0
    } else if b.len() == 0 {
        false
    } else if a[0] != b[0] {
        a[0] < b[0]
    } else {
        bytes_less(a.drop_first(), b.drop_first())
    }
}

pub open spec fn platform_rank(p: IdentityPlatform) -> int {
    match p {
        IdentityPlatform::Unix => 0,
        IdentityPlatform::Windows => 1,
    }
}

/// The order identities sort in: platform, then volume, then native bytes.
pub open spec fn id_less(a: IdView, b: IdView) -> bool {
    platform_rank(a.0) < platform_rank(b.0)
        || (a.0 == b.0 && (a.1 < b.1 || (a.1 == b.1 && bytes_less(a.2, b.2))))
}

fn bytes_less_exec(a: &[u8], b: &[u8]) -> (r: bool)
    ensures
        r == bytes_less(a@, b@),
{
    let mut i: usize = 0;
    assert(a@.skip(0) =~= a@);
    assert(b@.skip(0) =~= b@);
    while i < a.len() && i < b.len() && a[i] == b[i]
        invariant
            i <= a@.len(),
            i <= b@.len(),
            bytes_less(a@.skip(i as int), b@.skip(i as int)) == bytes_less(a@, b@),
        decreases a@.len() - i,
    {
        proof {
            assert(a@.skip(i as int).drop_first() =~= a@.skip(i + 1));
            assert(b@.skip(i as int).drop_first() =~= b@.skip(i + 1));
        }
        i = i + 1;
    }
    if i == a.len() {
        i < b.len()
    } else if i == b.len() {
        false
    } else {
        proof {
            assert(a@.skip(i as int)[0] == a@[i as int]);
            assert(b@.skip(i as int)[0] == b@[i as int]);
        }
        a[i] < b[i]
    }
}

pub proof fn bytes_less_irreflexive(a: Seq<u8>)
    ensures
        !bytes_less(a, a),
    decreases a.len(),
{
    if a.len() > 0 {
        bytes_less_irreflexive(a.drop_first());
    }
}

pub proof fn bytes_less_total(a: Seq<u8>, b: Seq<u8>)
    ensures
        a == b || bytes_less(a, b) || bytes_less(b, a),
    decreases a.len(),
{
    if a.len() > 0 && b.len() > 0 && a[0] == b[0] {
        let ra = a.drop_first();
        let rb = b.drop_first();
        bytes_less_total(ra, rb);
        if ra == rb {
            assert(a.len() == ra.len() + 1);
            assert(b.len() == rb.len() + 1);
            assert forall|i: int| 0 <= i < a.len() implies a[i] == b[i] by {
                if i > 0 {
                    assert(a[i] == ra[i - 1]);
                    assert(b[i] == rb[i - 1]);
                }
            }
            assert(a =~= b);
        }
    } else if a.len() == 0 && b.len() == 0 {
        assert(a =~= b);
    }
}

pub proof fn bytes_less_transitive(a: Seq<u8>, b: Seq<u8>, c: Seq<u8>)
    requires
        bytes_less(a, b),
        bytes_less(b, c),
    ensures
        bytes_less(a, c),
    decreases a.len(),
{
    if a.len() > 0 && b.len() > 0 && c.len() > 0 && a[0] == b[0] && b[0] == c[0] {
        bytes_less_transitive(a.drop_first(), b.drop_first(), c.drop_first());
    }
}

/// Identities sort strictly, totally and transitively.
pub proof fn id_less_is_an_order(a: IdView, b: IdView, c: IdView)
    ensures
        !id_less(a, a),
        a == b || id_less(a, b) || id_less(b, a),
        id_less(a, b) && id_less(b, c) ==> id_less(a, c),
        id_less(a, b) ==> !id_less(b, a),
{
    bytes_less_irreflexive(a.2);
    bytes_less_total(a.2, b.2);
    if bytes_less(a.2, b.2) && bytes_less(b.2, c.2) {
        bytes_less_transitive(a.2, b.2, c.2);
    }
    if bytes_less(a.2, b.2) && bytes_less(b.2, a.2) {
        bytes_less_transitive(a.2, b.2, a.2);
        bytes_less_irreflexive(a.2);
    }
    if platform_rank(a.0) == platform_rank(b.0) {
        assert(a.0 == b.0);
    }
}

#[derive(Debug, Clone, Copy, PartialEq, Eq, Structural)]
pub enum FileKind {
    File,
    Directory,
    Symlink,
    Other,
}

#[derive(Debug, Clone, PartialEq)]
pub struct FileMeasurement {
    pub identity: Option<ObjectIdentity>,
    pub kind: FileKind,
    /// File length, not the number of bytes written. Directories contribute
    /// zero by this module's file-content accounting convention.
    pub logical_bytes: u64,
    /// Filesystem-reported allocation, never substituted with logical length.
    /// `None` means unsupported or not representable; zero is a known value.
    pub allocated_bytes: Option<u64>,
    pub link_count: Option<u64>,
    /// Receipt time after the metadata reads. This is not a change timestamp
    /// or a claim that the fields were observed atomically.
    pub measured_at: Timestamp,
}

/// The identity a measurement carries, if any.
pub open spec fn id_of(m: FileMeasurement) -> Option<IdView> {
    match m.identity {
        Some(i) => Some(i.id()),
        None => None,
    }
}

/// Two measurements that agree on everything a comparison reads.
pub open spec fn same_measurement(a: FileMeasurement, b: FileMeasurement) -> bool {
    &&& id_of(a) == id_of(b)
    &&& a.kind == b.kind
    &&& a.logical_bytes == b.logical_bytes
    &&& a.allocated_bytes == b.allocated_bytes
    &&& a.link_count == b.link_count
    &&& a.measured_at == b.measured_at
}

pub fn copy_identity(id: &Option<ObjectIdentity>) -> (out: Option<ObjectIdentity>)
    ensures
        match (out, *id) {
            (Some(a), Some(b)) => a.id() == b.id(),
            (None, None) => true,
            _ => false,
        },
{
    match id {
        Some(i) => Some(i.copy()),
        None => None,
    }
}

impl FileMeasurement {
    /// A copy that agrees with `self` on every field.
    pub fn copy(&self) -> (out: FileMeasurement)
        ensures
            same_measurement(out, *self),
    {
        FileMeasurement {
            identity: copy_identity(&self.identity),
            kind: self.kind,
            logical_bytes: self.logical_bytes,
            allocated_bytes: self.allocated_bytes,
            link_count: self.link_count,
            measured_at: self.measured_at,
        }
    }

    /// Whether both name an object and the objects differ.
    pub fn identity_differs(&self, other: &FileMeasurement) -> (r: bool)
        ensures
            r == (id_of(*self) is Some && id_of(*other) is Some && id_of(*self) != id_of(*other)),
    {
        match (&self.identity, &other.identity) {
            (Some(a), Some(b)) => !a.same(b),
            _ => false,
        }
    }

    /// Whether both carry the same identity, or neither carries one.
    pub fn identity_matches(&self, other: &FileMeasurement) -> (r: bool)
        ensures
            r == (id_of(*self) == id_of(*other)),
    {
        match (&self.identity, &other.identity) {
            (Some(a), Some(b)) => a.same(b),
            (None, None) => true,
            _ => false,
        }
    }
}

/// Eight little-endian bytes of `x`.
pub open spec fn le_bytes(x: u64) -> Seq<u8> {
    Seq::new(8, |i: int| ((x >> (8 * i) as u64) & 0xff) as u8)
}

/// What a POSIX no-follow stat returned, the fields a measurement reads.
#[derive(Debug, Clone, Copy, PartialEq, Eq, Structural)]
pub struct UnixStat {
    pub dev: u64,
    pub ino: u64,
    pub kind: FileKind,
    pub len: u64,
    /// 512-byte blocks allocated.
    pub blocks: u64,
    pub nlink: u64,
}

/// The measurement one no-follow stat supplies, received at `now`: identity
/// and size from the same read, so a replacement between two lookups cannot
/// be mixed into one measurement.
pub open spec fn from_stat_of(stat: UnixStat, now: Timestamp) -> (IdView, FileKind, u64, Option<u64>, Option<u64>) {
    let is_directory = stat.kind == FileKind::Directory;
    (
        (IdentityPlatform::Unix, stat.dev, le_bytes(stat.ino)),
        stat.kind,
        if is_directory { 0 } else { stat.len },
        if is_directory { Some(0) } else if stat.blocks * 512 > u64::MAX { None } else { Some((stat.blocks * 512) as u64) },
        Some(stat.nlink),
    )
}

/// Builds the measurement a POSIX no-follow stat describes.
pub fn measured(stat: UnixStat, now: Timestamp) -> (m: FileMeasurement)
    ensures
        m.identity is Some,
        (id_of(m)->0, m.kind, m.logical_bytes, m.allocated_bytes, m.link_count) == from_stat_of(stat, now),
        m.measured_at == now,
{
    let mut file_id: Vec<u8> = Vec::new();
    let mut i: u64 = 0;
    while i < 8
        invariant
            i <= 8,
            file_id@.len() == i,
            forall|j: int| 0 <= j < i ==> file_id@[j] == ((stat.ino >> (8 * j) as u64) & 0xff) as u8,
        decreases 8 - i,
    {
        file_id.push(((stat.ino >> (8 * i)) & 0xff) as u8);
        i = i + 1;
    }
    proof {
        assert(file_id@ =~= le_bytes(stat.ino));
    }
    let is_directory = stat.kind == FileKind::Directory;
    let allocated = if is_directory { Some(0) } else { stat.blocks.checked_mul(512) };
    FileMeasurement {
        identity: Some(ObjectIdentity { platform: IdentityPlatform::Unix, volume_id: stat.dev, file_id }),
        kind: stat.kind,
        logical_bytes: if is_directory { 0 } else { stat.len },
        allocated_bytes: allocated,
        link_count: Some(stat.nlink),
        measured_at: now,
    }
}

} // verus!
