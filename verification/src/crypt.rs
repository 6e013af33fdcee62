//! Journal rows that only this machine's user can read back.
//!
//! The line format is the one the macOS app writes: the marker below, then
//! base64 of the AES-256-GCM combined box — a 12-byte nonce, the ciphertext,
//! the 16-byte tag. One journal format for both hosts, so a row's shape never
//! depends on which Pathlight wrote it. Every host on one install reads the
//! same key file.

use vstd::prelude::*;

use crate::chars::{chars_of, decimal, decimal_of, has_prefix, push_all, push_str, slice_of, starts_with, string_of};
use crate::CoreError;

use aes_gcm::aead::{Aead, OsRng};
use aes_gcm::{AeadCore, Aes256Gcm, KeyInit, Nonce};
use base64::engine::general_purpose::STANDARD;
use base64::Engine as _;

verus! {

/// What an encrypted line starts with. A change to the cipher or the framing
/// is a new version, not a silent reinterpretation of old rows.
pub const PREFIX: &'static str = "pathlight:v1:aes-gcm:";

/// The bytes of a nonce at the front of every sealed box.
pub const NONCE_BYTES: usize = 12;

/// The bytes of the tag at the end of every sealed box.
pub const TAG_BYTES: usize = 16;

/// The longest plaintext AES-GCM encrypts.
pub const PLAINTEXT_MAX: u64 = 68719476736;

/// What AES-256-GCM makes of `plaintext` under `key` and `nonce`, with no
/// associated data: the ciphertext followed by the tag.
pub uninterp spec fn aes_gcm_sealed(key: Seq<u8>, nonce: Seq<u8>, plaintext: Seq<u8>) -> Seq<u8>;

/// What AES-256-GCM opens `sealed` to under `key` and `nonce`, or `None`
/// when its tag does not authenticate it.
pub uninterp spec fn aes_gcm_opened(key: Seq<u8>, nonce: Seq<u8>, sealed: Seq<u8>) -> Option<Seq<u8>>;

/// The standard, padded base64 spelling of `bytes`.
pub uninterp spec fn base64_text(bytes: Seq<u8>) -> Seq<char>;

/// The bytes a standard base64 decoder reads out of `text`, or `None` when
/// it is not base64.
pub uninterp spec fn base64_bytes(text: Seq<char>) -> Option<Seq<u8>>;

/// `Aes256Gcm::generate_nonce` with the operating system's generator: twelve
/// random bytes. Nothing is said of which.
#[verifier::external_body]
fn fresh_nonce() -> (nonce: Vec<u8>)
    ensures
        nonce@.len() == NONCE_BYTES,
{
    Aes256Gcm::generate_nonce(&mut OsRng).to_vec()
}

/// `Aead::encrypt` of `Aes256Gcm`: refuses a plaintext longer than the
/// cipher allows, and otherwise returns the ciphertext with the 16-byte tag
/// appended.
#[verifier::external_body]
fn aes_gcm_encrypt(key: &[u8], nonce: &[u8], plaintext: &[u8]) -> (r: Option<Vec<u8>>)
    requires
        key@.len() == 32,
        nonce@.len() == NONCE_BYTES,
    ensures
        r is Some <==> plaintext@.len() <= PLAINTEXT_MAX,
        r matches Some(c) ==> c@ == aes_gcm_sealed(key@, nonce@, plaintext@),
        r matches Some(c) ==> c@.len() == plaintext@.len() + TAG_BYTES,
{
    Aes256Gcm::new(key.into()).encrypt(Nonce::from_slice(nonce), plaintext).ok()
}

/// `Aead::decrypt` of `Aes256Gcm`: the plaintext when the tag authenticates
/// the box. What was sealed under a key and nonce opens under them to the
/// plaintext it was sealed from.
#[verifier::external_body]
fn aes_gcm_decrypt(key: &[u8], nonce: &[u8], sealed: &[u8]) -> (r: Option<Vec<u8>>)
    requires
        key@.len() == 32,
        nonce@.len() == NONCE_BYTES,
    ensures
        r matches Some(opened) ==> aes_gcm_opened(key@, nonce@, sealed@) == Some(opened@),
        r is None ==> aes_gcm_opened(key@, nonce@, sealed@) is None,
        r is None ==> (forall|p: Seq<u8>| p.len() <= PLAINTEXT_MAX ==> sealed@ != #[trigger] aes_gcm_sealed(key@, nonce@, p)),
        r matches Some(opened) ==> (forall|p: Seq<u8>| p.len() <= PLAINTEXT_MAX && sealed@ == #[trigger] aes_gcm_sealed(key@, nonce@, p)
            ==> p == opened@),
{
    Aes256Gcm::new(key.into()).decrypt(Nonce::from_slice(nonce), sealed).ok()
}

/// `Engine::encode` of the standard engine. It panics when the length of
/// the text would not fit in a `usize`.
#[verifier::external_body]
fn base64_encode(bytes: &[u8]) -> (text: String)
    requires
        bytes@.len() / 3 * 4 + 4 <= usize::MAX,
    ensures
        text@ == base64_text(bytes@),
{
    STANDARD.encode(bytes)
}

/// `Engine::decode` of the standard engine. What it encoded decodes to the
/// bytes it was encoded from.
#[verifier::external_body]
fn base64_decode(text: &str) -> (r: Option<Vec<u8>>)
    ensures
        r matches Some(decoded) ==> base64_bytes(text@) == Some(decoded@),
        r is None ==> base64_bytes(text@) is None,
        r is None ==> (forall|original: Seq<u8>| text@ != #[trigger] base64_text(original)),
        r matches Some(decoded) ==> (forall|original: Seq<u8>| text@ == #[trigger] base64_text(original) ==> original == decoded@),
{
    STANDARD.decode(text).ok()
}

/// `String::from_utf8`: the text when the bytes are UTF-8.
#[verifier::external_body]
pub(crate) fn utf8_text(bytes: Vec<u8>) -> (r: Option<String>)
    ensures
        r is Some <==> vstd::utf8::valid_utf8(bytes@),
        r matches Some(s) ==> s@ == vstd::utf8::decode_utf8(bytes@),
{
    String::from_utf8(bytes).ok()
}

/// The box a plaintext is sealed into under `nonce`: the nonce, then the
/// ciphertext and its tag.
pub open spec fn sealed_box(key: Seq<u8>, nonce: Seq<u8>, plaintext: Seq<u8>) -> Seq<u8> {
    nonce + aes_gcm_sealed(key, nonce, plaintext)
}

/// What a box opens to: `None` when it is shorter than a nonce or its tag
/// does not authenticate it.
pub open spec fn box_opened(key: Seq<u8>, combined: Seq<u8>) -> Option<Seq<u8>> {
    if combined.len() < NONCE_BYTES {
        None
    } else {
        aes_gcm_opened(key, combined.take(NONCE_BYTES as int), combined.skip(NONCE_BYTES as int))
    }
}

/// The line a plaintext is stored as under `nonce`: the marker, then the
/// box in base64.
pub open spec fn sealed_line(key: Seq<u8>, nonce: Seq<u8>, plaintext: Seq<u8>) -> Seq<char> {
    PREFIX@ + base64_text(sealed_box(key, nonce, plaintext))
}

/// What a stored line opens to: `None` when it lacks the marker, is not
/// base64 after it, or holds a box this key cannot open.
pub open spec fn line_opened(key: Seq<u8>, line: Seq<char>) -> Option<Seq<u8>> {
    if !starts_with(line, PREFIX@) {
        None
    } else {
        match base64_bytes(line.skip(PREFIX@.len() as int)) {
            Some(combined) => box_opened(key, combined),
            None => None,
        }
    }
}

/// One plaintext sealed into a box under a fresh random nonce. Fails only
/// when the plaintext is longer than the cipher allows.
pub fn seal_bytes(key: &[u8], plaintext: &[u8]) -> (r: Result<Vec<u8>, CoreError>)
    requires
        key@.len() == 32,
    ensures
        r is Ok <==> plaintext@.len() <= PLAINTEXT_MAX,
        r matches Ok(b) ==> exists|n: Seq<u8>| n.len() == NONCE_BYTES && b@ == sealed_box(key@, n, plaintext@),
        r matches Ok(b) ==> b@.len() == plaintext@.len() + NONCE_BYTES + TAG_BYTES,
        r matches Err(e) ==> e is Io,
{
    let nonce = fresh_nonce();
    match aes_gcm_encrypt(key, nonce.as_slice(), plaintext) {
        Some(sealed) => {
            let mut combined = nonce.clone();
            let mut i: usize = 0;
            proof {
                assert(combined@ == nonce@) by {
                    assert(combined@ =~= nonce@);
                }
            }
            while i < sealed.len()
                invariant
                    i <= sealed@.len(),
                    combined@ == nonce@ + sealed@.take(i as int),
                decreases sealed@.len() - i,
            {
                combined.push(sealed[i]);
                proof {
                    assert(sealed@.take(i + 1) =~= sealed@.take(i as int).push(sealed@[i as int]));
                    assert(combined@ =~= nonce@ + sealed@.take(i + 1));
                }
                i = i + 1;
            }
            proof {
                assert(sealed@.take(sealed@.len() as int) =~= sealed@);
            }
            Ok(combined)
        },
        None => Err(CoreError::Io { message: "the journal line could not be encrypted".to_string() }),
    }
}

/// The plaintext behind a box, or `None` when it is shorter than a nonce or
/// this key cannot authenticate it.
pub fn open_bytes(key: &[u8], combined: &[u8]) -> (r: Option<Vec<u8>>)
    requires
        key@.len() == 32,
    ensures
        match r {
            Some(p) => box_opened(key@, combined@) == Some(p@),
            None => box_opened(key@, combined@) is None,
        },
        forall|n: Seq<u8>, p: Seq<u8>| n.len() == NONCE_BYTES && p.len() <= PLAINTEXT_MAX
            && combined@ == #[trigger] sealed_box(key@, n, p) ==> (r matches Some(q) && q@ == p),
{
    if combined.len() < NONCE_BYTES {
        return None;
    }
    let nonce = slice_bytes(combined, 0, NONCE_BYTES);
    let sealed = slice_bytes(combined, NONCE_BYTES, combined.len());
    let r = aes_gcm_decrypt(key, nonce.as_slice(), sealed.as_slice());
    proof {
        assert forall|n: Seq<u8>, p: Seq<u8>| n.len() == NONCE_BYTES && p.len() <= PLAINTEXT_MAX
            && combined@ == #[trigger] sealed_box(key@, n, p) implies (r matches Some(q) && q@ == p) by {
            assert(combined@.subrange(0, NONCE_BYTES as int) =~= n);
            assert(combined@.subrange(NONCE_BYTES as int, combined@.len() as int) =~= aes_gcm_sealed(key@, n, p));
        }
        assert(combined@.subrange(0, NONCE_BYTES as int) =~= combined@.take(NONCE_BYTES as int));
        assert(combined@.subrange(NONCE_BYTES as int, combined@.len() as int) =~= combined@.skip(NONCE_BYTES as int));
    }
    r
}

/// `bytes[from..to]`.
fn slice_bytes(bytes: &[u8], from: usize, to: usize) -> (out: Vec<u8>)
    requires
        from <= to <= bytes@.len(),
    ensures
        out@ == bytes@.subrange(from as int, to as int),
{
    let mut out: Vec<u8> = Vec::new();
    let mut i = from;
    while i < to
        invariant
            from <= i <= to <= bytes@.len(),
            out@ == bytes@.subrange(from as int, i as int),
        decreases to - i,
    {
        out.push(bytes[i]);
        proof {
            assert(out@ =~= bytes@.subrange(from as int, i + 1));
        }
        i = i + 1;
    }
    out
}

/// One line, encrypted under `key`: the marker, then the sealed box in
/// base64.
pub fn seal(key: &[u8], plaintext: &[u8]) -> (r: Result<String, CoreError>)
    requires
        key@.len() == 32,
    ensures
        (plaintext@.len() + NONCE_BYTES + TAG_BYTES) / 3 * 4 + 4 <= usize::MAX && plaintext@.len() <= PLAINTEXT_MAX
            ==> r is Ok,
        plaintext@.len() > PLAINTEXT_MAX ==> r is Err,
        r matches Ok(line) ==> exists|n: Seq<u8>| n.len() == NONCE_BYTES && line@ == sealed_line(key@, n, plaintext@),
        r matches Err(e) ==> e is Io,
{
    let combined = match seal_bytes(key, plaintext) {
        Ok(b) => b,
        Err(e) => return Err(e),
    };
    if combined.len() / 3 > (usize::MAX - 4) / 4 {
        return Err(CoreError::Io { message: "the journal line could not be encrypted".to_string() });
    }
    let text = base64_encode(combined.as_slice());
    let mut out = chars_of(PREFIX);
    push_str(&mut out, text.as_str());
    Ok(string_of(out.as_slice()))
}

/// The line behind an encrypted one, or `None` when this key cannot read it:
/// a row from another machine, or one whose bytes were altered. A line that
/// was sealed under this key opens to what was sealed.
pub fn open(key: &[u8], line: &str) -> (r: Option<Vec<u8>>)
    requires
        key@.len() == 32,
    ensures
        r matches Some(p) ==> line_opened(key@, line@) == Some(p@),
        r is None ==> line_opened(key@, line@) is None,
        forall|n: Seq<u8>, p: Seq<u8>| n.len() == NONCE_BYTES && p.len() <= PLAINTEXT_MAX
            && line@ == #[trigger] sealed_line(key@, n, p) ==> (r matches Some(q) && q@ == p),
{
    let chars = chars_of(line);
    let marker = chars_of(PREFIX);
    if !has_prefix(chars.as_slice(), marker.as_slice()) {
        proof {
            assert forall|n: Seq<u8>, p: Seq<u8>| n.len() == NONCE_BYTES && p.len() <= PLAINTEXT_MAX
                && line@ == #[trigger] sealed_line(key@, n, p) implies false by {
                assert(line@.take(PREFIX@.len() as int) =~= PREFIX@);
            }
        }
        return None;
    }
    let rest = string_of(slice_of(chars.as_slice(), marker.len(), chars.len()).as_slice());
    let decoded = base64_decode(rest.as_str());
    proof {
        assert forall|n: Seq<u8>, p: Seq<u8>| n.len() == NONCE_BYTES && p.len() <= PLAINTEXT_MAX
            && line@ == #[trigger] sealed_line(key@, n, p) implies (decoded matches Some(c) && c@ == sealed_box(key@, n, p)) by {
            assert(rest@ =~= base64_text(sealed_box(key@, n, p)));
        }
    }
    match decoded {
        Some(combined) => open_bytes(key, combined.as_slice()),
        None => None,
    }
}

/// What an encrypted line starts with, for a host that must decide whether a
/// row is encrypted before it fetches its key.
pub fn storage_line_marker() -> (m: String)
    ensures
        m@ == PREFIX@,
{
    PREFIX.to_string()
}

/// The error for a storage key that is not 32 bytes.
pub open spec fn wrong_key_text(len: nat) -> Seq<char> {
    "a storage key is 32 bytes, not "@ + decimal(len)
}

/// The key a host handed over, when it is one: 32 bytes.
pub fn storage_key(key: &[u8]) -> (r: Result<Vec<u8>, CoreError>)
    ensures
        r is Ok <==> key@.len() == 32,
        r matches Ok(k) ==> k@ == key@,
        r matches Err(e) ==> e == (CoreError::Encoding { message: e->Encoding_message })
            && e->Encoding_message@ == wrong_key_text(key@.len()),
{
    if key.len() == 32 {
        Ok(slice_bytes(key, 0, key.len()))
    } else {
        let mut text = chars_of("a storage key is 32 bytes, not ");
        let digits = decimal_of(key.len() as u64);
        push_all(&mut text, digits.as_slice());
        Err(CoreError::Encoding { message: string_of(text.as_slice()) })
    }
}

/// One journal line for a host that loads the shared key itself: the whole
/// stored line, marker and framing included.
pub fn seal_storage_line(payload: Vec<u8>, key: Vec<u8>) -> (r: Result<String, CoreError>)
    ensures
        key@.len() != 32 ==> (r matches Err(e) && e is Encoding),
        key@.len() == 32 && (payload@.len() + NONCE_BYTES + TAG_BYTES) / 3 * 4 + 4 <= usize::MAX
            && payload@.len() <= PLAINTEXT_MAX ==> r is Ok,
        r matches Ok(line) ==> exists|n: Seq<u8>| n.len() == NONCE_BYTES && line@ == sealed_line(key@, n, payload@),
{
    let key = match storage_key(key.as_slice()) {
        Ok(k) => k,
        Err(e) => return Err(e),
    };
    seal(key.as_slice(), payload.as_slice())
}

/// The bytes behind a stored line: `None` when the line was never encrypted
/// (a row from before the setting was turned on, which stays readable), and an
/// error when it is encrypted and this key cannot authenticate it. An
/// unreadable row is never handed back as if it were plaintext.
pub fn open_storage_line(line: String, key: Vec<u8>) -> (r: Result<Option<Vec<u8>>, CoreError>)
    ensures
        !starts_with(line@, PREFIX@) ==> r matches Ok(None),
        starts_with(line@, PREFIX@) && key@.len() != 32 ==> (r matches Err(e) && e is Encoding),
        starts_with(line@, PREFIX@) && key@.len() == 32 ==> match r {
            Ok(Some(p)) => line_opened(key@, line@) == Some(p@),
            Ok(None) => false,
            Err(e) => line_opened(key@, line@) is None && e is Encoding,
        },
        key@.len() == 32 ==> forall|n: Seq<u8>, p: Seq<u8>| n.len() == NONCE_BYTES && p.len() <= PLAINTEXT_MAX
            && line@ == #[trigger] sealed_line(key@, n, p) ==> (r matches Ok(Some(q)) && q@ == p),
{
    let chars = chars_of(line.as_str());
    let marker = chars_of(PREFIX);
    if !has_prefix(chars.as_slice(), marker.as_slice()) {
        proof {
            assert forall|n: Seq<u8>, p: Seq<u8>| n.len() == NONCE_BYTES && p.len() <= PLAINTEXT_MAX
                && line@ == #[trigger] sealed_line(key@, n, p) implies false by {
                assert(line@.take(PREFIX@.len() as int) =~= PREFIX@);
            }
        }
        return Ok(None);
    }
    let key = match storage_key(key.as_slice()) {
        Ok(k) => k,
        Err(e) => return Err(e),
    };
    match open(key.as_slice(), line.as_str()) {
        Some(p) => Ok(Some(p)),
        None => Err(CoreError::Encoding { message: "the row is encrypted and this key cannot read it".to_string() }),
    }
}

/// The json behind a line, decrypting when the line is encrypted and this
/// machine has the key. `None` for a row this build cannot read: encrypted
/// with no key, or with another key, or not UTF-8 once opened.
pub fn readable(line: &str, key: Option<&[u8]>) -> (r: Option<String>)
    requires
        key matches Some(k) ==> k@.len() == 32,
    ensures
        !starts_with(line@, PREFIX@) ==> (r matches Some(t) && t@ == line@),
        starts_with(line@, PREFIX@) ==> match key {
            None => r is None,
            Some(k) => match line_opened(k@, line@) {
                Some(p) => if vstd::utf8::valid_utf8(p) {
                    (r matches Some(t) && t@ == vstd::utf8::decode_utf8(p))
                } else {
                    r is None
                },
                None => r is None,
            },
        },
{
    let chars = chars_of(line);
    let marker = chars_of(PREFIX);
    if !has_prefix(chars.as_slice(), marker.as_slice()) {
        return Some(line.to_string());
    }
    match key {
        None => None,
        Some(k) => match open(k, line) {
            Some(bytes) => utf8_text(bytes),
            None => None,
        },
    }
}

/// Where the key for a journal lives: beside it, the journal's name with its
/// extension replaced by `key`.
pub open spec fn key_path_of(journal: Seq<char>) -> Seq<char> {
    crate::paths::with_extension(journal, "key"@)
}

/// Exec form of [`key_path_of`].
pub fn key_path(journal: &str) -> (path: String)
    ensures
        path@ == key_path_of(journal@),
{
    crate::paths::replace_extension(journal, "key")
}

/// The key a key file holds, when it holds one: exactly 32 bytes.
pub fn stored_key(stored: &[u8]) -> (r: Option<Vec<u8>>)
    ensures
        r is Some <==> stored@.len() == 32,
        r matches Some(k) ==> k@ == stored@,
{
    if stored.len() == 32 { Some(slice_bytes(stored, 0, 32)) } else { None }
}

/// The text of the error for a key file this build cannot read, which is
/// never replaced: that would leave every row it encrypted unreadable.
pub open spec fn unreadable_key_text(path: Seq<char>) -> Seq<char> {
    path + " is not a key this build can read, and replacing it would make every encrypted row unreadable"@
}

/// The key behind what a key file at `path` holds, or the error that stops
/// a fresh key being written over it.
pub fn key_from_file(stored: &[u8], path: &str) -> (r: Result<Vec<u8>, CoreError>)
    ensures
        r is Ok <==> stored@.len() == 32,
        r matches Ok(k) ==> k@ == stored@,
        r matches Err(e) ==> e is Io && e->Io_message@ == unreadable_key_text(path@),
{
    match stored_key(stored) {
        Some(k) => Ok(k),
        None => {
            let mut text = chars_of(path);
            push_str(&mut text, " is not a key this build can read, and replacing it would make every encrypted row unreadable");
            Err(CoreError::Io { message: string_of(text.as_slice()) })
        },
    }
}

} // verus!
