//! `file://` URLs for filesystem paths, spelled the way Swift's `URL` writes
//! them: the path's UTF-8 bytes, with every byte a URL path cannot carry as
//! `%XX`, and directories ending in `/`.
//!
//! POSIX paths only; a Windows drive letter would need `file:///C:/...`.

use vstd::prelude::*;
use vstd::utf8::{decode_utf8, encode_utf8, valid_utf8};

verus! {

/// Whether a byte of a path is written as `%XX`: every byte that is not
/// ASCII, the controls, and the characters a URL path reserves
/// (`space " # % < > ? [ \ ] ^ ` { | }`).
pub open spec fn escaped(b: u8) -> bool {
    b >= 0x80 || b < 0x20 || b == 0x7f || b == 0x20 || b == 0x22 || b == 0x23 || b == 0x25
        || b == 0x3c || b == 0x3e || b == 0x3f || b == 0x5b || b == 0x5c || b == 0x5d
        || b == 0x5e || b == 0x60 || b == 0x7b || b == 0x7c || b == 0x7d
}

/// The upper-case hexadecimal digit for `d`.
pub open spec fn hex_digit(d: u8) -> char {
    if d < 10 { (0x30 + d) as char } else { (0x37 + d) as char }
}

/// How one byte of a path is spelled in its URL.
pub open spec fn byte_text(b: u8) -> Seq<char> {
    if escaped(b) { seq!['%', hex_digit(b / 16), hex_digit(b % 16)] } else { seq![b as char] }
}

/// The percent-encoding of `bytes`.
pub open spec fn percent_encoded(bytes: Seq<u8>) -> Seq<char>
    decreases bytes.len(),
{
    if bytes.len() == 0 {
        Seq::empty()
    } else {
        percent_encoded(bytes.drop_last()) + byte_text(bytes.last())
    }
}

/// `file://`.
pub open spec fn scheme() -> Seq<char> {
    seq!['f', 'i', 'l', 'e', ':', '/', '/']
}

/// The URL of the path whose UTF-8 bytes are `bytes`: the scheme, then the
/// encoded path, then a `/` for a directory whose URL does not end in one.
pub open spec fn url_of(bytes: Seq<u8>, is_directory: bool) -> Seq<char> {
    let url = scheme() + percent_encoded(bytes);
    if is_directory && url.last() != '/' { url.push('/') } else { url }
}

/// The value of a hexadecimal digit, in either case.
pub open spec fn hex_value(b: u8) -> Option<u8> {
    if 0x30 <= b && b <= 0x39 {
        Some((b - 0x30) as u8)
    } else if 0x41 <= b && b <= 0x46 {
        Some((b - 0x37) as u8)
    } else if 0x61 <= b && b <= 0x66 {
        Some((b - 0x57) as u8)
    } else {
        None
    }
}

/// Percent-decoding: every `%` followed by two hexadecimal digits is the byte
/// they spell; every other byte, a lone `%` included, stands for itself.
pub open spec fn percent_decoded(b: Seq<u8>) -> Seq<u8>
    decreases b.len(),
{
    if b.len() == 0 {
        Seq::empty()
    } else if b[0] == 0x25 && b.len() >= 3 && hex_value(b[1]) is Some && hex_value(b[2]) is Some {
        seq![(hex_value(b[1])->0 * 16 + hex_value(b[2])->0) as u8] + percent_decoded(b.skip(3))
    } else {
        seq![b[0]] + percent_decoded(b.skip(1))
    }
}

/// The bytes of `file://`.
pub open spec fn scheme_bytes() -> Seq<u8> {
    seq![0x66u8, 0x69u8, 0x6cu8, 0x65u8, 0x3au8, 0x2fu8, 0x2fu8]
}

/// The path a URL whose UTF-8 bytes are `url` names: `None` unless it starts
/// with `file://` and what follows decodes to UTF-8.
pub open spec fn path_of_url(url: Seq<u8>) -> Option<Seq<char>> {
    if url.len() >= 7 && url.take(7) == scheme_bytes() {
        let decoded = percent_decoded(url.skip(7));
        if valid_utf8(decoded) { Some(decode_utf8(decoded)) } else { None }
    } else {
        None
    }
}

/// `path` without the slashes it ends in, keeping a lone `/`.
pub open spec fn without_trailing_slash(path: Seq<char>) -> Seq<char>
    decreases path.len(),
{
    if path.len() > 1 && path.last() == '/' { without_trailing_slash(path.drop_last()) } else { path }
}

/// The bytes of text that is all ASCII, one per character.
pub open spec fn ascii_bytes(s: Seq<char>) -> Seq<u8> {
    Seq::new(s.len(), |i: int| s[i] as u8)
}

proof fn encoded_text_is_ascii(bytes: Seq<u8>)
    ensures
        vstd::utf8::is_ascii_chars(percent_encoded(bytes)),
    decreases bytes.len(),
{
    if bytes.len() > 0 {
        encoded_text_is_ascii(bytes.drop_last());
        let head = percent_encoded(bytes.drop_last());
        let tail = byte_text(bytes.last());
        assert forall|i: int| 0 <= i < (head + tail).len() implies '\0' <= #[trigger] (head + tail)[i] <= '\u{7f}' by {
            if i >= head.len() {
                let b = bytes.last();
                assert(b / 16 < 16 && b % 16 < 16);
            }
        }
    }
}

proof fn encoding_splits(a: Seq<u8>, c: Seq<u8>)
    ensures
        percent_encoded(a + c) == percent_encoded(a) + percent_encoded(c),
    decreases c.len(),
{
    if c.len() == 0 {
        assert(a + c =~= a);
        assert(percent_encoded(a) + percent_encoded(c) =~= percent_encoded(a));
    } else {
        encoding_splits(a, c.drop_last());
        assert((a + c).drop_last() =~= a + c.drop_last());
        assert((a + c).last() == c.last());
        assert(percent_encoded(a + c) =~= percent_encoded(a) + percent_encoded(c));
    }
}

proof fn decoding_undoes_encoding(bytes: Seq<u8>)
    ensures
        percent_decoded(ascii_bytes(percent_encoded(bytes))) == bytes,
    decreases bytes.len(),
{
    if bytes.len() == 0 {
        assert(ascii_bytes(percent_encoded(bytes)) =~= Seq::<u8>::empty());
    } else {
        let b0 = bytes[0];
        let rest = bytes.skip(1);
        assert(bytes =~= seq![b0] + rest);
        encoding_splits(seq![b0], rest);
        assert(seq![b0].drop_last() =~= Seq::<u8>::empty());
        assert(seq![b0].last() == b0);
        assert(percent_encoded(Seq::<u8>::empty()) =~= Seq::<char>::empty());
        assert(percent_encoded(seq![b0]) == percent_encoded(seq![b0].drop_last()) + byte_text(seq![b0].last()));
        assert(percent_encoded(seq![b0]) =~= byte_text(b0));
        decoding_undoes_encoding(rest);
        let tail = ascii_bytes(percent_encoded(rest));
        let whole = ascii_bytes(percent_encoded(bytes));
        assert(whole =~= ascii_bytes(byte_text(b0)) + tail);
        if escaped(b0) {
            let hi = b0 / 16;
            let lo = b0 % 16;
            assert(hex_value(hex_digit(hi) as u8) == Some(hi));
            assert(hex_value(hex_digit(lo) as u8) == Some(lo));
            assert(whole[0] == 0x25);
            assert(whole.skip(3) =~= tail);
            assert((hi * 16 + lo) as u8 == b0);
            assert(percent_decoded(whole) =~= seq![b0] + percent_decoded(tail));
        } else {
            assert((b0 as char) as u8 == b0);
            assert(whole.skip(1) =~= tail);
            assert(percent_decoded(whole) =~= seq![b0] + percent_decoded(tail));
        }
    }
}

/// A file's URL names that file again: encoding a path and decoding its URL
/// gives back the path, whatever characters it holds.
pub proof fn a_path_survives_its_url(path: Seq<char>)
    ensures
        path_of_url(encode_utf8(url_of(encode_utf8(path), false))) == Some(path),
{
    broadcast use vstd::utf8::encode_utf8_valid_utf8, vstd::utf8::encode_utf8_decode_utf8;

    let bytes = encode_utf8(path);
    let encoded = percent_encoded(bytes);
    let url = scheme() + encoded;
    assert(url_of(bytes, false) == url);
    encoded_text_is_ascii(bytes);
    assert(vstd::utf8::is_ascii_chars(url)) by {
        assert forall|i: int| 0 <= i < url.len() implies '\0' <= #[trigger] url[i] <= '\u{7f}' by {
            if i >= 7 {
                assert(url[i] == encoded[i - 7]);
            }
        }
    }
    vstd::utf8::is_ascii_chars_encode_utf8(url);
    let ub = encode_utf8(url);
    assert(ub =~= ascii_bytes(url));
    assert(ub.take(7) =~= scheme_bytes());
    assert(ub.skip(7) =~= ascii_bytes(encoded));
    decoding_undoes_encoding(bytes);
}

fn is_escaped(b: u8) -> (r: bool)
    ensures
        r == escaped(b),
{
    b >= 0x80 || b < 0x20 || b == 0x7f || b == 0x20 || b == 0x22 || b == 0x23 || b == 0x25
        || b == 0x3c || b == 0x3e || b == 0x3f || b == 0x5b || b == 0x5c || b == 0x5d
        || b == 0x5e || b == 0x60 || b == 0x7b || b == 0x7c || b == 0x7d
}

fn hex_char(d: u8) -> (c: char)
    requires
        d < 16,
    ensures
        c == hex_digit(d),
{
    if d < 10 {
        let b: u8 = 0x30 + d;
        b as char
    } else {
        let b: u8 = 0x37 + d;
        b as char
    }
}

fn hex_of(b: u8) -> (r: Option<u8>)
    ensures
        r == hex_value(b),
{
    if 0x30 <= b && b <= 0x39 {
        Some(b - 0x30)
    } else if 0x41 <= b && b <= 0x46 {
        Some(b - 0x37)
    } else if 0x61 <= b && b <= 0x66 {
        Some(b - 0x57)
    } else {
        None
    }
}

/// The `file://` URL of `path`; a directory's URL ends in `/`.
pub fn encode(path: &str, is_directory: bool) -> (url: String)
    ensures
        url@ == url_of(encode_utf8(path@), is_directory),
{
    let bytes = path.as_bytes();
    let mut out: Vec<char> = vec!['f', 'i', 'l', 'e', ':', '/', '/'];
    let mut i: usize = 0;
    while i < bytes.len()
        invariant
            i <= bytes@.len(),
            out@ == scheme() + percent_encoded(bytes@.take(i as int)),
        decreases bytes@.len() - i,
    {
        let b = bytes[i];
        if is_escaped(b) {
            out.push('%');
            out.push(hex_char(b / 16));
            out.push(hex_char(b % 16));
        } else {
            out.push(b as char);
        }
        proof {
            assert(bytes@.take(i + 1).drop_last() =~= bytes@.take(i as int));
            assert(out@ =~= scheme() + percent_encoded(bytes@.take(i + 1)));
        }
        i = i + 1;
    }
    proof {
        assert(bytes@.take(bytes@.len() as int) =~= bytes@);
    }
    let n = out.len();
    if is_directory && out[n - 1] != '/' {
        out.push('/');
    }
    crate::chars::string_of(out.as_slice())
}

/// The path a `file://` URL names, or `None` when `url` is not one or its
/// decoded bytes are not UTF-8.
pub fn decode(url: &str) -> (r: Option<String>)
    ensures
        r matches Some(path) ==> path_of_url(encode_utf8(url@)) == Some(path@),
        r is None ==> path_of_url(encode_utf8(url@)) is None,
{
    let b = url.as_bytes();
    let n = b.len();
    if n < 7 || b[0] != 0x66 || b[1] != 0x69 || b[2] != 0x6c || b[3] != 0x65 || b[4] != 0x3a || b[5] != 0x2f
        || b[6] != 0x2f {
        proof {
            if b@.len() >= 7 && b@.take(7) == scheme_bytes() {
                assert(b@.take(7)[0] == b@[0]);
                assert(b@.take(7)[1] == b@[1]);
                assert(b@.take(7)[2] == b@[2]);
                assert(b@.take(7)[3] == b@[3]);
                assert(b@.take(7)[4] == b@[4]);
                assert(b@.take(7)[5] == b@[5]);
                assert(b@.take(7)[6] == b@[6]);
            }
        }
        return None;
    }
    proof {
        assert(b@.take(7) =~= scheme_bytes());
    }
    let mut out: Vec<u8> = Vec::new();
    let mut i: usize = 7;
    while i < n
        invariant
            7 <= i <= n,
            n == b@.len(),
            out@ + percent_decoded(b@.skip(i as int)) == percent_decoded(b@.skip(7)),
        decreases n - i,
    {
        let rest = Ghost(b@.skip(i as int));
        if b[i] == 0x25 && n - i >= 3 {
            let high = hex_of(b[i + 1]);
            let low = hex_of(b[i + 2]);
            if let (Some(h), Some(l)) = (high, low) {
                proof {
                    assert(rest@[0] == b@[i as int]);
                    assert(rest@[1] == b@[i + 1]);
                    assert(rest@[2] == b@[i + 2]);
                    assert(rest@.skip(3) =~= b@.skip(i + 3));
                }
                let byte: u8 = h * 16 + l;
                let ghost before = out@;
                out.push(byte);
                proof {
                    assert(percent_decoded(rest@) == seq![byte] + percent_decoded(rest@.skip(3)));
                    assert(out@ + percent_decoded(b@.skip(i + 3)) =~= before + percent_decoded(rest@));
                }
                i = i + 3;
                continue;
            }
        }
        proof {
            assert(rest@[0] == b@[i as int]);
            if rest@.len() >= 3 {
                assert(rest@[1] == b@[i + 1]);
                assert(rest@[2] == b@[i + 2]);
            }
            assert(rest@.skip(1) =~= b@.skip(i + 1));
            assert(percent_decoded(rest@) == seq![rest@[0]] + percent_decoded(rest@.skip(1)));
        }
        let ghost before = out@;
        out.push(b[i]);
        proof {
            assert(out@ + percent_decoded(b@.skip(i + 1)) =~= before + percent_decoded(rest@));
        }
        i = i + 1;
    }
    proof {
        assert(b@.skip(n as int) =~= Seq::<u8>::empty());
        assert(out@ =~= percent_decoded(b@.skip(7)));
    }
    crate::crypt::utf8_text(out)
}

/// `path` without the slashes it ends in; a lone `/` stays.
pub fn strip_trailing_slash(path: String) -> (out: String)
    ensures
        out@ == without_trailing_slash(path@),
{
    let mut chars = crate::chars::chars_of(path.as_str());
    while chars.len() > 1 && chars[chars.len() - 1] == '/'
        invariant
            without_trailing_slash(chars@) == without_trailing_slash(path@),
        decreases chars.len(),
    {
        chars.pop();
    }
    crate::chars::string_of(chars.as_slice())
}

} // verus!
