//! One spelling for every path in the crate.
//!
//! Backends disagree about how to write the same location: FSEvents gives
//! `/private/var/x`, inotify gives raw bytes, and ReadDirectoryChangesW hands
//! back `\\?\C:\x` with a verbatim prefix nothing else echoes. Paths are
//! normalized once at the boundary, and every comparison downstream is a plain
//! comparison of characters that means the same thing on all three platforms.

use vstd::prelude::*;

use crate::chars::{
    chars_of, push_str, ends_with, has_prefix, has_suffix, push_all, replace_char, replaced, slice_of,
    starts_with, string_of, trim_end, trimmed_end,
};

verus! {

/// The POSIX spelling of `path`: no trailing separator, except on the root.
pub open spec fn normalized(path: Seq<char>) -> Seq<char> {
    let trimmed = trim_end(path, '/');
    if trimmed.len() == 0 && starts_with(path, seq!['/']) {
        seq!['/']
    } else {
        trimmed
    }
}

/// The canonical spelling of `path`: no trailing separator (except on a
/// filesystem root). Backslashes are filename characters on POSIX and stay.
pub fn normalize(path: &str) -> (out: String)
    ensures
        out@ == normalized(path@),
{
    let text = chars_of(path);
    let trimmed = trimmed_end(text.as_slice(), '/');
    if trimmed.len() == 0 && text.len() > 0 && text[0] == '/' {
        proof {
            assert(starts_with(path@, seq!['/'])) by {
                assert(path@.take(1) =~= seq!['/']);
            }
        }
        let mut root: Vec<char> = Vec::new();
        root.push('/');
        proof {
            assert(root@ =~= seq!['/']);
        }
        string_of(root.as_slice())
    } else {
        proof {
            if trimmed@.len() == 0 && starts_with(path@, seq!['/']) {
                assert(path@.take(1)[0] == '/');
            }
        }
        string_of(trimmed.as_slice())
    }
}

/// `\\?\UNC\`, the verbatim prefix of a network share.
pub open spec fn verbatim_unc() -> Seq<char> {
    seq!['\\', '\\', '?', '\\', 'U', 'N', 'C', '\\']
}

/// `\\?\`, the verbatim prefix of a local path.
pub open spec fn verbatim() -> Seq<char> {
    seq!['\\', '\\', '?', '\\']
}

/// A Windows spelling with its verbatim prefix taken off.
pub open spec fn windows_unprefixed(path: Seq<char>) -> Seq<char> {
    if starts_with(path, verbatim_unc()) {
        seq!['\\', '\\'] + path.skip(8)
    } else if starts_with(path, verbatim()) {
        path.skip(4)
    } else {
        path
    }
}

/// Trailing separators removed, keeping the one that is a root (`/`, `C:/`).
pub open spec fn windows_trimmed(text: Seq<char>) -> Seq<char>
    decreases text.len(),
{
    if text.len() > 1 && text.last() == '/' && !ends_with(text.drop_last(), seq![':']) {
        windows_trimmed(text.drop_last())
    } else {
        text
    }
}

/// The portable spelling of a Windows path.
pub open spec fn windows_normalized(path: Seq<char>) -> Seq<char> {
    windows_trimmed(replace_char(windows_unprefixed(path), '\\', '/'))
}

/// A Windows spelling conversion, never applied to a POSIX filename:
/// `\\?\UNC\server\share` is `//server/share`, `\\?\C:\x` is `C:/x`, and the
/// slash that is the location itself (`/`, `C:/`) is kept.
pub fn normalize_windows(path: &str) -> (out: String)
    ensures
        out@ == windows_normalized(path@),
{
    let text = chars_of(path);
    let unc: Vec<char> = vec!['\\', '\\', '?', '\\', 'U', 'N', 'C', '\\'];
    let plain: Vec<char> = vec!['\\', '\\', '?', '\\'];
    assert(unc@ =~= verbatim_unc());
    assert(plain@ =~= verbatim());
    let stripped: Vec<char> = if has_prefix(text.as_slice(), unc.as_slice()) {
        let mut out: Vec<char> = vec!['\\', '\\'];
        let rest = slice_of(text.as_slice(), 8, text.len());
        push_all(&mut out, rest.as_slice());
        proof {
            assert(out@ =~= seq!['\\', '\\'] + path@.skip(8));
        }
        out
    } else if has_prefix(text.as_slice(), plain.as_slice()) {
        let rest = slice_of(text.as_slice(), 4, text.len());
        proof {
            assert(rest@ =~= path@.skip(4));
        }
        rest
    } else {
        text
    };
    let mut t = replaced(stripped.as_slice(), '\\', '/');
    let ghost whole = t@;
    while t.len() > 1 && t[t.len() - 1] == '/' && !(t[t.len() - 2] == ':')
        invariant
            windows_trimmed(t@) == windows_trimmed(whole),
        decreases t@.len(),
    {
        proof {
            let d = t@.drop_last();
            assert(ends_with(d, seq![':']) <==> d.last() == ':') by {
                assert(d.skip(d.len() - 1) =~= seq![d.last()]);
                assert(seq![d.last()][0] == d.last());
                assert(seq![':'][0] == ':');
            }
        }
        t.pop();
    }
    proof {
        if t@.len() > 1 && t@.last() == '/' {
            let d = t@.drop_last();
            assert(d.skip(d.len() - 1) =~= seq![d.last()]);
        }
    }
    string_of(t.as_slice())
}

/// `base` with `name` appended as one more component, the way a path is
/// extended: nothing between them when `base` is empty or already ends in a
/// separator, one `/` otherwise.
pub open spec fn joined(base: Seq<char>, name: Seq<char>) -> Seq<char> {
    if base.len() == 0 {
        name
    } else if base.last() == '/' {
        base + name
    } else {
        base + seq!['/'] + name
    }
}

/// Exec form of [`joined`].
pub fn join(base: &str, name: &str) -> (out: String)
    ensures
        out@ == joined(base@, name@),
{
    let mut text = chars_of(base);
    if text.len() > 0 && text[text.len() - 1] != '/' {
        text.push('/');
    }
    push_str(&mut text, name);
    proof {
        if base@.len() > 0 && base@.last() != '/' {
            assert(text@ =~= base@ + seq!['/'] + name@);
        } else {
            assert(text@ =~= base@ + name@);
        }
    }
    string_of(text.as_slice())
}

/// True when `path` sits strictly below `root`.
pub open spec fn inside(root: Seq<char>, path: Seq<char>) -> bool {
    let base = if ends_with(root, seq!['/']) { root.drop_last() } else { root };
    starts_with(path, base) && path.len() > base.len() + 1 && path[base.len() as int] == '/'
}

/// True when `path` sits strictly below `root`. Both are expected in
/// [`normalize`] form; a path equal to the root is not "inside" it.
pub fn is_inside(root: &str, path: &str) -> (r: bool)
    ensures
        r == inside(root@, path@),
{
    let root_chars = chars_of(root);
    let slash: Vec<char> = vec!['/'];
    assert(slash@ =~= seq!['/']);
    let base: Vec<char> = if has_suffix(root_chars.as_slice(), slash.as_slice()) {
        let b = slice_of(root_chars.as_slice(), 0, root_chars.len() - 1);
        assert(b@ =~= root@.drop_last());
        b
    } else {
        root_chars
    };
    let path_chars = chars_of(path);
    has_prefix(path_chars.as_slice(), base.as_slice()) && path_chars.len() > base.len()
        && path_chars.len() - base.len() > 1 && path_chars[base.len()] == '/'
}

/// Normalizing twice is normalizing once: every spelling has one canonical
/// form and the canonical form is its own.
pub proof fn normalize_is_idempotent(path: Seq<char>)
    ensures
        normalized(normalized(path)) == normalized(path),
{
    let t = trim_end(path, '/');
    trim_end_ends_clean(path, '/');
    if t.len() == 0 && starts_with(path, seq!['/']) {
        assert(trim_end(seq!['/'], '/') =~= trim_end(seq!['/'].drop_last(), '/'));
        assert(seq!['/'].drop_last().len() == 0);
        assert(starts_with(seq!['/'], seq!['/'])) by {
            assert(seq!['/'].take(1) =~= seq!['/']);
        }
    } else {
        trim_end_of_clean(t, '/');
    }
}

/// What [`trim_end`] leaves does not end with the trimmed character.
pub proof fn trim_end_ends_clean(s: Seq<char>, c: char)
    ensures
        trim_end(s, c).len() == 0 || trim_end(s, c).last() != c,
        trim_end(s, c).len() <= s.len(),
    decreases s.len(),
{
    if s.len() > 0 && s.last() == c {
        trim_end_ends_clean(s.drop_last(), c);
    }
}

/// Trimming what is already trimmed changes nothing.
pub proof fn trim_end_of_clean(s: Seq<char>, c: char)
    requires
        s.len() == 0 || s.last() != c,
    ensures
        trim_end(s, c) == s,
{
}

/// A root is never inside itself, with or without a trailing separator.
pub proof fn nothing_is_inside_itself(path: Seq<char>)
    ensures
        !inside(path, path),
{
}

/// Where `c` last occurs in `s`, or -1 when it does not.
pub open spec fn last_index(s: Seq<char>, c: char) -> int
    decreases s.len(),
{
    if s.len() == 0 {
        -1
    } else if s.last() == c {
        s.len() - 1
    } else {
        last_index(s.drop_last(), c)
    }
}

/// The part of a file name before its extension: all of it when it has no
/// dot after its first character.
pub open spec fn stem_of(name: Seq<char>) -> Seq<char> {
    let d = last_index(name, '.');
    if d <= 0 { name } else { name.take(d) }
}

/// `path` with the extension of its last component replaced by `ext`, as a
/// path's extension is set: the stem kept, then a dot and `ext` unless `ext`
/// is empty. A path whose last component is empty, `.` or `..` has no file
/// name and is left as it is.
pub open spec fn with_extension(path: Seq<char>, ext: Seq<char>) -> Seq<char> {
    let cut = last_index(path, '/') + 1;
    let name = path.skip(cut);
    if name.len() == 0 || name == seq!['.'] || name == seq!['.', '.'] {
        path
    } else {
        path.take(cut) + stem_of(name) + if ext.len() > 0 { seq!['.'] + ext } else { seq![] }
    }
}

/// Where `c` last occurs in `s`.
pub fn find_last(s: &[char], c: char) -> (r: Option<usize>)
    ensures
        match r {
            Some(i) => i < s@.len() && last_index(s@, c) == i,
            None => last_index(s@, c) == -1,
        },
{
    let mut i = s.len();
    proof {
        assert(s@.take(i as int) =~= s@);
    }
    while i > 0
        invariant
            i <= s@.len(),
            last_index(s@, c) == last_index(s@.take(i as int), c),
        decreases i,
    {
        proof {
            assert(s@.take(i as int).drop_last() =~= s@.take(i - 1));
        }
        if s[i - 1] == c {
            return Some(i - 1);
        }
        i = i - 1;
    }
    None
}

/// Exec form of [`with_extension`].
pub fn replace_extension(path: &str, ext: &str) -> (out: String)
    ensures
        out@ == with_extension(path@, ext@),
{
    let chars = chars_of(path);
    let cut: usize = match find_last(chars.as_slice(), '/') {
        Some(i) => {
            assert(i < chars.len());
            i + 1
        },
        None => 0,
    };
    let name = slice_of(chars.as_slice(), cut, chars.len());
    proof {
        assert(name@ =~= path@.skip(cut as int));
    }
    if name.len() == 0 || (name.len() == 1 && name[0] == '.') || (name.len() == 2 && name[0] == '.' && name[1] == '.') {
        proof {
            if name@.len() == 1 && name@[0] == '.' {
                assert(name@ =~= seq!['.']);
            }
            if name@.len() == 2 && name@[0] == '.' && name@[1] == '.' {
                assert(name@ =~= seq!['.', '.']);
            }
        }
        return path.to_string();
    }
    proof {
        assert(name@ != seq!['.']) by {
            if name@ == seq!['.'] {
                assert(name@.len() == 1 && name@[0] == '.');
            }
        }
        assert(name@ != seq!['.', '.']) by {
            if name@ == seq!['.', '.'] {
                assert(name@.len() == 2 && name@[0] == '.' && name@[1] == '.');
            }
        }
    }
    let stem: Vec<char> = match find_last(name.as_slice(), '.') {
        Some(d) if d > 0 => slice_of(name.as_slice(), 0, d),
        _ => name.clone(),
    };
    proof {
        if !(last_index(name@, '.') > 0) {
            assert(stem@ =~= name@);
        } else {
            assert(stem@ =~= name@.take(last_index(name@, '.')));
        }
    }
    let mut out = slice_of(chars.as_slice(), 0, cut);
    push_all(&mut out, stem.as_slice());
    let extension = chars_of(ext);
    if extension.len() > 0 {
        out.push('.');
        push_all(&mut out, extension.as_slice());
    }
    proof {
        let tail: Seq<char> = if ext@.len() > 0 { seq!['.'] + ext@ } else { seq![] };
        assert(out@ =~= path@.take(cut as int) + stem_of(name@) + tail);
    }
    string_of(out.as_slice())
}

} // verus!
