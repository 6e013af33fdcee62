//! gitignore-style exclusion of noisy paths before attribution.
//!
//! What a pattern is stored as, and which paths a filter asks about, are this
//! module's rules; the matching itself is ripgrep's `ignore` crate, which
//! implements gitignore semantics faithfully.

use vstd::prelude::*;

use crate::chars::{chars_of, has_char, has_prefix, push_all, slice_of, starts_with, string_of};
use crate::paths::{inside, is_inside, normalize, normalized};
use crate::store::texts_of;
use crate::CoreError;

use ignore::gitignore::{Gitignore, GitignoreBuilder};

verus! {

#[verifier::external_type_specification]
#[verifier::external_body]
pub struct ExGitignore(Gitignore);

#[verifier::external_type_specification]
#[verifier::external_body]
pub struct ExGitignoreBuilder(GitignoreBuilder);

/// Whether `c` is white space as `char::is_whitespace` says: the Unicode
/// `White_Space` characters.
pub open spec fn white(c: char) -> bool {
    ('\u{9}' <= c && c <= '\u{d}') || c == ' ' || c == '\u{85}' || c == '\u{a0}' || c == '\u{1680}'
        || ('\u{2000}' <= c && c <= '\u{200a}') || c == '\u{2028}' || c == '\u{2029}' || c == '\u{202f}'
        || c == '\u{205f}' || c == '\u{3000}'
}

fn is_white(c: char) -> (r: bool)
    ensures
        r == white(c),
{
    ('\u{9}' <= c && c <= '\u{d}') || c == ' ' || c == '\u{85}' || c == '\u{a0}' || c == '\u{1680}'
        || ('\u{2000}' <= c && c <= '\u{200a}') || c == '\u{2028}' || c == '\u{2029}' || c == '\u{202f}'
        || c == '\u{205f}' || c == '\u{3000}'
}

/// `s` without white space at either end.
pub open spec fn trimmed(s: Seq<char>) -> Seq<char>
    decreases s.len(),
{
    if s.len() > 0 && white(s[0]) {
        trimmed(s.drop_first())
    } else if s.len() > 0 && white(s.last()) {
        trimmed(s.drop_last())
    } else {
        s
    }
}

/// `s` without any number of leading `./`.
pub open spec fn without_dot_slash(s: Seq<char>) -> Seq<char>
    decreases s.len(),
{
    if s.len() >= 2 && s[0] == '.' && s[1] == '/' { without_dot_slash(s.skip(2)) } else { s }
}

/// `s` with each run of separators made one.
pub open spec fn single_separators(s: Seq<char>) -> Seq<char>
    decreases s.len(),
{
    if s.len() == 0 {
        s
    } else if s.len() >= 2 && s[0] == '/' && s[1] == '/' {
        single_separators(s.drop_first())
    } else {
        seq![s[0]] + single_separators(s.drop_first())
    }
}

/// One spelling for a pattern however it was typed, or `None` for one that
/// is nothing but separators and space: trimmed, backslashes taken as
/// separators, leading `./` and separators dropped, runs of separators made
/// one, and a directory-only pattern ending in exactly one separator.
pub open spec fn pattern_of(pattern: Seq<char>) -> Option<Seq<char>> {
    let text = crate::chars::trim_start(
        without_dot_slash(crate::chars::replace_char(trimmed(pattern), '\\', '/')), '/');
    let collapsed = single_separators(text);
    let directory_only = collapsed.len() > 0 && collapsed.last() == '/';
    let bare = crate::chars::trim_end(collapsed, '/');
    if bare.len() == 0 {
        None
    } else if directory_only {
        Some(bare.push('/'))
    } else {
        Some(bare)
    }
}

/// The distinct spellings of `patterns`, in the order they were first
/// written, blanks dropped.
pub open spec fn patterns_of(patterns: Seq<Seq<char>>) -> Seq<Seq<char>>
    decreases patterns.len(),
{
    if patterns.len() == 0 {
        seq![]
    } else {
        let before = patterns_of(patterns.drop_last());
        match pattern_of(patterns.last()) {
            Some(p) => if before.contains(p) { before } else { before.push(p) },
            None => before,
        }
    }
}

fn trimmed_exec(s: &[char]) -> (out: Vec<char>)
    ensures
        out@ == trimmed(s@),
{
    let mut lo: usize = 0;
    let mut hi: usize = s.len();
    proof {
        assert(s@.subrange(0, s@.len() as int) =~= s@);
    }
    while lo < hi && is_white(s[lo])
        invariant
            lo <= hi == s@.len(),
            trimmed(s@.subrange(lo as int, hi as int)) == trimmed(s@),
        decreases hi - lo,
    {
        proof {
            assert(s@.subrange(lo as int, hi as int).drop_first() =~= s@.subrange(lo + 1, hi as int));
        }
        lo = lo + 1;
    }
    while lo < hi && is_white(s[hi - 1])
        invariant
            lo <= hi <= s@.len(),
            trimmed(s@.subrange(lo as int, hi as int)) == trimmed(s@),
            lo < hi ==> !white(s@[lo as int]),
        decreases hi - lo,
    {
        proof {
            let sub = s@.subrange(lo as int, hi as int);
            assert(sub[0] == s@[lo as int]);
            assert(sub.drop_last() =~= s@.subrange(lo as int, hi - 1));
        }
        hi = hi - 1;
    }
    proof {
        let sub = s@.subrange(lo as int, hi as int);
        if sub.len() > 0 {
            assert(sub[0] == s@[lo as int]);
            assert(sub.last() == s@[hi - 1]);
        }
    }
    crate::chars::slice_of(s, lo, hi)
}

fn without_dot_slash_exec(s: &[char]) -> (out: Vec<char>)
    ensures
        out@ == without_dot_slash(s@),
{
    let mut at: usize = 0;
    proof {
        assert(s@.skip(0) =~= s@);
    }
    while at < s.len() && s.len() - at >= 2 && s[at] == '.' && s[at + 1] == '/'
        invariant
            at <= s@.len(),
            without_dot_slash(s@.skip(at as int)) == without_dot_slash(s@),
        decreases s@.len() - at,
    {
        proof {
            let t = s@.skip(at as int);
            assert(t[0] == s@[at as int]);
            assert(t[1] == s@[at + 1]);
            assert(t.skip(2) =~= s@.skip(at + 2));
        }
        at = at + 2;
    }
    proof {
        let t = s@.skip(at as int);
        if t.len() >= 2 {
            assert(t[0] == s@[at as int]);
            assert(t[1] == s@[at + 1]);
        }
    }
    crate::chars::slice_of(s, at, s.len())
}

fn single_separators_exec(s: &[char]) -> (out: Vec<char>)
    ensures
        out@ == single_separators(s@),
{
    let mut out: Vec<char> = Vec::new();
    let mut i: usize = 0;
    proof {
        assert(s@.skip(0) =~= s@);
    }
    while i < s.len()
        invariant
            i <= s@.len(),
            out@ + single_separators(s@.skip(i as int)) == single_separators(s@),
        decreases s@.len() - i,
    {
        let ghost t = s@.skip(i as int);
        proof {
            assert(t[0] == s@[i as int]);
            assert(t.drop_first() =~= s@.skip(i + 1));
            if t.len() >= 2 {
                assert(t[1] == s@[i + 1]);
            }
        }
        if !(i + 1 < s.len() && s[i] == '/' && s[i + 1] == '/') {
            let ghost before = out@;
            out.push(s[i]);
            proof {
                assert(before + (seq![t[0]] + single_separators(t.drop_first())) =~= out@ + single_separators(t.drop_first()));
            }
        }
        i = i + 1;
    }
    proof {
        assert(s@.skip(s@.len() as int) =~= Seq::<char>::empty());
        assert(out@ + Seq::<char>::empty() =~= out@);
    }
    out
}

/// One spelling for a pattern however it was typed, or `None` for one that
/// is nothing but separators and space.
pub fn normalized_pattern(pattern: &str) -> (out: Option<String>)
    ensures
        match out {
            Some(p) => pattern_of(pattern@) == Some(p@),
            None => pattern_of(pattern@) is None,
        },
{
    let raw = chars_of(pattern);
    let trimmed = trimmed_exec(raw.as_slice());
    let slashed = crate::chars::replaced(trimmed.as_slice(), '\\', '/');
    let undotted = without_dot_slash_exec(slashed.as_slice());
    let text = crate::chars::trimmed_start(undotted.as_slice(), '/');
    let collapsed = single_separators_exec(text.as_slice());
    let directory_only = collapsed.len() > 0 && collapsed[collapsed.len() - 1] == '/';
    let mut bare = crate::chars::trimmed_end(collapsed.as_slice(), '/');
    if bare.len() == 0 {
        None
    } else {
        if directory_only {
            bare.push('/');
        }
        Some(string_of(bare.as_slice()))
    }
}

/// One spelling for each pattern however it was typed, blanks dropped and
/// duplicates removed while keeping the order the user wrote them in.
pub fn normalized_patterns(patterns: &[String]) -> (out: Vec<String>)
    ensures
        out@.map_values(|p: String| p@) == patterns_of(patterns@.map_values(|p: String| p@)),
{
    let ghost typed = patterns@.map_values(|p: String| p@);
    let mut seen: Vec<String> = Vec::new();
    let mut i: usize = 0;
    while i < patterns.len()
        invariant
            i <= patterns@.len(),
            typed == patterns@.map_values(|p: String| p@),
            seen@.map_values(|p: String| p@) == patterns_of(typed.take(i as int)),
        decreases patterns@.len() - i,
    {
        proof {
            assert(typed.take(i + 1).drop_last() =~= typed.take(i as int));
            assert(typed.take(i + 1).last() == patterns@[i as int]@);
        }
        match normalized_pattern(patterns[i].as_str()) {
            Some(p) => {
                let ghost views = seen@.map_values(|q: String| q@);
                let mut j: usize = 0;
                let mut found = false;
                while j < seen.len()
                    invariant
                        j <= seen@.len(),
                        views == seen@.map_values(|q: String| q@),
                        found == exists|k: int| 0 <= k < j && views[k] == p@,
                    decreases seen@.len() - j,
                {
                    if seen[j] == p {
                        found = true;
                    }
                    proof {
                        assert(views[j as int] == seen@[j as int]@);
                    }
                    j = j + 1;
                }
                proof {
                    if found {
                        let k = choose|k: int| 0 <= k < j && views[k] == p@;
                        assert(views.contains(p@));
                    } else {
                        assert(!views.contains(p@));
                    }
                }
                if !found {
                    let ghost before = seen@;
                    seen.push(p);
                    proof {
                        assert(seen@.map_values(|q: String| q@) =~= before.map_values(|q: String| q@).push(p@));
                    }
                }
            },
            None => {},
        }
        i = i + 1;
    }
    proof {
        assert(typed.take(typed.len() as int) =~= typed);
    }
    seen
}

/// What the `ignore` crate makes of a root and a list of gitignore lines
/// when asked whether `path` — a directory when `is_dir` — or any directory
/// above it up to the root is ignored: the last matching line decides, a
/// `!` line un-ignores. Only claimed of a root and a path without a
/// backslash, which every platform splits into the same components.
pub uninterp spec fn gitignore_ignores(root: Seq<char>, lines: Seq<Seq<char>>, path: Seq<char>, is_dir: bool) -> bool;

/// Whether the `ignore` crate accepts `line` as a gitignore line.
pub uninterp spec fn gitignore_line_parses(line: Seq<char>) -> bool;

/// The root a builder or matcher was made for.
pub uninterp spec fn builder_root(b: GitignoreBuilder) -> Seq<char>;

/// The lines handed to a builder, in order.
pub uninterp spec fn builder_lines(b: GitignoreBuilder) -> Seq<Seq<char>>;

/// The root a matcher matches relative to.
pub uninterp spec fn matcher_root(g: Gitignore) -> Seq<char>;

/// The lines handed to the builder a matcher was built from, in order.
pub uninterp spec fn matcher_lines(g: Gitignore) -> Seq<Seq<char>>;

/// The root as the `ignore` crate keeps it: a leading `./` is superfluous.
pub open spec fn kept_root(root: Seq<char>) -> Seq<char> {
    if starts_with(root, seq!['.', '/']) { root.skip(2) } else { root }
}

/// What of `path` the `ignore` crate matches against the root's lines: a
/// leading `./` dropped, then, when the path has a separator, the root and
/// one separator after it.
pub open spec fn relative_to(root: Seq<char>, path: Seq<char>) -> Seq<char> {
    let p = if starts_with(path, seq!['.', '/']) { path.skip(2) } else { path };
    if root != seq!['.'] && p.contains('/') && starts_with(p, root) {
        let rest = p.skip(root.len() as int);
        if starts_with(rest, seq!['/']) { rest.drop_first() } else { rest }
    } else {
        p
    }
}

/// Whether the `ignore` crate takes `root` off `path` the same way on every
/// platform: on Unix it drops the root's bytes, elsewhere it drops the
/// root's components, and the two agree when neither holds a backslash (a
/// separator only elsewhere) and the path continues the root at a `/`; a
/// root of `.` is not taken off at all, and then the path must name no
/// drive. What is left must not be rooted, or the crate panics.
pub open spec fn strips_cleanly(root: Seq<char>, path: Seq<char>) -> bool {
    let p = if starts_with(path, seq!['.', '/']) { path.skip(2) } else { path };
    &&& !root.contains('\\')
    &&& !path.contains('\\')
    &&& (root == seq!['.'] ==> !p.contains(':'))
    &&& (root != seq!['.'] ==> starts_with(p, root)
        && (p.len() == root.len() || p[root.len() as int] == '/' || (root.len() > 0 && root.last() == '/')))
    &&& !starts_with(relative_to(root, path), seq!['/'])
}

/// `GitignoreBuilder::new`: an empty builder for `root`.
#[verifier::external_body]
fn gitignore_builder(root: &str) -> (b: GitignoreBuilder)
    ensures
        builder_root(b) == kept_root(root@),
        builder_lines(b) == Seq::<Seq<char>>::empty(),
{
    GitignoreBuilder::new(root)
}

/// `GitignoreBuilder::add_line`: the line is taken when it parses, and the
/// builder is left as it was when it does not.
#[verifier::external_body]
fn add_gitignore_line(b: &mut GitignoreBuilder, line: &str) -> (r: Result<(), String>)
    ensures
        r is Ok <==> gitignore_line_parses(line@),
        builder_root(*final(b)) == builder_root(*old(b)),
        r is Ok ==> builder_lines(*final(b)) == builder_lines(*old(b)).push(line@),
        r is Err ==> builder_lines(*final(b)) == builder_lines(*old(b)),
{
    match b.add_line(None, line) {
        Ok(_) => Ok(()),
        Err(error) => Err(error.to_string()),
    }
}

/// How `str`'s `Debug` spells `text`: in double quotes, with quotes,
/// backslashes and unprintable characters escaped.
pub uninterp spec fn debug_spelling(text: Seq<char>) -> Seq<char>;

/// `<str as Debug>::fmt`, through `format!`.
#[verifier::external_body]
fn debug_quoted(text: &str) -> (out: String)
    ensures
        out@ == debug_spelling(text@),
{
    format!("{:?}", text)
}

/// Whether the `ignore` crate compiles the globs of these accepted lines
/// into one set: it depends on the lines alone.
pub uninterp spec fn gitignore_set_builds(lines: Seq<Seq<char>>) -> bool;

/// `GitignoreBuilder::build`: a matcher for the builder's root and lines,
/// built exactly when the lines' globs compile into one set.
#[verifier::external_body]
fn build_gitignore(b: &GitignoreBuilder) -> (r: Result<Gitignore, String>)
    ensures
        r is Ok <==> gitignore_set_builds(builder_lines(*b)),
        r matches Ok(g) ==> matcher_root(g) == builder_root(*b) && matcher_lines(g) == builder_lines(*b),
{
    match b.build() {
        Ok(g) => Ok(g),
        Err(error) => Err(error.to_string()),
    }
}

/// `Gitignore::matched_path_or_any_parents(..).is_ignore()`: whether the
/// matcher's lines ignore the path or a directory above it. The crate
/// panics on a path that is still rooted once the root is taken off.
#[verifier::external_body]
fn gitignore_matches(g: &Gitignore, path: &str, is_dir: bool) -> (r: bool)
    requires
        strips_cleanly(matcher_root(*g), path@),
    ensures
        r == gitignore_ignores(matcher_root(*g), matcher_lines(*g), path@, is_dir),
{
    g.matched_path_or_any_parents(path, is_dir).is_ignore()
}

/// Whether the `ignore` crate can be asked about `path` under `root`
/// without tripping its assertion that a path it is asked about lies below
/// the root once the root is taken off. Only paths inside the root are ever
/// asked about.
pub open spec fn askable(root: Seq<char>, path: Seq<char>) -> bool {
    let p = normalized(path);
    inside(root, p) ==> strips_cleanly(kept_root(root), p)
}

/// `s` without one leading `./`.
fn less_dot_slash(s: &[char]) -> (out: Vec<char>)
    ensures
        out@ == (if starts_with(s@, seq!['.', '/']) { s@.skip(2) } else { s@ }),
{
    let dot_slash: Vec<char> = vec!['.', '/'];
    proof {
        assert(dot_slash@ =~= seq!['.', '/']);
    }
    if has_prefix(s, dot_slash.as_slice()) {
        slice_of(s, 2, s.len())
    } else {
        slice_of(s, 0, s.len())
    }
}

/// Whether the `ignore` crate takes `root` off `path` cleanly; see
/// [`strips_cleanly`].
fn strips_cleanly_exec(root: &[char], path: &[char]) -> (r: bool)
    ensures
        r == strips_cleanly(root@, path@),
{
    if has_char(root, '\\') || has_char(path, '\\') {
        return false;
    }
    let p = less_dot_slash(path);
    proof {
        assert(p@ =~= (if starts_with(path@, seq!['.', '/']) { path@.skip(2) } else { path@ }));
    }
    if root.len() == 1 && root[0] == '.' {
        assert(root@ =~= seq!['.']);
        proof {
            assert(relative_to(root@, path@) == p@);
            if p@.len() > 0 && p@[0] == '/' {
                assert(p@.take(1) =~= seq!['/']);
            }
            if starts_with(p@, seq!['/']) {
                assert(p@.take(1)[0] == '/');
            }
        }
        return !has_char(p.as_slice(), ':') && !(p.len() > 0 && p[0] == '/');
    }
    assert(root@ != seq!['.']);
    if !has_prefix(p.as_slice(), root) {
        return false;
    }
    let n = root.len();
    let boundary = p.len() == n || p[n] == '/' || (n > 0 && root[n - 1] == '/');
    if !boundary {
        return false;
    }
    let rest = if has_char(p.as_slice(), '/') {
        let tail = slice_of(p.as_slice(), n, p.len());
        if tail.len() > 0 && tail[0] == '/' {
            slice_of(tail.as_slice(), 1, tail.len())
        } else {
            tail
        }
    } else {
        slice_of(p.as_slice(), 0, p.len())
    };
    proof {
        assert(p@.skip(n as int) =~= p@.subrange(n as int, p@.len() as int));
        let want = relative_to(root@, path@);
        if p@.contains('/') {
            let tail = p@.skip(n as int);
            if tail.len() > 0 && tail[0] == '/' {
                assert(tail.take(1) =~= seq!['/']);
                assert(starts_with(tail, seq!['/']));
                assert(tail.drop_first() =~= tail.subrange(1, tail.len() as int));
            } else {
                if starts_with(tail, seq!['/']) {
                    assert(tail.take(1)[0] == '/');
                }
            }
        }
        assert(rest@ =~= want);
        if want.len() > 0 && want[0] == '/' {
            assert(want.take(1) =~= seq!['/']);
        }
        if starts_with(want, seq!['/']) {
            assert(want.take(1)[0] == '/');
        }
    }
    !(rest.len() > 0 && rest[0] == '/')
}

impl ExclusionFilter {
    /// Whether `path` may be asked about: the `ignore` crate would not panic
    /// on it. A host asks before calling [`ExclusionFilter::excludes`].
    pub fn askable_path(&self, path: &str) -> (r: bool)
        ensures
            r == askable(self.root(), path@),
    {
        let p = normalize(path);
        if !is_inside(self.root.as_str(), p.as_str()) {
            return true;
        }
        let root = chars_of(self.root.as_str());
        let kept = less_dot_slash(root.as_slice());
        proof {
            assert(kept@ =~= kept_root(self.root@));
        }
        let text = chars_of(p.as_str());
        strips_cleanly_exec(kept.as_slice(), text.as_slice())
    }
}

/// What an exclusion filter says of `path`: it lies inside the root and the
/// lines ignore it, taken as a file or as a directory, or a directory above it.
pub open spec fn excluded(root: Seq<char>, lines: Seq<Seq<char>>, path: Seq<char>) -> bool {
    let p = normalized(path);
    inside(root, p) && (gitignore_ignores(kept_root(root), lines, p, false)
        || gitignore_ignores(kept_root(root), lines, p, true))
}

/// A root and the patterns that leave paths under it out.
pub struct ExclusionFilter {
    root: String,
    patterns: Vec<String>,
    matcher: Gitignore,
}

impl ExclusionFilter {
    /// The root, spelled as [`normalize`] spells it.
    pub closed spec fn root(&self) -> Seq<char> {
        self.root@
    }

    /// The patterns, one spelling each.
    pub closed spec fn lines(&self) -> Seq<Seq<char>> {
        self.patterns@.map_values(|p: String| p@)
    }

    /// The matcher was built for this root and these lines.
    pub closed spec fn wf(&self) -> bool {
        &&& matcher_root(self.matcher) == kept_root(self.root@)
        &&& matcher_lines(self.matcher) == self.lines()
    }

    /// A filter for `patterns` under `root`, or `None` when the patterns
    /// normalize to nothing, so callers can skip filtering entirely. A
    /// pattern the `ignore` crate does not accept is an encoding error.
    pub fn new(patterns: &[String], root: &str) -> (r: Result<Option<ExclusionFilter>, CoreError>)
        ensures
            r matches Ok(None) <==> patterns_of(texts_of(patterns@)).len() == 0,
            r matches Ok(Some(f)) ==> f.wf() && f.root() == normalized(root@)
                && f.lines() == patterns_of(texts_of(patterns@)),
            r matches Err(e) ==> e is Encoding,
            (exists|i: int| 0 <= i < patterns_of(texts_of(patterns@)).len()
                && !gitignore_line_parses(#[trigger] patterns_of(texts_of(patterns@))[i]))
                ==> r is Err,
            (forall|i: int| 0 <= i < patterns_of(texts_of(patterns@)).len()
                ==> gitignore_line_parses(#[trigger] patterns_of(texts_of(patterns@))[i]))
                && gitignore_set_builds(patterns_of(texts_of(patterns@)))
                ==> r is Ok,
            r is Ok && patterns_of(texts_of(patterns@)).len() > 0 ==> gitignore_set_builds(patterns_of(texts_of(patterns@))),
    {
        let lines = normalized_patterns(patterns);
        if lines.len() == 0 {
            return Ok(None);
        }
        let root = normalize(root);
        let mut builder = gitignore_builder(root.as_str());
        let ghost views = lines@.map_values(|p: String| p@);
        proof {
            assert(views == patterns_of(texts_of(patterns@)));
            assert(views.len() == lines@.len());
        }
        let mut i: usize = 0;
        while i < lines.len()
            invariant
                i <= lines@.len(),
                views == lines@.map_values(|p: String| p@),
                builder_root(builder) == kept_root(root@),
                builder_lines(builder) == views.take(i as int),
                forall|k: int| 0 <= k < i ==> gitignore_line_parses(#[trigger] views[k]),
                views == patterns_of(texts_of(patterns@)),
                views.len() == lines@.len() > 0,
            decreases lines@.len() - i,
        {
            match add_gitignore_line(&mut builder, lines[i].as_str()) {
                Ok(()) => {},
                Err(error) => {
                    proof {
                        assert(views[i as int] == lines@[i as int]@);
                        assert(!gitignore_line_parses(views[i as int]));
                    }
                    let mut text = crate::chars::chars_of("invalid exclusion pattern ");
                    let quoted = debug_quoted(lines[i].as_str());
                    crate::chars::push_str(&mut text, quoted.as_str());
                    crate::chars::push_str(&mut text, ": ");
                    crate::chars::push_str(&mut text, error.as_str());
                    return Err(CoreError::Encoding { message: string_of(text.as_slice()) });
                },
            }
            proof {
                assert(views.take(i + 1) =~= views.take(i as int).push(views[i as int]));
            }
            i = i + 1;
        }
        proof {
            assert(views.take(views.len() as int) =~= views);
        }
        match build_gitignore(&builder) {
            Ok(matcher) => Ok(Some(ExclusionFilter { root, patterns: lines, matcher })),
            Err(message) => Err(CoreError::Encoding { message }),
        }
    }

    /// Whether `path` is left out: it lies inside the root and a pattern
    /// matches it, taken as a file or as a directory (a deleted path cannot
    /// be asked which it was), or matches a directory above it.
    pub fn excludes(&self, path: &str) -> (r: bool)
        requires
            self.wf(),
            askable(self.root(), path@),
        ensures
            r == excluded(self.root(), self.lines(), path@),
    {
        let path = normalize(path);
        if !is_inside(self.root.as_str(), path.as_str()) {
            return false;
        }
        gitignore_matches(&self.matcher, path.as_str(), false)
            || gitignore_matches(&self.matcher, path.as_str(), true)
    }
}

} // verus!
