//! Explicit, host-independent Node.js `path.posix` semantics.
//!
//! Returned `&str` and borrowed [`Cow`] values point into the supplied input whenever Node
//! semantics permit it.

use std::borrow::Cow;

use vstd::prelude::*;

use crate::context::{NodeHost, PathContext};
use crate::error::GlobError;
use crate::glob::{glob_defined, glob_result};
use crate::path_object::{ParsedPath, PathField, PathObject};
use crate::shared::{components, dotdot, normalize_body, normalize_string, split_components, vviews};
use crate::text::{
    append_chars, chars_eq, chars_of, find_last_char, find_last_nonsep, find_last_sep,
    first_index_of, find_first_char, is_sep, join_with, last_index_of, last_nonsep_before,
    last_sep_before, lemma_first_index_bounds, lemma_last_index_bounds, lemma_last_nonsep_bounds,
    lemma_last_sep_bounds, slice_chars, string_of, sub_chars, views,
};

verus! {

pub const SEP: &'static str = "/";

pub const DELIMITER: &'static str = ":";

/// Node's `path.posix.normalize`.
pub open spec fn posix_normalize(p: Seq<char>) -> Seq<char> {
    if p.len() == 0 {
        seq!['.']
    } else {
        let absolute = p[0] == '/';
        let trailing = p.last() == '/';
        let body = normalize_body(p, false, !absolute);
        if body.len() == 0 {
            if absolute {
                seq!['/']
            } else if trailing {
                seq!['.', '/']
            } else {
                seq!['.']
            }
        } else {
            (if absolute {
                seq!['/']
            } else {
                Seq::empty()
            }) + body + (if trailing {
                seq!['/']
            } else {
                Seq::empty()
            })
        }
    }
}

/// The non-empty parts joined with `c` between consecutive parts; empty parts are skipped.
pub open spec fn join_nonempty(ps: Seq<Seq<char>>, c: char) -> Seq<char>
    decreases ps.len(),
{
    if ps.len() == 0 {
        Seq::empty()
    } else {
        let prev = join_nonempty(ps.drop_last(), c);
        let last = ps.last();
        if last.len() == 0 {
            prev
        } else if prev.len() == 0 {
            last
        } else {
            prev + seq![c] + last
        }
    }
}

/// Node's `path.posix.join`.
pub open spec fn posix_join(ps: Seq<Seq<char>>) -> Seq<char> {
    let j = join_nonempty(ps, '/');
    if j.len() == 0 {
        seq!['.']
    } else {
        posix_normalize(j)
    }
}

/// Node's `path.posix.dirname`.
pub open spec fn posix_dirname(p: Seq<char>) -> Seq<char> {
    if p.len() == 0 {
        seq!['.']
    } else {
        let t = last_nonsep_before(p, 1, p.len() as int, false);
        let end = if t < 0 {
            -1
        } else {
            last_sep_before(p, 1, t, false)
        };
        if end < 0 {
            if p[0] == '/' {
                seq!['/']
            } else {
                seq!['.']
            }
        } else if end == 1 && p[0] == '/' {
            seq!['/', '/']
        } else {
            p.take(end)
        }
    }
}

/// `base` without the trailing `suffix`, or `base` when it does not end with `suffix`.
pub open spec fn strip_suffix_or(base: Seq<char>, suffix: Seq<char>) -> Seq<char> {
    if base.len() >= suffix.len() && base.skip(base.len() - suffix.len()) == suffix {
        base.take(base.len() - suffix.len())
    } else {
        base
    }
}

/// Suffix removal of `basename`: a non-empty suffix equal to the whole path gives the empty
/// string, one equal to the final component keeps it, and otherwise it is stripped if present.
pub open spec fn apply_suffix(p: Seq<char>, base: Seq<char>, suffix: Option<Seq<char>>) -> Seq<char> {
    match suffix {
        Some(s) => if s.len() == 0 {
            base
        } else if p == s {
            Seq::empty()
        } else if base == s {
            base
        } else {
            strip_suffix_or(base, s)
        },
        None => base,
    }
}

/// End (exclusive) of the final component once trailing separators at or after `lo` are dropped.
pub open spec fn component_end(p: Seq<char>, lo: int, win: bool) -> int {
    let t = last_nonsep_before(p, lo, p.len() as int, win);
    if t < 0 {
        lo
    } else {
        t + 1
    }
}

/// Start of the final component that ends at `end`, searching no earlier than `lo`.
pub open spec fn component_start(p: Seq<char>, lo: int, end: int, win: bool) -> int {
    let k = last_sep_before(p, lo, end, win);
    if k < 0 {
        lo
    } else {
        k + 1
    }
}

/// Node's `path.posix.basename`.
pub open spec fn posix_basename(p: Seq<char>, suffix: Option<Seq<char>>) -> Seq<char> {
    let end = component_end(p, 0, false);
    if end == 0 {
        Seq::empty()
    } else {
        apply_suffix(p, p.subrange(component_start(p, 0, end, false), end), suffix)
    }
}

/// The extension of one component: from its last dot, unless that dot is the first character
/// or the component is `..`.
pub open spec fn component_ext(c: Seq<char>) -> Seq<char> {
    let dot = last_index_of(c, c.len() as int, '.');
    if dot <= 0 || c == dotdot() {
        Seq::empty()
    } else {
        c.skip(dot)
    }
}

/// Node's `path.posix.extname`.
pub open spec fn posix_extname(p: Seq<char>) -> Seq<char> {
    component_ext(posix_basename(p, None))
}

/// The empty path record.
pub open spec fn empty_object() -> PathObject<Seq<char>> {
    PathObject {
        root: Seq::empty(),
        dir: Seq::empty(),
        base: Seq::empty(),
        ext: Seq::empty(),
        name: Seq::empty(),
    }
}

/// The record of a path whose root is `root` and whose last component is `p[base_start..end]`.
pub open spec fn parsed_object(root: Seq<char>, dir: Seq<char>, base: Seq<char>) -> PathObject<
    Seq<char>,
> {
    let ext = component_ext(base);
    PathObject { root, dir, base, ext, name: base.take(base.len() - ext.len()) }
}

/// Node's `path.posix.parse`.
pub open spec fn posix_parse(p: Seq<char>) -> PathObject<Seq<char>> {
    if p.len() == 0 {
        empty_object()
    } else {
        let root_end: int = if p[0] == '/' {
            1
        } else {
            0
        };
        let root = p.take(root_end);
        let end = component_end(p, root_end, false);
        if end == root_end {
            PathObject {
                root,
                dir: root,
                base: Seq::empty(),
                ext: Seq::empty(),
                name: Seq::empty(),
            }
        } else {
            let slash = last_sep_before(p, root_end, end, false);
            let dir = if slash == 0 {
                seq!['/']
            } else if slash > 0 {
                p.take(slash)
            } else {
                root
            };
            parsed_object(root, dir, p.subrange(component_start(p, root_end, end, false), end))
        }
    }
}

/// Node's `format`, given the record fields and the namespace separator: a non-empty `dir` wins
/// over `root`, and a non-empty `base` wins over `name` plus `ext` (which gains a leading dot).
pub open spec fn format_fields(
    root: Seq<char>,
    dir0: Seq<char>,
    base0: Seq<char>,
    ext: Seq<char>,
    name: Seq<char>,
    c: char,
) -> Seq<char> {
    let dir = if dir0.len() == 0 {
        root
    } else {
        dir0
    };
    let base = if base0.len() == 0 {
        name + (if ext.len() == 0 {
            Seq::empty()
        } else if ext[0] == '.' {
            ext
        } else {
            seq!['.'] + ext
        })
    } else {
        base0
    };
    if dir.len() == 0 {
        base
    } else if dir == root {
        dir + base
    } else {
        dir + seq![c] + base
    }
}

/// `s` with every `a` replaced by `b`.
pub open spec fn replace_char(s: Seq<char>, a: char, b: char) -> Seq<char> {
    Seq::new(s.len(), |i: int| if s[i] == a { b } else { s[i] })
}

/// The cwd seen by POSIX operations: on a Windows host, the cwd with backslashes turned into
/// slashes and everything before the first slash (the drive) removed.
pub open spec fn posix_cwd(host: NodeHost, cwd: Seq<char>) -> Seq<char> {
    if host != NodeHost::Win32 {
        cwd
    } else {
        let converted = replace_char(cwd, '\\', '/');
        let i = first_index_of(converted, 0, '/');
        if i < 0 {
            Seq::empty()
        } else {
            converted.skip(i)
        }
    }
}

/// Right-to-left accumulation of `resolve`: the paths from `i` on, joined by `/`, up to and
/// including the rightmost absolute one; the flag tells whether an absolute path was met.
pub open spec fn posix_resolve_acc(ps: Seq<Seq<char>>, i: int) -> (Seq<char>, bool)
    decreases ps.len() - i,
{
    if i < 0 || i >= ps.len() {
        (Seq::empty(), false)
    } else {
        let (acc, abs) = posix_resolve_acc(ps, i + 1);
        if abs || ps[i].len() == 0 {
            (acc, abs)
        } else {
            (ps[i] + seq!['/'] + acc, ps[i][0] == '/')
        }
    }
}

/// Whether `resolve` returns the cwd unchanged: no paths (or a lone `""` or `.`) and an absolute
/// cwd.
pub open spec fn resolve_returns_cwd(ps: Seq<Seq<char>>, c: Seq<char>, win: bool) -> bool {
    (ps.len() == 0 || (ps.len() == 1 && (ps[0].len() == 0 || ps[0] == seq!['.']))) && c.len() > 0
        && is_sep(c[0], win)
}

/// Node's `path.posix.resolve` for a given host and cwd.
pub open spec fn posix_resolve(host: NodeHost, cwd: Seq<char>, ps: Seq<Seq<char>>) -> Seq<char> {
    let c = posix_cwd(host, cwd);
    if resolve_returns_cwd(ps, c, false) {
        c
    } else {
        let (acc, abs) = posix_resolve_acc(ps, 0);
        let full = if abs {
            acc
        } else {
            c + seq!['/'] + acc
        };
        let absolute = abs || (c.len() > 0 && c[0] == '/');
        let tail = normalize_body(full, false, !absolute);
        if absolute {
            seq!['/'] + tail
        } else if tail.len() == 0 {
            seq!['.']
        } else {
            tail
        }
    }
}

/// The length of the longest common prefix of `a` and `b` that starts at `i`.
pub open spec fn common_from(a: Seq<Seq<char>>, b: Seq<Seq<char>>, i: int) -> int
    decreases a.len() - i,
{
    if 0 <= i < a.len() && i < b.len() && a[i] == b[i] {
        common_from(a, b, i + 1)
    } else {
        i
    }
}

/// `n` copies of `..`.
pub open spec fn parents(n: int) -> Seq<Seq<char>> {
    Seq::new(if n < 0 {
        0
    } else {
        n as nat
    }, |i: int| dotdot())
}

/// Node's relative-path construction from two resolved component lists: climb out of the
/// unshared part of `from`, then descend into the unshared part of `to`.
pub open spec fn relative_parts(fp: Seq<Seq<char>>, tp: Seq<Seq<char>>, common: int) -> Seq<
    Seq<char>,
> {
    parents(fp.len() - common) + tp.skip(common)
}

/// Whether a resolved path starts with an ASCII character, one UTF-8 byte long.
pub open spec fn starts_ascii(s: Seq<char>) -> bool {
    s.len() > 0 && (s[0] as u32) < 128
}

/// Node's `path.posix.relative` for a given host and cwd.
pub open spec fn posix_relative(host: NodeHost, cwd: Seq<char>, from: Seq<char>, to: Seq<char>) -> Seq<
    char,
> {
    if from == to {
        Seq::empty()
    } else {
        let f = posix_resolve(host, cwd, seq![from]);
        let t = posix_resolve(host, cwd, seq![to]);
        if f == t {
            Seq::empty()
        } else {
            let fp = components(f.skip(1), false);
            let tp = components(t.skip(1), false);
            join_with(relative_parts(fp, tp, common_from(fp, tp, 0)), '/')
        }
    }
}

/// Whether `relative` is defined: it drops the first byte of both resolved paths as their root,
/// which must then be a whole character.
pub open spec fn posix_relative_defined(host: NodeHost, cwd: Seq<char>, from: Seq<char>, to: Seq<
    char,
>) -> bool {
    let f = posix_resolve(host, cwd, seq![from]);
    let t = posix_resolve(host, cwd, seq![to]);
    from == to || f == t || (starts_ascii(f) && starts_ascii(t))
}

pub(crate) fn dot_str() -> (r: &'static str)
    ensures
        r@ == seq!['.'],
{
    let r = ".";
    proof {
        reveal_strlit(".");
    }
    r
}

pub(crate) fn empty_str() -> (r: &'static str)
    ensures
        r@ == Seq::<char>::empty(),
{
    let r = "";
    proof {
        reveal_strlit("");
    }
    r
}

/// The normalized form of `p` as characters.
pub(crate) fn normalize_chars(p: &[char]) -> (r: Vec<char>)
    ensures
        r@ == posix_normalize(p@),
{
    let mut out: Vec<char> = Vec::new();
    if p.len() == 0 {
        out.push('.');
        assert(out@ =~= seq!['.']);
        return out;
    }
    let absolute = p[0] == '/';
    let trailing = p[p.len() - 1] == '/';
    let body = normalize_string(p, !absolute, false);
    if body.len() == 0 {
        if absolute {
            out.push('/');
            assert(out@ =~= seq!['/']);
        } else if trailing {
            out.push('.');
            out.push('/');
            assert(out@ =~= seq!['.', '/']);
        } else {
            out.push('.');
            assert(out@ =~= seq!['.']);
        }
        return out;
    }
    if absolute {
        out.push('/');
    }
    append_chars(&mut out, &body);
    if trailing {
        out.push('/');
    }
    assert(out@ =~= posix_normalize(p@));
    out
}

/// Normalizes a path: resolves `.` and `..`, collapses repeated separators and keeps a trailing
/// separator. The input is returned borrowed when it is already normal.
pub fn normalize(path: &str) -> (r: Cow<'_, str>)
    ensures
        r@ == posix_normalize(path@),
        r@ == path@ ==> r == Cow::<str>::Borrowed(path),
{
    let p = chars_of(path);
    let out = normalize_chars(&p);
    if chars_eq(&out, &p) {
        Cow::Borrowed(path)
    } else {
        Cow::Owned(string_of(&out))
    }
}

/// Whether the path starts with `/`.
pub fn is_absolute(path: &str) -> (r: bool)
    ensures
        r == (path@.len() > 0 && path@[0] == '/'),
{
    let p = chars_of(path);
    p.len() > 0 && p[0] == '/'
}

/// The non-empty views joined with `c`.
pub(crate) fn join_nonempty_exec(paths: &[&str], c: char) -> (r: Vec<char>)
    ensures
        r@ == join_nonempty(views(paths@), c),
{
    let ghost ps = views(paths@);
    let mut joined: Vec<char> = Vec::new();
    let mut i: usize = 0;
    while i < paths.len()
        invariant
            ps == views(paths@),
            i <= paths.len(),
            joined@ == join_nonempty(ps.take(i as int), c),
        decreases paths.len() - i,
    {
        let part = chars_of(paths[i]);
        assert(ps.take(i + 1).drop_last() =~= ps.take(i as int));
        if part.len() != 0 {
            if joined.len() != 0 {
                joined.push(c);
            }
            append_chars(&mut joined, &part);
        }
        proof {
            let prev = join_nonempty(ps.take(i as int), c);
            if part@.len() != 0 && prev.len() != 0 {
                assert(joined@ =~= prev + seq![c] + ps[i as int]);
            } else if part@.len() != 0 {
                assert(joined@ =~= ps[i as int]);
            }
        }
        i = i + 1;
    }
    assert(ps.take(paths.len() as int) =~= ps);
    joined
}

/// Joins the non-empty fragments with `/` and normalizes the result; no fragments give `.`.
pub fn join(paths: &[&str]) -> (r: String)
    ensures
        r@ == posix_join(views(paths@)),
{
    let joined = join_nonempty_exec(paths, '/');
    if joined.len() == 0 {
        let r = string_of(&['.']);
        assert(r@ =~= seq!['.']);
        r
    } else {
        string_of(&normalize_chars(&joined))
    }
}

/// The directory portion of the path.
pub fn dirname(path: &str) -> (r: &str)
    ensures
        r@ == posix_dirname(path@),
{
    let p = chars_of(path);
    if p.len() == 0 {
        return dot_str();
    }
    let has_root = p[0] == '/';
    let end = match find_last_nonsep(&p, 1, p.len(), false) {
        None => None,
        Some(t) => {
            proof {
                lemma_last_nonsep_bounds(p@, 1, p@.len() as int, false);
            }
            find_last_sep(&p, 1, t, false)
        },
    };
    match end {
        None => {
            if has_root {
                let r = "/";
                proof {
                    reveal_strlit("/");
                }
                r
            } else {
                dot_str()
            }
        },
        Some(e) => {
            proof {
                lemma_last_nonsep_bounds(p@, 1, p@.len() as int, false);
                let t = last_nonsep_before(p@, 1, p@.len() as int, false);
                lemma_last_sep_bounds(p@, 1, t, false);
            }
            if e == 1 && has_root {
                let r = "//";
                proof {
                    reveal_strlit("//");
                }
                r
            } else {
                slice_chars(path, 0, e)
            }
        },
    }
}

/// `base` with the suffix rules of `basename` applied, borrowing from `base`.
pub(crate) fn suffixed<'a>(p: &[char], base: &'a str, suffix: Option<&str>) -> (r: &'a str)
    ensures
        r@ == apply_suffix(p@, base@, match suffix {
            Some(s) => Some(s@),
            None => None,
        }),
{
    match suffix {
        None => base,
        Some(s) => {
            let sv = chars_of(s);
            if sv.len() == 0 {
                return base;
            }
            if chars_eq(p, &sv) {
                return empty_str();
            }
            let bv = chars_of(base);
            if chars_eq(&bv, &sv) {
                return base;
            }
            if bv.len() >= sv.len() {
                let cut = bv.len() - sv.len();
                let tail = sub_chars(&bv, cut, bv.len());
                if chars_eq(&tail, &sv) {
                    return slice_chars(base, 0, cut);
                }
            }
            base
        },
    }
}

/// The final component, optionally without a Node-compatible suffix.
pub fn basename<'a>(path: &'a str, suffix: Option<&str>) -> (r: &'a str)
    ensures
        r@ == posix_basename(
            path@,
            match suffix {
                Some(s) => Some(s@),
                None => None,
            },
        ),
{
    let p = chars_of(path);
    proof {
        lemma_last_nonsep_bounds(p@, 0, p@.len() as int, false);
    }
    let end = match find_last_nonsep(&p, 0, p.len(), false) {
        None => 0,
        Some(t) => t + 1,
    };
    if end == 0 {
        return empty_str();
    }
    proof {
        lemma_last_sep_bounds(p@, 0, end as int, false);
    }
    let start = match find_last_sep(&p, 0, end, false) {
        None => 0,
        Some(k) => k + 1,
    };
    let base = slice_chars(path, start, end);
    suffixed(&p, base, suffix)
}

/// The extension of a component, borrowing from it.
pub(crate) fn component_ext_str(component: &str) -> (r: &str)
    ensures
        r@ == component_ext(component@),
{
    let c = chars_of(component);
    match find_last_char(&c, c.len(), '.') {
        None => empty_str(),
        Some(dot) => {
            proof {
                lemma_last_index_bounds(c@, c@.len() as int, '.');
            }
            if dot == 0 || (c.len() == 2 && c[0] == '.' && c[1] == '.') {
                assert(dot == 0 || c@ =~= dotdot());
                empty_str()
            } else {
                assert(c@ != dotdot()) by {
                    if c@ == dotdot() {
                        assert(c@.len() == 2 && c@[0] == '.' && c@[1] == '.');
                    }
                }
                slice_chars(component, dot, c.len())
            }
        },
    }
}

/// The extension of the final component.
pub fn extname(path: &str) -> (r: &str)
    ensures
        r@ == posix_extname(path@),
{
    component_ext_str(basename(path, None))
}

/// The record of a root, directory and final component, borrowing all fields.
pub(crate) fn parsed_fields<'a>(root: &'a str, dir: &'a str, base: &'a str) -> (r: ParsedPath<'a>)
    ensures
        r@ == parsed_object(root@, dir@, base@),
{
    let ext = component_ext_str(base);
    let b = chars_of(base);
    let e = chars_of(ext);
    proof {
        let c = base@;
        let dot = last_index_of(c, c.len() as int, '.');
        lemma_last_index_bounds(c, c.len() as int, '.');
    }
    let name = slice_chars(base, 0, b.len() - e.len());
    PathObject { root, dir, base, ext, name }
}

/// Splits a path into root, directory, base, extension and name, all borrowed from the input.
pub fn parse(path: &str) -> (r: ParsedPath<'_>)
    ensures
        r@ == posix_parse(path@),
{
    let p = chars_of(path);
    if p.len() == 0 {
        let e = empty_str();
        let r = PathObject { root: e, dir: e, base: e, ext: e, name: e };
        assert(r@ == empty_object());
        return r;
    }
    let root_end: usize = if p[0] == '/' {
        1
    } else {
        0
    };
    let root = slice_chars(path, 0, root_end);
    proof {
        lemma_last_nonsep_bounds(p@, root_end as int, p@.len() as int, false);
    }
    let end = match find_last_nonsep(&p, root_end, p.len(), false) {
        None => root_end,
        Some(t) => t + 1,
    };
    if end == root_end {
        let e = empty_str();
        return PathObject { root, dir: root, base: e, ext: e, name: e };
    }
    let slash = find_last_sep(&p, root_end, end, false);
    proof {
        lemma_last_sep_bounds(p@, root_end as int, end as int, false);
    }
    let (dir, base_start) = match slash {
        Some(0) => {
            let r = "/";
            proof {
                reveal_strlit("/");
            }
            (r, 1)
        },
        Some(i) => (slice_chars(path, 0, i), i + 1),
        None => (root, root_end),
    };
    let base = slice_chars(path, base_start, end);
    parsed_fields(root, dir, base)
}

/// Node's `format` over character sequences.
pub(crate) fn format_chars(
    root: &[char],
    dir0: &[char],
    base0: &[char],
    ext: &[char],
    name: &[char],
    c: char,
) -> (r: Vec<char>)
    ensures
        r@ == format_fields(root@, dir0@, base0@, ext@, name@, c),
{
    let dir = if dir0.len() == 0 {
        root
    } else {
        dir0
    };
    let mut base: Vec<char> = Vec::new();
    if base0.len() == 0 {
        append_chars(&mut base, name);
        if ext.len() != 0 {
            if ext[0] != '.' {
                base.push('.');
            }
            append_chars(&mut base, ext);
        }
    } else {
        append_chars(&mut base, base0);
    }
    if dir.len() == 0 {
        assert(base@ =~= format_fields(root@, dir0@, base0@, ext@, name@, c));
        return base;
    }
    let mut out: Vec<char> = Vec::new();
    append_chars(&mut out, dir);
    if !chars_eq(dir, root) {
        out.push(c);
    }
    append_chars(&mut out, &base);
    assert(out@ =~= format_fields(root@, dir0@, base0@, ext@, name@, c));
    out
}

/// Formats a path record with Node field precedence.
pub fn format<S: PathField>(path_object: &PathObject<S>) -> (r: String)
    ensures
        r@ == format_fields(
            path_object.root.field_view(),
            path_object.dir.field_view(),
            path_object.base.field_view(),
            path_object.ext.field_view(),
            path_object.name.field_view(),
            '/',
        ),
{
    let root = chars_of(path_object.root.as_field_str());
    let dir = chars_of(path_object.dir.as_field_str());
    let base = chars_of(path_object.base.as_field_str());
    let ext = chars_of(path_object.ext.as_field_str());
    let name = chars_of(path_object.name.as_field_str());
    string_of(&format_chars(&root, &dir, &base, &ext, &name, '/'))
}

/// The cwd seen by POSIX operations on the host of `context`.
pub(crate) fn cwd_for_context(context: &PathContext) -> (r: Vec<char>)
    ensures
        r@ == posix_cwd(context.spec_host(), context.spec_cwd()),
{
    let cwd = chars_of(context.cwd());
    if context.host() != NodeHost::Win32 {
        return cwd;
    }
    let mut converted: Vec<char> = Vec::new();
    let mut i: usize = 0;
    while i < cwd.len()
        invariant
            i <= cwd.len(),
            converted@ == replace_char(cwd@, '\\', '/').take(i as int),
        decreases cwd.len() - i,
    {
        converted.push(if cwd[i] == '\\' {
            '/'
        } else {
            cwd[i]
        });
        assert(converted@ =~= replace_char(cwd@, '\\', '/').take(i + 1));
        i = i + 1;
    }
    assert(converted@ =~= replace_char(cwd@, '\\', '/'));
    match find_first_char(&converted, '/') {
        Some(k) => {
            proof {
                lemma_first_index_bounds(converted@, 0, '/');
            }
            sub_chars(&converted, k, converted.len())
        },
        None => Vec::new(),
    }
}

/// The right-to-left accumulation of `resolve` over all paths.
fn resolve_acc(paths: &[&str]) -> (r: (Vec<char>, bool))
    ensures
        (r.0@, r.1) == posix_resolve_acc(views(paths@), 0),
{
    let ghost ps = views(paths@);
    let mut resolved: Vec<char> = Vec::new();
    let mut absolute = false;
    let mut i: usize = paths.len();
    while i > 0
        invariant
            ps == views(paths@),
            i <= paths.len(),
            (resolved@, absolute) == posix_resolve_acc(ps, i as int),
        decreases i,
    {
        i = i - 1;
        let path = chars_of(paths[i]);
        if !absolute && path.len() != 0 {
            let mut next: Vec<char> = Vec::new();
            append_chars(&mut next, &path);
            next.push('/');
            append_chars(&mut next, &resolved);
            resolved = next;
            absolute = path[0] == '/';
        }
    }
    (resolved, absolute)
}

/// Resolves the paths right to left against the context's cwd into an absolute, normalized
/// path (relative only when the cwd is).
pub fn resolve_with_context(context: &PathContext, paths: &[&str]) -> (r: String)
    ensures
        r@ == posix_resolve(context.spec_host(), context.spec_cwd(), views(paths@)),
{
    let cwd = cwd_for_context(context);
    let ghost ps = views(paths@);
    let lone_dot = paths.len() == 1 && {
        let p0 = chars_of(paths[0]);
        p0.len() == 0 || (p0.len() == 1 && p0[0] == '.')
    };
    proof {
        if paths.len() == 1 {
            assert(ps[0] == paths@[0]@);
            assert(lone_dot == (ps[0].len() == 0 || ps[0] == seq!['.'])) by {
                if ps[0] == seq!['.'] {
                    assert(ps[0].len() == 1 && ps[0][0] == '.');
                }
                if ps[0].len() == 1 && ps[0][0] == '.' {
                    assert(ps[0] =~= seq!['.']);
                }
            }
        }
    }
    assert(ps.len() == paths@.len());
    if (paths.len() == 0 || lone_dot) && cwd.len() > 0 && cwd[0] == '/' {
        return string_of(&cwd);
    }
    assert(!resolve_returns_cwd(ps, cwd@, false));
    let (acc, abs) = resolve_acc(paths);
    let (full, absolute) = if abs {
        (acc, true)
    } else {
        let mut next: Vec<char> = Vec::new();
        append_chars(&mut next, &cwd);
        next.push('/');
        append_chars(&mut next, &acc);
        (next, cwd.len() > 0 && cwd[0] == '/')
    };
    let tail = normalize_string(&full, !absolute, false);
    let mut out: Vec<char> = Vec::new();
    if absolute {
        out.push('/');
        append_chars(&mut out, &tail);
    } else if tail.len() == 0 {
        out.push('.');
    } else {
        append_chars(&mut out, &tail);
    }
    assert(full@ == (if abs {
        acc@
    } else {
        cwd@ + seq!['/'] + acc@
    }));
    assert(tail@ == normalize_body(full@, false, !absolute));
    assert(out@ =~= posix_resolve(context.spec_host(), context.spec_cwd(), ps));
    string_of(&out)
}

/// The index where two component lists stop agreeing.
pub(crate) fn common_prefix(a: &Vec<Vec<char>>, b: &Vec<Vec<char>>) -> (r: usize)
    ensures
        r == common_from(vviews(a@), vviews(b@), 0),
        r <= a.len() && r <= b.len(),
{
    let mut c: usize = 0;
    while c < a.len() && c < b.len() && chars_eq(&a[c], &b[c])
        invariant
            c <= a.len() && c <= b.len(),
            common_from(vviews(a@), vviews(b@), 0) == common_from(vviews(a@), vviews(b@), c as int),
        decreases a.len() - c,
    {
        c = c + 1;
    }
    c
}

/// `parents(n)` followed by `rest[common..]`.
pub(crate) fn relative_parts_exec(n: usize, rest: &Vec<Vec<char>>, common: usize) -> (r: Vec<Vec<char>>)
    requires
        common <= rest.len(),
    ensures
        vviews(r@) == parents(n as int) + vviews(rest@).skip(common as int),
{
    let mut out: Vec<Vec<char>> = Vec::new();
    let mut i: usize = 0;
    while i < n
        invariant
            i <= n,
            vviews(out@) == parents(i as int),
        decreases n - i,
    {
        let mut d: Vec<char> = Vec::new();
        d.push('.');
        d.push('.');
        assert(d@ =~= dotdot());
        let ghost before = vviews(out@);
        out.push(d);
        assert(vviews(out@) =~= before.push(dotdot()));
        assert(parents(i as int).push(dotdot()) =~= parents(i + 1));
        i = i + 1;
    }
    let mut k: usize = common;
    while k < rest.len()
        invariant
            common <= k <= rest.len(),
            vviews(out@) == parents(n as int) + vviews(rest@).subrange(common as int, k as int),
        decreases rest.len() - k,
    {
        let part = sub_chars(&rest[k], 0, rest[k].len());
        assert(part@ =~= rest@[k as int]@);
        let ghost before = vviews(out@);
        out.push(part);
        assert(vviews(out@) =~= before.push(vviews(rest@)[k as int]));
        assert(vviews(out@) =~= parents(n as int) + vviews(rest@).subrange(common as int, k + 1));
        k = k + 1;
    }
    assert(vviews(rest@).subrange(common as int, rest.len() as int) =~= vviews(rest@).skip(
        common as int,
    ));
    out
}

/// Whether `relative_with_context` is defined on these arguments: the two paths are equal, or
/// resolve to the same path, or both resolve to paths that start with an ASCII character.
pub fn relative_supported(context: &PathContext, from: &str, to: &str) -> (r: bool)
    ensures
        r == posix_relative_defined(context.spec_host(), context.spec_cwd(), from@, to@),
{
    let fv = chars_of(from);
    let tv = chars_of(to);
    if chars_eq(&fv, &tv) {
        return true;
    }
    let from_arr: [&str; 1] = [from];
    let to_arr: [&str; 1] = [to];
    let from_r = resolve_with_context(context, &from_arr);
    let to_r = resolve_with_context(context, &to_arr);
    assert(views(from_arr@) =~= seq![from@]);
    assert(views(to_arr@) =~= seq![to@]);
    let f = chars_of(from_r.as_str());
    let t = chars_of(to_r.as_str());
    if chars_eq(&f, &t) {
        return true;
    }
    f.len() > 0 && (f[0] as u32) < 128 && t.len() > 0 && (t[0] as u32) < 128
}

/// The relative path from `from` to `to`, both resolved against the context.
pub fn relative_with_context(context: &PathContext, from: &str, to: &str) -> (r: String)
    requires
        posix_relative_defined(context.spec_host(), context.spec_cwd(), from@, to@),
    ensures
        r@ == posix_relative(context.spec_host(), context.spec_cwd(), from@, to@),
{
    let fv = chars_of(from);
    let tv = chars_of(to);
    if chars_eq(&fv, &tv) {
        return String::new();
    }
    let from_arr: [&str; 1] = [from];
    let to_arr: [&str; 1] = [to];
    let from_r = resolve_with_context(context, &from_arr);
    let to_r = resolve_with_context(context, &to_arr);
    assert(views(from_arr@) =~= seq![from@]);
    assert(views(to_arr@) =~= seq![to@]);
    let f = chars_of(from_r.as_str());
    let t = chars_of(to_r.as_str());
    if chars_eq(&f, &t) {
        return String::new();
    }
    let f_tail = sub_chars(&f, 1, f.len());
    let t_tail = sub_chars(&t, 1, t.len());
    let fp = split_components(&f_tail, false);
    let tp = split_components(&t_tail, false);
    let common = common_prefix(&fp, &tp);
    let parts = relative_parts_exec(fp.len() - common, &tp, common);
    string_of(&crate::shared::join_vecs(&parts, '/'))
}

/// POSIX paths have no namespace prefix; the input is returned unchanged.
pub fn to_namespaced_path_with_context<'a>(context: &PathContext, path: &'a str) -> (r: Cow<
    'a,
    str,
>)
    ensures
        r == Cow::<str>::Borrowed(path),
{
    Cow::Borrowed(path)
}

/// Deprecated Node alias of [`to_namespaced_path_with_context`].
pub fn _make_long_with_context<'a>(context: &PathContext, path: &'a str) -> (r: Cow<'a, str>)
    ensures
        r == Cow::<str>::Borrowed(path),
{
    to_namespaced_path_with_context(context, path)
}

/// Matches a path against a glob with Node's `matchesGlob` semantics on the context's host.
pub fn matches_glob_with_context(context: &PathContext, path: &str, pattern: &str) -> (r: Result<
    bool,
    GlobError,
>)
    requires
        glob_defined(pattern@),
    ensures
        r == glob_result(false, context.spec_host(), path@, pattern@),
{
    crate::glob::matches(false, context.host(), path, pattern)
}

} // verus!
