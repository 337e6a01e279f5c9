//! Explicit, host-independent Node.js `path.win32` semantics.
//!
//! Drive-relative resolution and namespaced paths use [`PathContext`] rather than hidden process
//! drive state, so Windows behavior is testable on every host.

use std::borrow::Cow;

use vstd::prelude::*;
use vstd::utf8::encode_utf8;

use crate::context::{drive_lookup, NodeHost, PathContext};
use crate::error::GlobError;
use crate::glob::{glob_defined, glob_result};
use crate::path_object::{ParsedPath, PathField, PathObject};
use crate::posix::{
    apply_suffix, common_from, component_end, component_ext, component_ext_str, component_start,
    empty_object, format_chars, format_fields, join_nonempty, join_nonempty_exec, parents,
    parsed_fields, parsed_object, relative_parts, relative_parts_exec, replace_char,
    resolve_returns_cwd,
};
use crate::shared::{
    dotdot, is_reserved_name, is_reserved_name_chars, join_vecs, lemma_win_root_len_bounds,
    normalize_body, normalize_string, parts_on, split_on, vviews, win_root_len, win_root_len_chars,
};
use crate::text::{
    append_chars, chars_eq, chars_of, eq_ignore_ascii_case, eq_ignore_ascii_case_exec,
    find_first_char, find_last_nonsep, find_last_sep, first_index_of, has_char, is_ascii_alpha,
    is_ascii_alpha_exec, is_sep, is_sep_exec, last_nonsep_before, last_sep_before,
    lemma_first_index_bounds, lemma_first_index_has, lemma_last_nonsep_bounds,
    lemma_last_sep_bounds, lemma_skip_nonseps_bounds, lemma_skip_seps_bounds, skip_nonseps,
    skip_nonseps_exec, skip_seps, skip_seps_exec, slice_chars, string_of, sub_chars, views,
};

verus! {

pub const SEP: &'static str = "\\";

pub const DELIMITER: &'static str = ";";

/// The root of a Windows path: its device (drive, UNC share or `\\.`/`\\?` namespace), where the
/// rest of the path starts, whether the root is absolute, and whether the path is only a UNC root.
pub struct RootInfo {
    pub device: Seq<char>,
    pub root_end: int,
    pub absolute: bool,
    pub unc_root_only: bool,
}

/// `\\`.
pub open spec fn two_backslashes() -> Seq<char> {
    seq!['\\', '\\']
}

/// Node's Windows root recognition.
pub open spec fn parse_root(p: Seq<char>) -> RootInfo {
    let none = RootInfo { device: Seq::empty(), root_end: 0, absolute: false, unc_root_only: false };
    let slash = RootInfo { device: Seq::empty(), root_end: 1, absolute: true, unc_root_only: false };
    if p.len() == 0 {
        none
    } else if is_sep(p[0], true) {
        if p.len() < 2 || !is_sep(p[1], true) {
            slash
        } else {
            let server_end = skip_nonseps(p, 2, true);
            if server_end == 2 || server_end == p.len() {
                slash
            } else {
                let server = p.subrange(2, server_end);
                let share_start = skip_seps(p, server_end, true);
                let share_end = skip_nonseps(p, share_start, true);
                if share_end == share_start {
                    slash
                } else if server == seq!['.'] || server == seq!['?'] {
                    RootInfo {
                        device: two_backslashes() + server,
                        root_end: 4,
                        absolute: true,
                        unc_root_only: false,
                    }
                } else {
                    RootInfo {
                        device: two_backslashes() + server + seq!['\\'] + p.subrange(
                            share_start,
                            share_end,
                        ),
                        root_end: share_end,
                        absolute: true,
                        unc_root_only: share_end == p.len(),
                    }
                }
            }
        }
    } else if p.len() >= 2 && is_ascii_alpha(p[0]) && p[1] == ':' {
        if p.len() > 2 && is_sep(p[2], true) {
            RootInfo { device: p.take(2), root_end: 3, absolute: true, unc_root_only: false }
        } else {
            RootInfo { device: p.take(2), root_end: 2, absolute: false, unc_root_only: false }
        }
    } else {
        none
    }
}

/// Whether the text before the first colon of `p` is a reserved device name.
pub open spec fn starts_with_reserved_device(p: Seq<char>) -> bool {
    let colon = first_index_of(p, 0, ':');
    colon >= 0 && is_reserved_name(p.take(colon))
}

/// Whether `p` starts with a `\\.\` or `\\?\` namespace prefix (any separators).
pub open spec fn namespace_prefix(p: Seq<char>) -> bool {
    p.len() >= 4 && is_sep(p[0], true) && is_sep(p[1], true) && (p[2] == '.' || p[2] == '?')
        && is_sep(p[3], true)
}

/// The root that `normalize` starts from: a `\\.\` or `\\?\` prefix is the device `\\.` or
/// `\\?` even when nothing follows it, so that a normalized device path stays one; otherwise
/// `parse_root`.
pub open spec fn namespace_root(p: Seq<char>) -> RootInfo {
    if namespace_prefix(p) {
        RootInfo {
            device: two_backslashes() + seq![p[2]],
            root_end: 4,
            absolute: true,
            unc_root_only: false,
        }
    } else {
        parse_root(p)
    }
}

/// A `\\.` or `\\?` device from `parse_root` comes from a namespace prefix.
pub proof fn lemma_parse_root_namespace(p: Seq<char>)
    ensures
        (parse_root(p).device == two_backslashes() + seq!['.'] || parse_root(p).device
            == two_backslashes() + seq!['?']) ==> namespace_prefix(p) && parse_root(p)
            == namespace_root(p),
{
    if p.len() >= 2 && is_sep(p[0], true) && is_sep(p[1], true) {
        lemma_skip_nonseps_bounds(p, 2, true);
        let server_end = skip_nonseps(p, 2, true);
        let server = p.subrange(2, server_end);
        if (parse_root(p).device == two_backslashes() + seq!['.'] || parse_root(p).device
            == two_backslashes() + seq!['?']) {
            if !(server == seq!['.'] || server == seq!['?']) {
                lemma_skip_seps_bounds(p, server_end, true);
                let share_start = skip_seps(p, server_end, true);
                lemma_skip_nonseps_bounds(p, share_start, true);
                assert(parse_root(p).device.len() > 3);
            }
            assert(server.len() == 1);
            assert(p[2] == server[0]);
            assert(server_end == 3);
            assert(server_end < p.len());
            assert(is_sep(p[3], true));
            assert(namespace_prefix(p));
            assert(parse_root(p).device =~= two_backslashes() + seq![p[2]]);
        }
    } else {
        assert(parse_root(p).device.len() != 3);
    }
}

/// The root used by `normalize`: `namespace_root`, extended over a reserved device after `\\?\`, or
/// replaced by a leading reserved device (`CON:`); the flag tells whether the latter happened.
pub open spec fn normalize_root(p: Seq<char>) -> (RootInfo, bool) {
    let r0 = namespace_root(p);
    let colon = first_index_of(p, 0, ':');
    let r1 = if r0.device == two_backslashes() + seq!['?'] && colon >= 0 && is_reserved_name(
        p.subrange(4, colon),
    ) {
        RootInfo {
            device: two_backslashes() + seq!['?', '\\'] + p.subrange(4, colon + 1),
            root_end: colon + 1,
            absolute: r0.absolute,
            unc_root_only: r0.unc_root_only,
        }
    } else {
        r0
    };
    if r1.device.len() == 0 && starts_with_reserved_device(p) {
        (
            RootInfo {
                device: p.take(colon + 1),
                root_end: colon + 1,
                absolute: r1.absolute,
                unc_root_only: r1.unc_root_only,
            },
            true,
        )
    } else {
        (r1, false)
    }
}

/// Whether `t` starts like a drive (`X:`).
pub open spec fn drive_like(t: Seq<char>) -> bool {
    t.len() >= 2 && is_ascii_alpha(t[0]) && t[1] == ':'
}

/// Whether some colon of `p` ends the path or is followed by a separator.
pub open spec fn dangerous_colon(p: Seq<char>) -> bool {
    exists|i: int|
        0 <= i < p.len() && #[trigger] p[i] == ':' && (i + 1 == p.len() || is_sep(p[i + 1], true))
}

/// `.\`.
pub open spec fn dot_backslash() -> Seq<char> {
    seq!['.', '\\']
}

/// Node's `path.win32.normalize`.
pub open spec fn win32_normalize(p: Seq<char>) -> Seq<char> {
    if p.len() == 0 {
        seq!['.']
    } else if p.len() == 1 && (p[0] as u32) < 128 {
        if p[0] == '/' {
            seq!['\\']
        } else {
            p
        }
    } else {
        let (root, reserved) = normalize_root(p);
        if root.unc_root_only {
            root.device + seq!['\\']
        } else {
            let t0 = if root.root_end < p.len() {
                normalize_body(p.skip(root.root_end), true, !root.absolute)
            } else {
                Seq::empty()
            };
            let t1 = if t0.len() == 0 && !root.absolute {
                seq!['.']
            } else {
                t0
            };
            let tail = if t1.len() > 0 && is_sep(p.last(), true) {
                t1 + seq!['\\']
            } else {
                t1
            };
            if !root.absolute && root.device.len() == 0 && has_char(p, ':') && (drive_like(tail)
                || dangerous_colon(p)) {
                dot_backslash() + tail
            } else if reserved {
                dot_backslash() + root.device + tail
            } else if root.device.len() == 0 {
                if root.absolute {
                    seq!['\\'] + tail
                } else {
                    tail
                }
            } else if root.absolute {
                root.device + seq!['\\'] + tail
            } else {
                root.device + tail
            }
        }
    }
}

/// Node's `path.win32.isAbsolute`.
pub open spec fn win32_is_absolute(p: Seq<char>) -> bool {
    (p.len() > 0 && is_sep(p[0], true)) || (p.len() > 2 && is_ascii_alpha(p[0]) && p[1] == ':'
        && is_sep(p[2], true))
}

/// The first non-empty path, or the empty sequence.
pub open spec fn first_nonempty(ps: Seq<Seq<char>>) -> Seq<char>
    decreases ps.len(),
{
    if ps.len() == 0 {
        Seq::empty()
    } else if ps[0].len() > 0 {
        ps[0]
    } else {
        first_nonempty(ps.drop_first())
    }
}

/// Whether some backslash-delimited part has, before its first colon, a reserved device name
/// (an alternate data stream of a device such as `CON:stream`).
pub open spec fn has_reserved_stream(s: Seq<char>) -> bool {
    exists|a: int, c: int|
        0 <= a <= c < s.len() && (a == 0 || s[a - 1] == '\\') && #[trigger] s[c] == ':' && (forall|
            j: int,
        | a <= j < c ==> s[j] != '\\' && s[j] != ':') && is_reserved_name(#[trigger] s.subrange(a, c))
}

/// Node's `path.win32.join`.
pub open spec fn win32_join(ps: Seq<Seq<char>>) -> Seq<char> {
    let joined0 = join_nonempty(ps, '\\');
    if joined0.len() == 0 {
        seq!['.']
    } else {
        let first = first_nonempty(ps);
        let clearly_unc = skip_seps(first, 0, true) == 2 && first.len() > 2;
        let lead = skip_seps(joined0, 0, true);
        let joined = if !clearly_unc && lead >= 2 {
            seq!['\\'] + joined0.skip(lead)
        } else {
            joined0
        };
        if has_reserved_stream(joined) {
            replace_char(joined, '/', '\\')
        } else {
            win32_normalize(joined)
        }
    }
}

/// Node's `path.win32.dirname`.
pub open spec fn win32_dirname(p: Seq<char>) -> Seq<char> {
    if p.len() == 0 {
        seq!['.']
    } else if p.len() == 1 {
        if is_sep(p[0], true) {
            p
        } else {
            seq!['.']
        }
    } else {
        let root_end = win_root_len(p);
        if root_end == p.len() && root_end > 0 {
            p
        } else {
            let t = last_nonsep_before(p, root_end, p.len() as int, true);
            let end = if t < 0 {
                -1
            } else {
                last_sep_before(p, root_end, t, true)
            };
            if end >= 0 {
                p.take(end)
            } else if root_end > 0 {
                p.take(root_end)
            } else {
                seq!['.']
            }
        }
    }
}

/// Where the final component may start: after a leading drive (`X:`), else at 0.
pub open spec fn drive_start(p: Seq<char>) -> int {
    if p.len() >= 2 && is_ascii_alpha(p[0]) && p[1] == ':' {
        2
    } else {
        0
    }
}

/// Node's `path.win32.basename`.
pub open spec fn win32_basename(p: Seq<char>, suffix: Option<Seq<char>>) -> Seq<char> {
    let lo = drive_start(p);
    let end = component_end(p, lo, true);
    if end == lo {
        Seq::empty()
    } else {
        apply_suffix(p, p.subrange(component_start(p, lo, end, true), end), suffix)
    }
}

/// Node's `path.win32.extname`.
pub open spec fn win32_extname(p: Seq<char>) -> Seq<char> {
    component_ext(win32_basename(p, None))
}

/// Node's `path.win32.parse`.
pub open spec fn win32_parse(p: Seq<char>) -> PathObject<Seq<char>> {
    if p.len() == 0 {
        empty_object()
    } else {
        let root_end = win_root_len(p);
        let root = p.take(root_end);
        let end = component_end(p, root_end, true);
        if end == root_end {
            PathObject {
                root,
                dir: root,
                base: Seq::empty(),
                ext: Seq::empty(),
                name: Seq::empty(),
            }
        } else {
            let slash = last_sep_before(p, root_end, end, true);
            let dir = if slash >= 0 && slash + 1 == root_end {
                root
            } else if slash >= 0 {
                p.take(slash)
            } else {
                root
            };
            parsed_object(root, dir, p.subrange(component_start(p, root_end, end, true), end))
        }
    }
}

/// The cwd seen by Windows operations: on a POSIX host, with slashes turned into backslashes.
pub open spec fn win32_cwd(host: NodeHost, cwd: Seq<char>) -> Seq<char> {
    if host == NodeHost::Win32 {
        cwd
    } else {
        replace_char(cwd, '/', '\\')
    }
}

/// The state of Windows resolution: the device chosen so far, the accumulated tail, and whether
/// the tail is rooted.
pub struct ResolveState {
    pub device: Seq<char>,
    pub tail: Seq<char>,
    pub absolute: bool,
}

/// Resolution is complete once the tail is rooted on a known device.
pub open spec fn resolve_done(st: ResolveState) -> bool {
    st.absolute && st.device.len() > 0
}

/// Prepends one path to the resolution state: a path on another device is ignored, the first
/// device seen is kept, and the path's text after its root is prepended while the tail is still
/// relative.
pub open spec fn resolve_step(st: ResolveState, path: Seq<char>) -> ResolveState {
    let root = parse_root(path);
    if root.device.len() > 0 && st.device.len() > 0 && !eq_ignore_ascii_case(root.device, st.device) {
        st
    } else {
        let device = if st.device.len() == 0 {
            root.device
        } else {
            st.device
        };
        if !st.absolute {
            ResolveState {
                device,
                tail: path.skip(root.root_end) + seq!['\\'] + st.tail,
                absolute: root.absolute,
            }
        } else {
            ResolveState { device, tail: st.tail, absolute: st.absolute }
        }
    }
}

/// The resolution state after the paths from `i` on, processed right to left.
pub open spec fn resolve_acc(ps: Seq<Seq<char>>, i: int) -> ResolveState
    decreases ps.len() - i,
{
    if i < 0 || i >= ps.len() {
        ResolveState { device: Seq::empty(), tail: Seq::empty(), absolute: false }
    } else {
        let st = resolve_acc(ps, i + 1);
        if resolve_done(st) || ps[i].len() == 0 {
            st
        } else {
            resolve_step(st, ps[i])
        }
    }
}

/// Whether the third UTF-8 byte of `s` is a backslash.
pub open spec fn third_byte_is_backslash(s: Seq<char>) -> bool {
    encode_utf8(s).len() > 2 && encode_utf8(s)[2] == 92
}

/// The directory that completes a resolution: the cwd when no device is known; otherwise the
/// device's recorded cwd (or the process cwd), replaced by the device root when it belongs to
/// another device.
pub open spec fn resolve_base_dir(
    host: NodeHost,
    cwd: Seq<char>,
    drives: Seq<(Seq<char>, Seq<char>)>,
    device: Seq<char>,
) -> Seq<char> {
    if device.len() == 0 {
        win32_cwd(host, cwd)
    } else {
        let c0 = match drive_lookup(drives, device, 0) {
            Some(c) => c,
            None => cwd,
        };
        let c = if host == NodeHost::Win32 {
            c0
        } else {
            replace_char(c0, '/', '\\')
        };
        let matches_device = c.len() >= 2 && eq_ignore_ascii_case(c.take(2), device);
        if !matches_device && third_byte_is_backslash(c) {
            device + seq!['\\']
        } else {
            c
        }
    }
}

/// Node's `path.win32.resolve` for a given host, cwd and per-drive cwds.
pub open spec fn win32_resolve(
    host: NodeHost,
    cwd: Seq<char>,
    drives: Seq<(Seq<char>, Seq<char>)>,
    ps: Seq<Seq<char>>,
) -> Seq<char> {
    let c = win32_cwd(host, cwd);
    let s0 = resolve_acc(ps, 0);
    if !resolve_done(s0) && s0.device.len() == 0 && resolve_returns_cwd(ps, c, true) {
        c
    } else {
        let st = if resolve_done(s0) {
            s0
        } else {
            resolve_step(s0, resolve_base_dir(host, cwd, drives, s0.device))
        };
        let tail = normalize_body(st.tail, true, !st.absolute);
        let result = if st.absolute {
            st.device + seq!['\\'] + tail
        } else {
            st.device + tail
        };
        if result.len() == 0 {
            seq!['.']
        } else {
            result
        }
    }
}

/// Unicode lower-casing of a string (std's `str::to_lowercase`).
pub uninterp spec fn unicode_lowercase(s: Seq<char>) -> Seq<char>;

/// The length of the longest common prefix from `i` under Unicode lower-casing.
pub open spec fn common_lower_from(a: Seq<Seq<char>>, b: Seq<Seq<char>>, i: int) -> int
    decreases a.len() - i,
{
    if 0 <= i < a.len() && i < b.len() && unicode_lowercase(a[i]) == unicode_lowercase(b[i]) {
        common_lower_from(a, b, i + 1)
    } else {
        i
    }
}

/// Node's `path.win32.relative` for a given context.
pub open spec fn win32_relative(
    host: NodeHost,
    cwd: Seq<char>,
    drives: Seq<(Seq<char>, Seq<char>)>,
    from: Seq<char>,
    to: Seq<char>,
) -> Seq<char> {
    if from == to {
        Seq::empty()
    } else {
        let f = win32_resolve(host, cwd, drives, seq![from]);
        let t = win32_resolve(host, cwd, drives, seq![to]);
        if eq_ignore_ascii_case(f, t) {
            Seq::empty()
        } else {
            let fp = parts_on(f, '\\');
            let tp = parts_on(t, '\\');
            let common = common_lower_from(fp, tp, 0);
            if common == 0 {
                t
            } else {
                join_with_backslash(relative_parts(fp, tp, common))
            }
        }
    }
}

/// Parts joined by `\`.
pub open spec fn join_with_backslash(parts: Seq<Seq<char>>) -> Seq<char> {
    crate::text::join_with(parts, '\\')
}

/// Node's `path.win32.toNamespacedPath` for a given context.
pub open spec fn win32_namespaced(
    host: NodeHost,
    cwd: Seq<char>,
    drives: Seq<(Seq<char>, Seq<char>)>,
    p: Seq<char>,
) -> Seq<char> {
    if p.len() == 0 {
        p
    } else {
        let r = win32_resolve(host, cwd, drives, seq![p]);
        if encode_utf8(r).len() <= 2 {
            p
        } else if r.len() >= 2 && r[0] == '\\' && r[1] == '\\' {
            let stripped = r.skip(2);
            if stripped.len() > 0 && (stripped[0] == '?' || stripped[0] == '.') {
                r
            } else {
                seq!['\\', '\\', '?', '\\', 'U', 'N', 'C', '\\'] + stripped
            }
        } else if r.len() > 2 && is_ascii_alpha(r[0]) && r[1] == ':' && r[2] == '\\' {
            seq!['\\', '\\', '?', '\\'] + r
        } else {
            r
        }
    }
}

/// `str::to_lowercase`: claimed to return the Unicode lower-case mapping of its argument, which
/// depends on the argument alone.
#[verifier::external_body]
fn to_lowercase(s: &str) -> (r: String)
    ensures
        r@ == unicode_lowercase(s@),
{
    s.to_lowercase()
}

/// The executable form of [`RootInfo`].
pub struct Root {
    pub device: Vec<char>,
    pub root_end: usize,
    pub absolute: bool,
    pub unc_root_only: bool,
}

impl Root {
    pub open spec fn info(&self) -> RootInfo {
        RootInfo {
            device: self.device@,
            root_end: self.root_end as int,
            absolute: self.absolute,
            unc_root_only: self.unc_root_only,
        }
    }
}

pub proof fn lemma_parse_root_bounds(p: Seq<char>)
    ensures
        0 <= parse_root(p).root_end <= p.len(),
        parse_root(p).absolute ==> parse_root(p).root_end >= 1,
{
    if p.len() >= 2 && is_sep(p[0], true) && is_sep(p[1], true) {
        lemma_skip_nonseps_bounds(p, 2, true);
        let server_end = skip_nonseps(p, 2, true);
        lemma_skip_seps_bounds(p, server_end, true);
        let share_start = skip_seps(p, server_end, true);
        lemma_skip_nonseps_bounds(p, share_start, true);
        if server_end == 3 && server_end < p.len() {
            assert(share_start > server_end);
        }
    }
}

/// Node's Windows root recognition on characters.
pub(crate) fn parse_root_chars(p: &[char]) -> (r: Root)
    ensures
        r.info() == parse_root(p@),
        r.root_end <= p@.len(),
{
    proof {
        lemma_parse_root_bounds(p@);
    }
    let n = p.len();
    let none = Root { device: Vec::new(), root_end: 0, absolute: false, unc_root_only: false };
    if n == 0 {
        assert(none.info() == parse_root(p@)) by {
            assert(none.device@ =~= Seq::<char>::empty());
        }
        return none;
    }
    if is_sep_exec(p[0], true) {
        let slash = Root { device: Vec::new(), root_end: 1, absolute: true, unc_root_only: false };
        assert(slash.device@ =~= Seq::<char>::empty());
        if n < 2 || !is_sep_exec(p[1], true) {
            return slash;
        }
        let server_end = skip_nonseps_exec(p, 2, true);
        proof {
            lemma_skip_nonseps_bounds(p@, 2, true);
        }
        if server_end == 2 || server_end == n {
            return slash;
        }
        let share_start = skip_seps_exec(p, server_end, true);
        proof {
            lemma_skip_seps_bounds(p@, server_end as int, true);
        }
        let share_end = skip_nonseps_exec(p, share_start, true);
        proof {
            lemma_skip_nonseps_bounds(p@, share_start as int, true);
        }
        if share_end == share_start {
            return slash;
        }
        let server = sub_chars(p, 2, server_end);
        let mut device: Vec<char> = Vec::new();
        device.push('\\');
        device.push('\\');
        append_chars(&mut device, &server);
        let special = server.len() == 1 && (server[0] == '.' || server[0] == '?');
        proof {
            let sv = p@.subrange(2, server_end as int);
            if special {
                if server[0] == '.' {
                    assert(sv =~= seq!['.']);
                } else {
                    assert(sv =~= seq!['?']);
                }
            } else {
                assert(sv != seq!['.'] && sv != seq!['?']) by {
                    if sv == seq!['.'] || sv == seq!['?'] {
                        assert(sv.len() == 1);
                    }
                }
            }
        }
        if special {
            assert(device@ =~= two_backslashes() + p@.subrange(2, server_end as int));
            return Root { device, root_end: 4, absolute: true, unc_root_only: false };
        }
        device.push('\\');
        let share = sub_chars(p, share_start, share_end);
        append_chars(&mut device, &share);
        assert(device@ =~= two_backslashes() + p@.subrange(2, server_end as int) + seq!['\\']
            + p@.subrange(share_start as int, share_end as int));
        return Root { device, root_end: share_end, absolute: true, unc_root_only: share_end == n };
    }
    if n >= 2 && is_ascii_alpha_exec(p[0]) && p[1] == ':' {
        let device = sub_chars(p, 0, 2);
        assert(device@ =~= p@.take(2));
        if n > 2 && is_sep_exec(p[2], true) {
            return Root { device, root_end: 3, absolute: true, unc_root_only: false };
        }
        return Root { device, root_end: 2, absolute: false, unc_root_only: false };
    }
    assert(none.device@ =~= Seq::<char>::empty());
    none
}

/// The root used by `normalize`, and whether it is a leading reserved device.
fn normalize_root_chars(p: &[char]) -> (r: (Root, bool))
    ensures
        (r.0.info(), r.1) == normalize_root(p@),
        r.0.root_end <= p@.len(),
{
    let mut root = parse_root_chars(p);
    proof {
        lemma_parse_root_namespace(p@);
    }
    if p.len() >= 4 && is_sep_exec(p[0], true) && is_sep_exec(p[1], true) && (p[2] == '.' || p[2]
        == '?') && is_sep_exec(p[3], true) {
        let mut device: Vec<char> = Vec::new();
        device.push('\\');
        device.push('\\');
        device.push(p[2]);
        assert(device@ =~= two_backslashes() + seq![p@[2]]);
        root = Root { device, root_end: 4, absolute: true, unc_root_only: false };
    }
    assert(root.info() == namespace_root(p@));
    let colon = find_first_char(p, ':');
    proof {
        lemma_first_index_bounds(p@, 0, ':');
    }
    let ghost r0 = root.info();
    let is_q = root.device.len() == 3 && root.device[0] == '\\' && root.device[1] == '\\'
        && root.device[2] == '?';
    assert(is_q == (r0.device == two_backslashes() + seq!['?'])) by {
        if is_q {
            assert(root.device@ =~= two_backslashes() + seq!['?']);
        }
        if r0.device == two_backslashes() + seq!['?'] {
            assert(root.device@.len() == 3);
            assert(root.device@[2] == (two_backslashes() + seq!['?'])[2]);
        }
    }
    if is_q {
        if let Some(c) = colon {
            proof {
                // A `\\?` device means the path starts with two separators, `?` and a separator.
                assert(namespace_prefix(p@)) by {
                    if !namespace_prefix(p@) {
                        assert(r0.device[2] == '?');
                    }
                }
                assert(p@[0] != ':' && p@[1] != ':' && p@[2] != ':' && p@[3] != ':');
            }
            assert(c < p.len());
            let candidate = sub_chars(p, 4, c);
            if is_reserved_name_chars(&candidate) {
                let mut device: Vec<char> = Vec::new();
                device.push('\\');
                device.push('\\');
                device.push('?');
                device.push('\\');
                let rest = sub_chars(p, 4, c + 1);
                append_chars(&mut device, &rest);
                assert(device@ =~= two_backslashes() + seq!['?', '\\'] + p@.subrange(4, c + 1));
                root = Root {
                    device,
                    root_end: c + 1,
                    absolute: root.absolute,
                    unc_root_only: root.unc_root_only,
                };
            }
        }
    }
    if root.device.len() == 0 {
        if let Some(c) = colon {
            assert(c < p.len());
            let candidate = sub_chars(p, 0, c);
            assert(candidate@ =~= p@.take(c as int));
            if is_reserved_name_chars(&candidate) {
                let device = sub_chars(p, 0, c + 1);
                assert(device@ =~= p@.take(c + 1));
                let r = Root {
                    device,
                    root_end: c + 1,
                    absolute: root.absolute,
                    unc_root_only: root.unc_root_only,
                };
                return (r, true);
            }
        }
    }
    (root, false)
}

/// Whether some colon ends the path or is followed by a separator.
fn dangerous_colon_exec(p: &[char]) -> (r: bool)
    ensures
        r == dangerous_colon(p@),
{
    let mut i: usize = 0;
    while i < p.len()
        invariant
            i <= p.len(),
            forall|j: int|
                0 <= j < i ==> !(#[trigger] p@[j] == ':' && (j + 1 == p@.len() || is_sep(
                    p@[j + 1],
                    true,
                ))),
        decreases p.len() - i,
    {
        if p[i] == ':' && (i + 1 == p.len() || is_sep_exec(p[i + 1], true)) {
            return true;
        }
        i = i + 1;
    }
    false
}

/// Node's Windows normalization on characters.
#[verifier::rlimit(40)]
pub(crate) fn normalize_chars(p: &[char]) -> (r: Vec<char>)
    ensures
        r@ == win32_normalize(p@),
{
    let n = p.len();
    let mut out: Vec<char> = Vec::new();
    if n == 0 {
        out.push('.');
        assert(out@ =~= seq!['.']);
        return out;
    }
    if n == 1 && (p[0] as u32) < 128 {
        if p[0] == '/' {
            out.push('\\');
            assert(out@ =~= seq!['\\']);
        } else {
            out.push(p[0]);
            assert(out@ =~= p@);
        }
        return out;
    }
    let (root, reserved) = normalize_root_chars(p);
    if root.unc_root_only {
        append_chars(&mut out, &root.device);
        out.push('\\');
        return out;
    }
    let mut tail = if root.root_end < n {
        let rest = sub_chars(p, root.root_end, n);
        assert(rest@ =~= p@.skip(root.root_end as int));
        normalize_string(&rest, !root.absolute, true)
    } else {
        Vec::new()
    };
    if tail.len() == 0 && !root.absolute {
        tail.push('.');
    }
    if tail.len() != 0 && is_sep_exec(p[n - 1], true) {
        tail.push('\\');
    }
    let colon = find_first_char(p, ':');
    proof {
        lemma_first_index_has(p@, ':');
    }
    let has_colon = colon.is_some();
    if !root.absolute && root.device.len() == 0 && has_colon {
        let drive = tail.len() >= 2 && is_ascii_alpha_exec(tail[0]) && tail[1] == ':';
        if drive || dangerous_colon_exec(p) {
            out.push('.');
            out.push('\\');
            append_chars(&mut out, &tail);
            assert(out@ =~= win32_normalize(p@));
            return out;
        }
    }
    if reserved {
        out.push('.');
        out.push('\\');
        append_chars(&mut out, &root.device);
        append_chars(&mut out, &tail);
        assert(out@ =~= win32_normalize(p@));
        return out;
    }
    if root.device.len() == 0 {
        if root.absolute {
            out.push('\\');
        }
    } else {
        append_chars(&mut out, &root.device);
        if root.absolute {
            out.push('\\');
        }
    }
    append_chars(&mut out, &tail);
    assert(out@ =~= win32_normalize(p@));
    out
}

/// Normalizes a Windows path; the input is returned borrowed when it is already normal.
pub fn normalize(path: &str) -> (r: Cow<'_, str>)
    ensures
        r@ == win32_normalize(path@),
        r@ == path@ ==> r == Cow::<str>::Borrowed(path),
{
    let p = chars_of(path);
    let out = normalize_chars(&p);
    if chars_eq(&out, &p) {
        Cow::Borrowed(path)
    } else {
        Cow::Owned(string_of(&out))
    }
}

/// Whether the path starts with a separator or with a drive followed by a separator.
pub fn is_absolute(path: &str) -> (r: bool)
    ensures
        r == win32_is_absolute(path@),
{
    let p = chars_of(path);
    (p.len() > 0 && is_sep_exec(p[0], true)) || (p.len() > 2 && is_ascii_alpha_exec(p[0]) && p[1]
        == ':' && is_sep_exec(p[2], true))
}

/// The first non-empty fragment.
fn first_nonempty_exec(paths: &[&str]) -> (r: Vec<char>)
    ensures
        r@ == first_nonempty(views(paths@)),
{
    let ghost ps = views(paths@);
    let mut i: usize = 0;
    assert(ps.skip(0) =~= ps);
    while i < paths.len()
        invariant
            ps == views(paths@),
            i <= paths.len(),
            first_nonempty(ps) == first_nonempty(ps.skip(i as int)),
        decreases paths.len() - i,
    {
        let v = chars_of(paths[i]);
        assert(ps.skip(i as int)[0] == v@);
        if v.len() > 0 {
            return v;
        }
        assert(ps.skip(i as int).drop_first() =~= ps.skip(i + 1));
        i = i + 1;
    }
    assert(ps.skip(paths.len() as int) =~= Seq::<Seq<char>>::empty());
    Vec::new()
}

/// Whether some backslash-delimited part has a reserved device name before its first colon.
fn has_reserved_stream_exec(s: &[char]) -> (r: bool)
    ensures
        r == has_reserved_stream(s@),
{
    let mut part_start: usize = 0;
    let mut seen_colon = false;
    let mut i: usize = 0;
    while i < s.len()
        invariant
            part_start <= i <= s.len(),
            part_start == 0 || s@[part_start - 1] == '\\',
            forall|j: int| part_start <= j < i ==> s@[j] != '\\',
            seen_colon <==> exists|j: int| part_start <= j < i && s@[j] == ':',
            forall|a: int, c: int|
                0 <= a <= c < i && (a == 0 || s@[a - 1] == '\\') && #[trigger] s@[c] == ':' && (
                forall|j: int| a <= j < c ==> s@[j] != '\\' && s@[j] != ':') ==> !is_reserved_name(
                    #[trigger] s@.subrange(a, c),
                ),
        decreases s.len() - i,
    {
        let c = s[i];
        let ghost old_start = part_start;
        let ghost old_seen = seen_colon;
        if c == '\\' {
            part_start = i + 1;
            seen_colon = false;
        } else if c == ':' && !seen_colon {
            let candidate = sub_chars(s, part_start, i);
            if is_reserved_name_chars(&candidate) {
                assert(has_reserved_stream(s@)) by {
                    assert(s@[i as int] == ':');
                    assert(is_reserved_name(s@.subrange(part_start as int, i as int)));
                }
                return true;
            }
            seen_colon = true;
        }
        proof {
            assert forall|a: int, k: int|
                0 <= a <= k < i + 1 && (a == 0 || s@[a - 1] == '\\') && #[trigger] s@[k] == ':' && (
                forall|j: int| a <= j < k ==> s@[j] != '\\' && s@[j] != ':') implies !is_reserved_name(
                #[trigger] s@.subrange(a, k),
            ) by {
                if k == i {
                    if a < old_start {
                        assert(s@[old_start - 1] == '\\');
                    } else if a > old_start {
                        assert(s@[a - 1] != '\\');
                    } else if old_seen {
                        let j = choose|j: int| old_start <= j < i && s@[j] == ':';
                        assert(s@[j] == ':');
                    }
                }
            }
        }
        i = i + 1;
    }
    false
}

/// `s` with every `/` replaced by `\`.
fn slashes_to_backslashes(s: &[char]) -> (r: Vec<char>)
    ensures
        r@ == replace_char(s@, '/', '\\'),
{
    let mut out: Vec<char> = Vec::new();
    let mut i: usize = 0;
    while i < s.len()
        invariant
            i <= s.len(),
            out@ == replace_char(s@, '/', '\\').take(i as int),
        decreases s.len() - i,
    {
        out.push(if s[i] == '/' {
            '\\'
        } else {
            s[i]
        });
        assert(out@ =~= replace_char(s@, '/', '\\').take(i + 1));
        i = i + 1;
    }
    assert(out@ =~= replace_char(s@, '/', '\\'));
    out
}

/// Joins the non-empty fragments with `\` and normalizes the result, keeping a UNC root only
/// when the first fragment clearly names one.
pub fn join(paths: &[&str]) -> (r: String)
    ensures
        r@ == win32_join(views(paths@)),
{
    let joined0 = join_nonempty_exec(paths, '\\');
    if joined0.len() == 0 {
        let r = string_of(&['.']);
        assert(r@ =~= seq!['.']);
        return r;
    }
    let first = first_nonempty_exec(paths);
    let slash_count = skip_seps_exec(&first, 0, true);
    let clearly_unc = slash_count == 2 && first.len() > 2;
    let lead = skip_seps_exec(&joined0, 0, true);
    proof {
        lemma_skip_seps_bounds(joined0@, 0, true);
    }
    let joined = if !clearly_unc && lead >= 2 {
        let mut j: Vec<char> = Vec::new();
        j.push('\\');
        let rest = sub_chars(&joined0, lead, joined0.len());
        append_chars(&mut j, &rest);
        assert(j@ =~= seq!['\\'] + joined0@.skip(lead as int));
        j
    } else {
        joined0
    };
    if has_reserved_stream_exec(&joined) {
        string_of(&slashes_to_backslashes(&joined))
    } else {
        string_of(&normalize_chars(&joined))
    }
}

/// The directory portion of the path.
pub fn dirname(path: &str) -> (r: &str)
    ensures
        r@ == win32_dirname(path@),
{
    let p = chars_of(path);
    let n = p.len();
    if n == 0 {
        let r = ".";
        proof {
            reveal_strlit(".");
        }
        return r;
    }
    if n == 1 {
        if is_sep_exec(p[0], true) {
            return path;
        }
        let r = ".";
        proof {
            reveal_strlit(".");
        }
        return r;
    }
    let root_end = win_root_len_chars(&p);
    proof {
        lemma_win_root_len_bounds(p@);
    }
    if root_end == n && root_end > 0 {
        return path;
    }
    proof {
        lemma_last_nonsep_bounds(p@, root_end as int, n as int, true);
    }
    let end = match find_last_nonsep(&p, root_end, n, true) {
        None => None,
        Some(t) => {
            proof {
                lemma_last_sep_bounds(p@, root_end as int, t as int, true);
            }
            find_last_sep(&p, root_end, t, true)
        },
    };
    proof {
        let t = last_nonsep_before(p@, root_end as int, n as int, true);
        if t >= 0 {
            lemma_last_sep_bounds(p@, root_end as int, t, true);
        }
    }
    match end {
        Some(e) => slice_chars(path, 0, e),
        None => {
            if root_end > 0 {
                slice_chars(path, 0, root_end)
            } else {
                let r = ".";
                proof {
                    reveal_strlit(".");
                }
                r
            }
        },
    }
}

/// The final component, optionally without a Node-compatible suffix.
pub fn basename<'a>(path: &'a str, suffix: Option<&str>) -> (r: &'a str)
    ensures
        r@ == win32_basename(
            path@,
            match suffix {
                Some(s) => Some(s@),
                None => None,
            },
        ),
{
    let p = chars_of(path);
    let lo: usize = if p.len() >= 2 && is_ascii_alpha_exec(p[0]) && p[1] == ':' {
        2
    } else {
        0
    };
    proof {
        lemma_last_nonsep_bounds(p@, lo as int, p@.len() as int, true);
    }
    let end = match find_last_nonsep(&p, lo, p.len(), true) {
        None => lo,
        Some(t) => t + 1,
    };
    if end == lo {
        return crate::posix::empty_str();
    }
    proof {
        lemma_last_sep_bounds(p@, lo as int, end as int, true);
    }
    let start = match find_last_sep(&p, lo, end, true) {
        None => lo,
        Some(k) => k + 1,
    };
    let base = slice_chars(path, start, end);
    crate::posix::suffixed(&p, base, suffix)
}

/// The extension of the final component.
pub fn extname(path: &str) -> (r: &str)
    ensures
        r@ == win32_extname(path@),
{
    component_ext_str(basename(path, None))
}

/// Splits a path into root, directory, base, extension and name, all borrowed from the input.
pub fn parse(path: &str) -> (r: ParsedPath<'_>)
    ensures
        r@ == win32_parse(path@),
{
    let p = chars_of(path);
    let n = p.len();
    if n == 0 {
        let e = crate::posix::empty_str();
        let r = PathObject { root: e, dir: e, base: e, ext: e, name: e };
        assert(r@ == empty_object());
        return r;
    }
    let root_end = win_root_len_chars(&p);
    proof {
        lemma_win_root_len_bounds(p@);
        lemma_last_nonsep_bounds(p@, root_end as int, n as int, true);
    }
    let root = slice_chars(path, 0, root_end);
    let end = match find_last_nonsep(&p, root_end, n, true) {
        None => root_end,
        Some(t) => t + 1,
    };
    if end == root_end {
        let e = crate::posix::empty_str();
        return PathObject { root, dir: root, base: e, ext: e, name: e };
    }
    proof {
        lemma_last_sep_bounds(p@, root_end as int, end as int, true);
    }
    let slash = find_last_sep(&p, root_end, end, true);
    let (dir, base_start) = match slash {
        Some(i) => {
            if i + 1 == root_end {
                (root, i + 1)
            } else {
                (slice_chars(path, 0, i), i + 1)
            }
        },
        None => (root, root_end),
    };
    let base = slice_chars(path, base_start, end);
    parsed_fields(root, dir, base)
}

/// Formats a path record with Node field precedence and `\` separators.
pub fn format<S: PathField>(path_object: &PathObject<S>) -> (r: String)
    ensures
        r@ == format_fields(
            path_object.root.field_view(),
            path_object.dir.field_view(),
            path_object.base.field_view(),
            path_object.ext.field_view(),
            path_object.name.field_view(),
            '\\',
        ),
{
    let root = chars_of(path_object.root.as_field_str());
    let dir = chars_of(path_object.dir.as_field_str());
    let base = chars_of(path_object.base.as_field_str());
    let ext = chars_of(path_object.ext.as_field_str());
    let name = chars_of(path_object.name.as_field_str());
    string_of(&format_chars(&root, &dir, &base, &ext, &name, '\\'))
}

/// The cwd seen by Windows operations on the host of `context`.
pub(crate) fn context_cwd(context: &PathContext) -> (r: Vec<char>)
    ensures
        r@ == win32_cwd(context.spec_host(), context.spec_cwd()),
{
    let cwd = chars_of(context.cwd());
    if context.host() == NodeHost::Win32 {
        cwd
    } else {
        slashes_to_backslashes(&cwd)
    }
}

/// The executable resolution state.
struct State {
    device: Vec<char>,
    tail: Vec<char>,
    absolute: bool,
}

impl State {
    spec fn view_state(&self) -> ResolveState {
        ResolveState { device: self.device@, tail: self.tail@, absolute: self.absolute }
    }
}

fn step(st: State, path: &[char]) -> (r: State)
    ensures
        r.view_state() == resolve_step(st.view_state(), path@),
{
    let root = parse_root_chars(path);
    if root.device.len() > 0 && st.device.len() > 0 && !eq_ignore_ascii_case_exec(
        &root.device,
        &st.device,
    ) {
        return st;
    }
    let device = if st.device.len() == 0 {
        root.device
    } else {
        st.device
    };
    let ghost old = st.view_state();
    if !st.absolute {
        let mut tail = sub_chars(path, root.root_end, path.len());
        assert(tail@ =~= path@.skip(root.root_end as int));
        tail.push('\\');
        append_chars(&mut tail, &st.tail);
        assert(tail@ =~= path@.skip(root.root_end as int) + seq!['\\'] + old.tail);
        State { device, tail, absolute: root.absolute }
    } else {
        State { device, tail: st.tail, absolute: st.absolute }
    }
}

/// The directory that completes a resolution on `device`.
fn base_dir(context: &PathContext, device: &Vec<char>) -> (r: Vec<char>)
    ensures
        r@ == resolve_base_dir(
            context.spec_host(),
            context.spec_cwd(),
            context.spec_drives(),
            device@,
        ),
{
    if device.len() == 0 {
        return context_cwd(context);
    }
    let c0: &str = match context.drive_cwd_chars(device.as_slice()) {
        Some(c) => c,
        None => context.cwd(),
    };
    let c0v = chars_of(c0);
    let c = if context.host() == NodeHost::Win32 {
        c0v
    } else {
        slashes_to_backslashes(&c0v)
    };
    let matches_device = c.len() >= 2 && {
        let head = sub_chars(&c, 0, 2);
        assert(head@ =~= c@.take(2));
        eq_ignore_ascii_case_exec(&head, device)
    };
    let cs = string_of(&c);
    let bytes = cs.as_str().as_bytes();
    let third = bytes.len() > 2 && bytes[2] == 92u8;
    if !matches_device && third {
        let mut r: Vec<char> = Vec::new();
        append_chars(&mut r, device);
        r.push('\\');
        r
    } else {
        c
    }
}

/// Resolves the paths right to left against the context, honoring per-drive cwds.
pub fn resolve_with_context(context: &PathContext, paths: &[&str]) -> (r: String)
    ensures
        r@ == win32_resolve(
            context.spec_host(),
            context.spec_cwd(),
            context.spec_drives(),
            views(paths@),
        ),
{
    let ghost ps = views(paths@);
    let mut st = State { device: Vec::new(), tail: Vec::new(), absolute: false };
    assert(st.view_state() == resolve_acc(ps, paths.len() as int)) by {
        assert(st.device@ =~= Seq::<char>::empty());
        assert(st.tail@ =~= Seq::<char>::empty());
    }
    let mut i: usize = paths.len();
    while i > 0
        invariant
            ps == views(paths@),
            i <= paths.len(),
            st.view_state() == resolve_acc(ps, i as int),
        decreases i,
    {
        i = i - 1;
        let path = chars_of(paths[i]);
        let done = st.absolute && st.device.len() > 0;
        if !done && path.len() != 0 {
            st = step(st, &path);
        }
    }
    let cwd = context_cwd(context);
    let lone_dot = paths.len() == 1 && {
        let p0 = chars_of(paths[0]);
        p0.len() == 0 || (p0.len() == 1 && p0[0] == '.')
    };
    proof {
        if paths.len() == 1 {
            assert(ps[0] == paths@[0]@);
            assert(lone_dot == (ps[0].len() == 0 || ps[0] == seq!['.'])) by {
                if ps[0] == seq!['.'] {
                    assert(ps[0].len() == 1 && ps[0][0] == '.');
                }
                if ps[0].len() == 1 && ps[0][0] == '.' {
                    assert(ps[0] =~= seq!['.']);
                }
            }
        }
    }
    let done = st.absolute && st.device.len() > 0;
    if !done && st.device.len() == 0 && (paths.len() == 0 || lone_dot) && cwd.len() > 0
        && is_sep_exec(cwd[0], true) {
        return string_of(&cwd);
    }
    if !done {
        let dir = base_dir(context, &st.device);
        st = step(st, &dir);
    }
    let tail = normalize_string(&st.tail, !st.absolute, true);
    let mut out: Vec<char> = Vec::new();
    append_chars(&mut out, &st.device);
    if st.absolute {
        out.push('\\');
    }
    append_chars(&mut out, &tail);
    if out.len() == 0 {
        out.push('.');
        assert(out@ =~= seq!['.']);
    }
    assert(out@ =~= win32_resolve(
        context.spec_host(),
        context.spec_cwd(),
        context.spec_drives(),
        ps,
    ));
    string_of(&out)
}

/// The index where two component lists stop agreeing under Unicode lower-casing.
fn common_lower_prefix(a: &Vec<Vec<char>>, b: &Vec<Vec<char>>) -> (r: usize)
    ensures
        r == common_lower_from(vviews(a@), vviews(b@), 0),
        r <= a.len() && r <= b.len(),
{
    let mut c: usize = 0;
    while c < a.len() && c < b.len()
        invariant
            c <= a.len() && c <= b.len(),
            common_lower_from(vviews(a@), vviews(b@), 0) == common_lower_from(
                vviews(a@),
                vviews(b@),
                c as int,
            ),
        decreases a.len() - c,
    {
        let x = to_lowercase(string_of(&a[c]).as_str());
        let y = to_lowercase(string_of(&b[c]).as_str());
        let xv = chars_of(x.as_str());
        let yv = chars_of(y.as_str());
        if !chars_eq(&xv, &yv) {
            return c;
        }
        c = c + 1;
    }
    c
}

/// The relative path from `from` to `to`, both resolved against the context; paths on different
/// roots give the resolved `to`.
pub fn relative_with_context(context: &PathContext, from: &str, to: &str) -> (r: String)
    ensures
        r@ == win32_relative(
            context.spec_host(),
            context.spec_cwd(),
            context.spec_drives(),
            from@,
            to@,
        ),
{
    let fv = chars_of(from);
    let tv = chars_of(to);
    if chars_eq(&fv, &tv) {
        return String::new();
    }
    let from_arr: [&str; 1] = [from];
    let to_arr: [&str; 1] = [to];
    let from_r = resolve_with_context(context, &from_arr);
    let to_r = resolve_with_context(context, &to_arr);
    assert(views(from_arr@) =~= seq![from@]);
    assert(views(to_arr@) =~= seq![to@]);
    let f = chars_of(from_r.as_str());
    let t = chars_of(to_r.as_str());
    if eq_ignore_ascii_case_exec(&f, &t) {
        return String::new();
    }
    let fp = split_on(&f, '\\');
    let tp = split_on(&t, '\\');
    let common = common_lower_prefix(&fp, &tp);
    if common == 0 {
        return to_r;
    }
    let parts = relative_parts_exec(fp.len() - common, &tp, common);
    string_of(&join_vecs(&parts, '\\'))
}

/// The long-path (`\\?\`) form of the resolved path; empty input is returned unchanged, as is
/// input whose resolution is at most two bytes long.
pub fn to_namespaced_path_with_context<'a>(context: &PathContext, path: &'a str) -> (r: Cow<
    'a,
    str,
>)
    ensures
        r@ == win32_namespaced(
            context.spec_host(),
            context.spec_cwd(),
            context.spec_drives(),
            path@,
        ),
{
    let p = chars_of(path);
    if p.len() == 0 {
        return Cow::Borrowed(path);
    }
    let arr: [&str; 1] = [path];
    let resolved = resolve_with_context(context, &arr);
    assert(views(arr@) =~= seq![path@]);
    if resolved.as_str().as_bytes().len() <= 2 {
        return Cow::Borrowed(path);
    }
    let r = chars_of(resolved.as_str());
    if r.len() >= 2 && r[0] == '\\' && r[1] == '\\' {
        let stripped = sub_chars(&r, 2, r.len());
        assert(stripped@ =~= r@.skip(2));
        if !(stripped.len() > 0 && (stripped[0] == '?' || stripped[0] == '.')) {
            let mut out: Vec<char> = Vec::new();
            out.push('\\');
            out.push('\\');
            out.push('?');
            out.push('\\');
            out.push('U');
            out.push('N');
            out.push('C');
            out.push('\\');
            append_chars(&mut out, &stripped);
            assert(out@ =~= seq!['\\', '\\', '?', '\\', 'U', 'N', 'C', '\\'] + stripped@);
            return Cow::Owned(string_of(&out));
        }
    } else if r.len() > 2 && is_ascii_alpha_exec(r[0]) && r[1] == ':' && r[2] == '\\' {
        let mut out: Vec<char> = Vec::new();
        out.push('\\');
        out.push('\\');
        out.push('?');
        out.push('\\');
        append_chars(&mut out, &r);
        assert(out@ =~= seq!['\\', '\\', '?', '\\'] + r@);
        return Cow::Owned(string_of(&out));
    }
    Cow::Owned(resolved)
}

/// Deprecated Node alias of [`to_namespaced_path_with_context`].
pub fn _make_long_with_context<'a>(context: &PathContext, path: &'a str) -> (r: Cow<'a, str>)
    ensures
        r@ == win32_namespaced(
            context.spec_host(),
            context.spec_cwd(),
            context.spec_drives(),
            path@,
        ),
{
    to_namespaced_path_with_context(context, path)
}

/// Matches a path against a glob with Node's `matchesGlob` semantics on the context's host.
pub fn matches_glob_with_context(context: &PathContext, path: &str, pattern: &str) -> (r: Result<
    bool,
    GlobError,
>)
    requires
        glob_defined(pattern@),
    ensures
        r == glob_result(true, context.spec_host(), path@, pattern@),
{
    crate::glob::matches(true, context.host(), path, pattern)
}

} // verus!
