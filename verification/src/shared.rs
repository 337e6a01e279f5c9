//! Segment normalization and root recognition shared by the explicit namespaces.

use vstd::prelude::*;
use vstd::string::StringSliceAdditionalSpecFns;

use crate::text::{
    append_chars, ascii_upper, chars_of, is_ascii_alpha, is_ascii_alpha_exec, is_sep, is_sep_exec,
    join_with, last_index_of, last_sep_before, lemma_last_index_bounds, lemma_last_index_is, lemma_last_sep_bounds, lemma_last_sep_is, lemma_skip_nonseps_bounds,
    lemma_skip_seps_bounds, sep_char, skip_nonseps, skip_nonseps_exec, skip_seps, skip_seps_exec,
    slice_chars, sub_chars,
};

verus! {

/// How a single path segment takes part in dot resolution.
#[derive(Clone, Copy, Debug, PartialEq, Eq, Structural)]
pub enum DotSegment {
    Current,
    Parent,
    Other,
}

/// The segment `..`.
pub open spec fn dotdot() -> Seq<char> {
    seq!['.', '.']
}

/// One step of dot resolution: `.` and empty segments vanish, `..` pops the last kept segment
/// (or is kept itself when nothing can be popped and climbing above the root is allowed), and any
/// other segment is pushed.
pub open spec fn dot_step(stack: Seq<Seq<char>>, seg: Seq<char>, above: bool) -> Seq<Seq<char>> {
    if seg == seq!['.'] || seg.len() == 0 {
        stack
    } else if seg == dotdot() {
        if stack.len() > 0 && stack.last() != dotdot() {
            stack.drop_last()
        } else if above {
            stack.push(dotdot())
        } else {
            stack
        }
    } else {
        stack.push(seg)
    }
}

/// The segments that remain after resolving `.` and `..` in `s`, left to right.
pub open spec fn dot_stack(s: Seq<char>, win: bool, above: bool) -> Seq<Seq<char>>
    decreases s.len(),
{
    let k = last_sep_before(s, 0, s.len() as int, win);
    if k < 0 {
        dot_step(Seq::empty(), s, above)
    } else {
        proof {
            lemma_last_sep_bounds(s, 0, s.len() as int, win);
        }
        dot_step(dot_stack(s.take(k), win, above), s.skip(k + 1), above)
    }
}

/// The normalized body of `s`: the remaining segments joined by the namespace separator.
pub open spec fn normalize_body(s: Seq<char>, win: bool, above: bool) -> Seq<char> {
    join_with(dot_stack(s, win, above), sep_char(win))
}

/// The non-empty components of `s`, in order.
pub open spec fn components(s: Seq<char>, win: bool) -> Seq<Seq<char>>
    decreases s.len(),
{
    let k = last_sep_before(s, 0, s.len() as int, win);
    let last = s.skip(k + 1);
    let prev = if k < 0 {
        Seq::<Seq<char>>::empty()
    } else {
        proof {
            lemma_last_sep_bounds(s, 0, s.len() as int, win);
        }
        components(s.take(k), win)
    };
    if last.len() == 0 {
        prev
    } else {
        prev.push(last)
    }
}

/// The non-empty parts of `s` between occurrences of `c`, in order.
pub open spec fn parts_on(s: Seq<char>, c: char) -> Seq<Seq<char>>
    decreases s.len(),
{
    let k = last_index_of(s, s.len() as int, c);
    let last = s.skip(k + 1);
    let prev = if k < 0 {
        Seq::<Seq<char>>::empty()
    } else {
        proof {
            lemma_last_index_bounds(s, s.len() as int, c);
        }
        parts_on(s.take(k), c)
    };
    if last.len() == 0 {
        prev
    } else {
        prev.push(last)
    }
}

/// ASCII upper-casing of a whole sequence.
pub open spec fn upper(s: Seq<char>) -> Seq<char> {
    Seq::new(s.len(), |i: int| ascii_upper(s[i]))
}

/// Windows reserved device names (`CON`, `PRN`, `AUX`, `NUL`, `COM1`..`COM9`, `LPT1`..`LPT9`
/// and the superscript-digit forms of `COM` and `LPT`), compared under ASCII case folding.
pub open spec fn is_reserved_name(s: Seq<char>) -> bool {
    let u = upper(s);
    ||| u == seq!['C', 'O', 'N']
    ||| u == seq!['P', 'R', 'N']
    ||| u == seq!['A', 'U', 'X']
    ||| u == seq!['N', 'U', 'L']
    ||| (u.len() == 4 && (u.take(3) == seq!['C', 'O', 'M'] || u.take(3) == seq!['L', 'P', 'T']) && (
    ('1' <= u[3] && u[3] <= '9') || u[3] == '\u{b9}' || u[3] == '\u{b2}' || u[3] == '\u{b3}'))
}

/// Length, in characters, of the Windows root of `p`: a drive (`C:` or `C:\`), a UNC share
/// (`\\server\share\`), or a single leading separator.
pub open spec fn win_root_len(p: Seq<char>) -> int {
    if p.len() == 0 {
        0
    } else if is_sep(p[0], true) {
        if p.len() < 2 || !is_sep(p[1], true) {
            1
        } else {
            let server_end = skip_nonseps(p, 2, true);
            if server_end == 2 {
                1
            } else {
                let share_start = skip_seps(p, server_end, true);
                let share_end = skip_nonseps(p, share_start, true);
                if share_end == share_start {
                    1
                } else if share_end < p.len() {
                    share_end + 1
                } else {
                    share_end
                }
            }
        }
    } else if p.len() >= 2 && is_ascii_alpha(p[0]) && p[1] == ':' {
        if p.len() > 2 && is_sep(p[2], true) {
            3
        } else {
            2
        }
    } else {
        0
    }
}

pub proof fn lemma_win_root_len_bounds(p: Seq<char>)
    ensures
        0 <= win_root_len(p) <= p.len(),
        p.len() > 0 && is_sep(p[0], true) ==> win_root_len(p) >= 1,
{
    if p.len() >= 2 && is_sep(p[0], true) && is_sep(p[1], true) {
        lemma_skip_nonseps_bounds(p, 2, true);
        let server_end = skip_nonseps(p, 2, true);
        lemma_skip_seps_bounds(p, server_end, true);
        lemma_skip_nonseps_bounds(p, skip_seps(p, server_end, true), true);
    }
}

/// A step of `dot_stack` over the segment `s[start..i]`.
proof fn lemma_dot_stack_step(s: Seq<char>, win: bool, above: bool, start: int, i: int)
    requires
        0 <= start <= i <= s.len(),
        start == 0 || is_sep(s[start - 1], win),
        forall|j: int| start <= j < i ==> !is_sep(#[trigger] s[j], win),
    ensures
        dot_stack(s.take(i), win, above) == dot_step(
            dot_stack(s.take(start), win, above),
            s.subrange(start, i),
            above,
        ),
{
    let t = s.take(i);
    if start == 0 {
        lemma_last_sep_is(t, 0, i, win, -1);
        assert(t.skip(0) =~= s.subrange(0, i));
        let e = s.take(0);
        lemma_last_sep_is(e, 0, 0, win, -1);
        assert(dot_stack(e, win, above) =~= Seq::<Seq<char>>::empty());
    } else {
        lemma_last_sep_is(t, 0, i, win, start - 1);
        assert(t.take(start - 1) =~= s.take(start - 1));
        assert(t.skip(start) =~= s.subrange(start, i));
        let u = s.take(start);
        lemma_last_sep_is(u, 0, start, win, start - 1);
        assert(u.take(start - 1) =~= s.take(start - 1));
        assert(u.skip(start) =~= Seq::<char>::empty());
    }
}

/// Taking one more separator keeps the stack unchanged.
proof fn lemma_dot_stack_sep(s: Seq<char>, win: bool, above: bool, i: int)
    requires
        0 <= i < s.len(),
        is_sep(s[i], win),
    ensures
        dot_stack(s.take(i + 1), win, above) == dot_stack(s.take(i), win, above),
{
    let t = s.take(i + 1);
    lemma_last_sep_is(t, 0, i + 1, win, i);
    assert(t.take(i) =~= s.take(i));
    assert(t.skip(i + 1) =~= Seq::<char>::empty());
}

pub proof fn lemma_join_with_push(parts: Seq<Seq<char>>, p: Seq<char>, c: char)
    ensures
        join_with(parts.push(p), c) == if parts.len() == 0 {
            p
        } else {
            join_with(parts, c) + seq![c] + p
        },
{
    assert(parts.push(p).drop_last() =~= parts);
}

/// Classifies a segment as `.`, `..`, or anything else.
pub fn dot_segment(value: &str) -> (r: DotSegment)
    ensures
        r == (if value@ == seq!['.'] {
            DotSegment::Current
        } else if value@ == dotdot() {
            DotSegment::Parent
        } else {
            DotSegment::Other
        }),
{
    let v = chars_of(value);
    dot_segment_chars(&v)
}

fn dot_segment_chars(v: &[char]) -> (r: DotSegment)
    ensures
        r == (if v@ == seq!['.'] {
            DotSegment::Current
        } else if v@ == dotdot() {
            DotSegment::Parent
        } else {
            DotSegment::Other
        }),
{
    if v.len() == 1 && v[0] == '.' {
        assert(v@ =~= seq!['.']);
        DotSegment::Current
    } else if v.len() == 2 && v[0] == '.' && v[1] == '.' {
        assert(v@ =~= dotdot());
        DotSegment::Parent
    } else {
        assert(v@ != seq!['.'] && v@ != dotdot()) by {
            if v@ == seq!['.'] {
                assert(v@[0] == '.');
            }
            if v@ == dotdot() {
                assert(v@[0] == '.' && v@[1] == '.');
            }
        }
        DotSegment::Other
    }
}

/// Whether a byte is the POSIX separator.
pub fn is_posix_separator(byte: u8) -> (r: bool)
    ensures
        r == (byte == 47),
{
    byte == 47
}

/// Whether a byte is a Windows separator (`/` or `\`).
pub fn is_win32_separator(byte: u8) -> (r: bool)
    ensures
        r == (byte == 47 || byte == 92),
{
    byte == 47 || byte == 92
}

/// Whether a character is an ASCII letter, the only characters that name a drive.
pub fn is_windows_device_root(c: char) -> (r: bool)
    ensures
        r == is_ascii_alpha(c),
{
    is_ascii_alpha_exec(c)
}

/// The views of a list of character vectors.
pub open spec fn vviews(v: Seq<Vec<char>>) -> Seq<Seq<char>> {
    Seq::new(v.len(), |i: int| v[i]@)
}

/// Applies `dot_step` to an executable stack.
fn apply_segment(stack: &mut Vec<Vec<char>>, seg: Vec<char>, above: bool)
    ensures
        vviews(final(stack)@) == dot_step(vviews(old(stack)@), seg@, above),
{
    let ghost before = vviews(stack@);
    let kind = dot_segment_chars(&seg);
    match kind {
        DotSegment::Current => {},
        DotSegment::Parent => {
            let n = stack.len();
            if n > 0 && !(stack[n - 1].len() == 2 && stack[n - 1][0] == '.' && stack[n - 1][1]
                == '.') {
                assert(before.last() != dotdot()) by {
                    if before.last() == dotdot() {
                        assert(stack@[n - 1]@ == dotdot());
                        assert(stack@[n - 1]@[0] == '.');
                    }
                }
                stack.pop();
                assert(vviews(stack@) =~= before.drop_last());
            } else {
                if n > 0 {
                    assert(stack@[n - 1]@ =~= dotdot());
                    assert(before.last() == dotdot());
                }
                if above {
                    let mut d: Vec<char> = Vec::new();
                    d.push('.');
                    d.push('.');
                    assert(d@ =~= dotdot());
                    stack.push(d);
                    assert(vviews(stack@) =~= before.push(dotdot()));
                }
            }
        },
        DotSegment::Other => {
            if seg.len() != 0 {
                let ghost sv = seg@;
                stack.push(seg);
                assert(vviews(stack@) =~= before.push(sv));
            }
        },
    }
}

/// Resolves `.` and `..` in `path` and joins the kept segments with the namespace separator.
pub fn normalize_string(path: &[char], allow_above_root: bool, win: bool) -> (r: Vec<char>)
    ensures
        r@ == normalize_body(path@, win, allow_above_root),
{
    let ghost s = path@;
    let mut stack: Vec<Vec<char>> = Vec::new();
    let mut start: usize = 0;
    let mut index: usize = 0;
    assert(s.take(0) =~= Seq::<char>::empty());
    assert(vviews(stack@) =~= dot_stack(s.take(0), win, allow_above_root)) by {
        lemma_last_sep_is(s.take(0), 0, 0, win, -1);
    }
    while index < path.len()
        invariant
            s == path@,
            start <= index <= path.len(),
            start == 0 || is_sep(s[start - 1], win),
            forall|j: int| start <= j < index ==> !is_sep(#[trigger] s[j], win),
            vviews(stack@) == dot_stack(s.take(start as int), win, allow_above_root),
        decreases path.len() - index,
    {
        if !is_sep_exec(path[index], win) {
            index = index + 1;
            continue;
        }
        proof {
            lemma_dot_stack_step(s, win, allow_above_root, start as int, index as int);
            lemma_dot_stack_sep(s, win, allow_above_root, index as int);
        }
        let seg = sub_chars(path, start, index);
        apply_segment(&mut stack, seg, allow_above_root);
        start = index + 1;
        index = index + 1;
    }
    proof {
        lemma_dot_stack_step(s, win, allow_above_root, start as int, index as int);
        assert(s.take(index as int) =~= s);
    }
    let seg = sub_chars(path, start, index);
    apply_segment(&mut stack, seg, allow_above_root);
    let sep = if win {
        '\\'
    } else {
        '/'
    };
    join_vecs(&stack, sep)
}

/// The parts joined with `sep` between consecutive parts.
pub(crate) fn join_vecs(parts: &Vec<Vec<char>>, sep: char) -> (r: Vec<char>)
    ensures
        r@ == join_with(vviews(parts@), sep),
{
    let mut out: Vec<char> = Vec::new();
    let mut k: usize = 0;
    let ghost ps = vviews(parts@);
    while k < parts.len()
        invariant
            ps == vviews(parts@),
            k <= parts.len(),
            out@ == join_with(ps.take(k as int), sep),
        decreases parts.len() - k,
    {
        proof {
            lemma_join_with_push(ps.take(k as int), ps[k as int], sep);
            assert(ps.take(k as int).push(ps[k as int]) =~= ps.take(k + 1));
        }
        if k != 0 {
            out.push(sep);
        }
        append_chars(&mut out, parts[k].as_slice());
        proof {
            if k == 0 {
                assert(out@ =~= ps[0]);
            } else {
                assert(out@ =~= join_with(ps.take(k as int), sep) + seq![sep] + ps[k as int]);
            }
        }
        k = k + 1;
    }
    assert(ps.take(parts.len() as int) =~= ps);
    out
}

/// A step of `components` over the segment `s[start..i]`.
proof fn lemma_components_step(s: Seq<char>, win: bool, start: int, i: int)
    requires
        0 <= start <= i <= s.len(),
        start == 0 || is_sep(s[start - 1], win),
        forall|j: int| start <= j < i ==> !is_sep(#[trigger] s[j], win),
    ensures
        components(s.take(i), win) == ({
            let prev = components(s.take(start), win);
            let seg = s.subrange(start, i);
            if seg.len() == 0 {
                prev
            } else {
                prev.push(seg)
            }
        }),
{
    let t = s.take(i);
    if start == 0 {
        lemma_last_sep_is(t, 0, i, win, -1);
        assert(t.skip(0) =~= s.subrange(0, i));
        let e = s.take(0);
        lemma_last_sep_is(e, 0, 0, win, -1);
        assert(e.skip(0) =~= e);
        assert(components(e, win) =~= Seq::<Seq<char>>::empty());
    } else {
        lemma_last_sep_is(t, 0, i, win, start - 1);
        assert(t.take(start - 1) =~= s.take(start - 1));
        assert(t.skip(start) =~= s.subrange(start, i));
        let u = s.take(start);
        lemma_last_sep_is(u, 0, start, win, start - 1);
        assert(u.take(start - 1) =~= s.take(start - 1));
        assert(u.skip(start) =~= Seq::<char>::empty());
    }
}

proof fn lemma_components_sep(s: Seq<char>, win: bool, i: int)
    requires
        0 <= i < s.len(),
        is_sep(s[i], win),
    ensures
        components(s.take(i + 1), win) == components(s.take(i), win),
{
    let t = s.take(i + 1);
    lemma_last_sep_is(t, 0, i + 1, win, i);
    assert(t.take(i) =~= s.take(i));
    assert(t.skip(i + 1) =~= Seq::<char>::empty());
}

proof fn lemma_parts_on_step(s: Seq<char>, c: char, start: int, i: int)
    requires
        0 <= start <= i <= s.len(),
        start == 0 || s[start - 1] == c,
        forall|j: int| start <= j < i ==> #[trigger] s[j] != c,
    ensures
        parts_on(s.take(i), c) == ({
            let prev = parts_on(s.take(start), c);
            let seg = s.subrange(start, i);
            if seg.len() == 0 {
                prev
            } else {
                prev.push(seg)
            }
        }),
{
    let t = s.take(i);
    if start == 0 {
        lemma_last_index_is(t, i, c, -1);
        assert(t.skip(0) =~= s.subrange(0, i));
        let e = s.take(0);
        lemma_last_index_is(e, 0, c, -1);
        assert(e.skip(0) =~= e);
        assert(parts_on(e, c) =~= Seq::<Seq<char>>::empty());
    } else {
        lemma_last_index_is(t, i, c, start - 1);
        assert(t.take(start - 1) =~= s.take(start - 1));
        assert(t.skip(start) =~= s.subrange(start, i));
        let u = s.take(start);
        lemma_last_index_is(u, start, c, start - 1);
        assert(u.take(start - 1) =~= s.take(start - 1));
        assert(u.skip(start) =~= Seq::<char>::empty());
    }
}

proof fn lemma_parts_on_sep(s: Seq<char>, c: char, i: int)
    requires
        0 <= i < s.len(),
        s[i] == c,
    ensures
        parts_on(s.take(i + 1), c) == parts_on(s.take(i), c),
{
    let t = s.take(i + 1);
    lemma_last_index_is(t, i + 1, c, i);
    assert(t.take(i) =~= s.take(i));
    assert(t.skip(i + 1) =~= Seq::<char>::empty());
}

/// The non-empty parts of `s` between occurrences of `c`.
pub(crate) fn split_on(s: &[char], c: char) -> (r: Vec<Vec<char>>)
    ensures
        vviews(r@) == parts_on(s@, c),
{
    let ghost sv = s@;
    let mut parts: Vec<Vec<char>> = Vec::new();
    let mut start: usize = 0;
    let mut index: usize = 0;
    assert(vviews(parts@) =~= parts_on(sv.take(0), c)) by {
        lemma_last_index_is(sv.take(0), 0, c, -1);
        assert(sv.take(0).skip(0) =~= sv.take(0));
    }
    while index < s.len()
        invariant
            sv == s@,
            start <= index <= s.len(),
            start == 0 || sv[start - 1] == c,
            forall|j: int| start <= j < index ==> #[trigger] sv[j] != c,
            vviews(parts@) == parts_on(sv.take(start as int), c),
        decreases s.len() - index,
    {
        if s[index] != c {
            index = index + 1;
            continue;
        }
        proof {
            lemma_parts_on_step(sv, c, start as int, index as int);
            lemma_parts_on_sep(sv, c, index as int);
        }
        if index > start {
            let seg = sub_chars(s, start, index);
            let ghost before = vviews(parts@);
            parts.push(seg);
            assert(vviews(parts@) =~= before.push(sv.subrange(start as int, index as int)));
        }
        start = index + 1;
        index = index + 1;
    }
    proof {
        lemma_parts_on_step(sv, c, start as int, index as int);
        assert(sv.take(index as int) =~= sv);
    }
    if index > start {
        let seg = sub_chars(s, start, index);
        let ghost before = vviews(parts@);
        parts.push(seg);
        assert(vviews(parts@) =~= before.push(sv.subrange(start as int, index as int)));
    }
    parts
}

/// The non-empty components of `s`.
pub(crate) fn split_components(s: &[char], win: bool) -> (r: Vec<Vec<char>>)
    ensures
        vviews(r@) == components(s@, win),
{
    let ghost sv = s@;
    let mut parts: Vec<Vec<char>> = Vec::new();
    let mut start: usize = 0;
    let mut index: usize = 0;
    assert(vviews(parts@) =~= components(sv.take(0), win)) by {
        lemma_last_sep_is(sv.take(0), 0, 0, win, -1);
        assert(sv.take(0).skip(0) =~= sv.take(0));
    }
    while index < s.len()
        invariant
            sv == s@,
            start <= index <= s.len(),
            start == 0 || is_sep(sv[start - 1], win),
            forall|j: int| start <= j < index ==> !is_sep(#[trigger] sv[j], win),
            vviews(parts@) == components(sv.take(start as int), win),
        decreases s.len() - index,
    {
        if !is_sep_exec(s[index], win) {
            index = index + 1;
            continue;
        }
        proof {
            lemma_components_step(sv, win, start as int, index as int);
            lemma_components_sep(sv, win, index as int);
        }
        if index > start {
            let seg = sub_chars(s, start, index);
            let ghost before = vviews(parts@);
            parts.push(seg);
            assert(vviews(parts@) =~= before.push(sv.subrange(start as int, index as int)));
        }
        start = index + 1;
        index = index + 1;
    }
    proof {
        lemma_components_step(sv, win, start as int, index as int);
        assert(sv.take(index as int) =~= sv);
    }
    if index > start {
        let seg = sub_chars(s, start, index);
        let ghost before = vviews(parts@);
        parts.push(seg);
        assert(vviews(parts@) =~= before.push(sv.subrange(start as int, index as int)));
    }
    parts
}

/// Length of the Windows root of a character sequence.
pub(crate) fn win_root_len_chars(p: &[char]) -> (r: usize)
    ensures
        r == win_root_len(p@),
{
    let n = p.len();
    if n == 0 {
        return 0;
    }
    if is_sep_exec(p[0], true) {
        if n < 2 || !is_sep_exec(p[1], true) {
            return 1;
        }
        let server_end = skip_nonseps_exec(p, 2, true);
        if server_end == 2 {
            return 1;
        }
        proof {
            lemma_skip_nonseps_bounds(p@, 2, true);
        }
        let share_start = skip_seps_exec(p, server_end, true);
        proof {
            lemma_skip_seps_bounds(p@, server_end as int, true);
        }
        let share_end = skip_nonseps_exec(p, share_start, true);
        proof {
            lemma_skip_nonseps_bounds(p@, share_start as int, true);
        }
        if share_end == share_start {
            return 1;
        }
        return if share_end < n {
            share_end + 1
        } else {
            share_end
        };
    }
    if n >= 2 && is_ascii_alpha_exec(p[0]) && p[1] == ':' {
        if n > 2 && is_sep_exec(p[2], true) {
            3
        } else {
            2
        }
    } else {
        0
    }
}

/// Length in UTF-8 bytes of the Windows root of `path`.
pub fn win32_root_len(path: &str) -> (r: usize)
    ensures
        r == vstd::utf8::encode_utf8(path@.take(win_root_len(path@))).len() as usize,
{
    let p = chars_of(path);
    let k = win_root_len_chars(&p);
    proof {
        lemma_win_root_len_bounds(path@);
    }
    let root = slice_chars(path, 0, k);
    assert(root@ =~= path@.take(k as int));
    root.len()
}

/// Whether `v` is a Windows reserved device name.
pub(crate) fn is_reserved_name_chars(v: &[char]) -> (r: bool)
    ensures
        r == is_reserved_name(v@),
{
    let n = v.len();
    if n != 3 && n != 4 {
        assert(!is_reserved_name(v@)) by {
            assert(upper(v@).len() == n);
        }
        return false;
    }
    let mut u: Vec<char> = Vec::new();
    let mut i: usize = 0;
    while i < n
        invariant
            n == v@.len(),
            i <= n,
            u@ =~= upper(v@).take(i as int),
        decreases n - i,
    {
        let c = v[i];
        let d = if 'a' <= c && c <= 'z' {
            (((c as u32) - 32) as u8) as char
        } else {
            c
        };
        assert(d == ascii_upper(c));
        u.push(d);
        i = i + 1;
    }
    assert(u@ =~= upper(v@));
    let r = if n == 3 {
        (u[0] == 'C' && u[1] == 'O' && u[2] == 'N') || (u[0] == 'P' && u[1] == 'R' && u[2] == 'N')
            || (u[0] == 'A' && u[1] == 'U' && u[2] == 'X') || (u[0] == 'N' && u[1] == 'U' && u[2]
            == 'L')
    } else {
        let head = (u[0] == 'C' && u[1] == 'O' && u[2] == 'M') || (u[0] == 'L' && u[1] == 'P'
            && u[2] == 'T');
        let d = u[3];
        head && (('1' <= d && d <= '9') || d == '\u{b9}' || d == '\u{b2}' || d == '\u{b3}')
    };
    proof {
        let w = upper(v@);
        if n == 3 {
            assert(w.len() == 3);
            assert(seq!['C', 'O', 'N'].len() == 3);
            if r {
                if u[0] == 'C' && u[1] == 'O' && u[2] == 'N' {
                    assert(w =~= seq!['C', 'O', 'N']);
                } else if u[0] == 'P' && u[1] == 'R' && u[2] == 'N' {
                    assert(w =~= seq!['P', 'R', 'N']);
                } else if u[0] == 'A' && u[1] == 'U' && u[2] == 'X' {
                    assert(w =~= seq!['A', 'U', 'X']);
                } else {
                    assert(w =~= seq!['N', 'U', 'L']);
                }
            } else {
                assert(w != seq!['C', 'O', 'N'] && w != seq!['P', 'R', 'N'] && w != seq!['A', 'U', 'X']
                    && w != seq!['N', 'U', 'L']) by {
                    if w == seq!['C', 'O', 'N'] {
                        assert(w[0] == 'C' && w[1] == 'O' && w[2] == 'N');
                    }
                    if w == seq!['P', 'R', 'N'] {
                        assert(w[0] == 'P' && w[1] == 'R' && w[2] == 'N');
                    }
                    if w == seq!['A', 'U', 'X'] {
                        assert(w[0] == 'A' && w[1] == 'U' && w[2] == 'X');
                    }
                    if w == seq!['N', 'U', 'L'] {
                        assert(w[0] == 'N' && w[1] == 'U' && w[2] == 'L');
                    }
                }
            }
        } else {
            assert(w.len() == 4);
            let t = w.take(3);
            if u[0] == 'C' && u[1] == 'O' && u[2] == 'M' {
                assert(t =~= seq!['C', 'O', 'M']);
            } else if u[0] == 'L' && u[1] == 'P' && u[2] == 'T' {
                assert(t =~= seq!['L', 'P', 'T']);
            } else {
                assert(t != seq!['C', 'O', 'M'] && t != seq!['L', 'P', 'T']) by {
                    if t == seq!['C', 'O', 'M'] {
                        assert(t[0] == 'C' && t[1] == 'O' && t[2] == 'M');
                    }
                    if t == seq!['L', 'P', 'T'] {
                        assert(t[0] == 'L' && t[1] == 'P' && t[2] == 'T');
                    }
                }
            }
            assert(w != seq!['C', 'O', 'N'] && w != seq!['P', 'R', 'N'] && w != seq!['A', 'U', 'X']
                && w != seq!['N', 'U', 'L']) by {
                assert(seq!['C', 'O', 'N'].len() == 3);
                assert(seq!['P', 'R', 'N'].len() == 3);
                assert(seq!['A', 'U', 'X'].len() == 3);
                assert(seq!['N', 'U', 'L'].len() == 3);
            }
        }
    }
    r
}

/// Whether `value` is a Windows reserved device name.
pub fn is_windows_reserved_name(value: &str) -> (r: bool)
    ensures
        r == is_reserved_name(value@),
{
    let v = chars_of(value);
    is_reserved_name_chars(&v)
}

/// `&value[start..end]` (std's range indexing of `str`): claimed to return the bytes between the
/// two offsets, which the `requires` makes character boundaries, so the indexing does not panic.
#[verifier::external_body]
fn str_byte_range(value: &str, start: usize, end: usize) -> (r: &str)
    requires
        start <= end <= value.spec_bytes().len(),
        vstd::utf8::is_char_boundary(value.spec_bytes(), start as int),
        vstd::utf8::is_char_boundary(value.spec_bytes(), end as int),
    ensures
        r.spec_bytes() == value.spec_bytes().subrange(start as int, end as int),
{
    &value[start..end]
}

/// The substring of `value` between two UTF-8 byte offsets that fall on character boundaries.
pub fn slice(value: &str, start: usize, end: usize) -> (r: &str)
    requires
        start <= end <= value.spec_bytes().len(),
        vstd::utf8::is_char_boundary(value.spec_bytes(), start as int),
        vstd::utf8::is_char_boundary(value.spec_bytes(), end as int),
    ensures
        r.spec_bytes() == value.spec_bytes().subrange(start as int, end as int),
{
    str_byte_range(value, start, end)
}

/// Sum of lengths, saturating at `usize::MAX`.
pub fn sum_capacity(lengths: &[usize]) -> (r: usize)
    ensures
        r == if sum_of(lengths@) > usize::MAX {
            usize::MAX as int
        } else {
            sum_of(lengths@)
        },
{
    let mut total: usize = 0;
    let mut i: usize = 0;
    while i < lengths.len()
        invariant
            i <= lengths.len(),
            total == if sum_of(lengths@.take(i as int)) > usize::MAX {
                usize::MAX as int
            } else {
                sum_of(lengths@.take(i as int))
            },
        decreases lengths.len() - i,
    {
        assert(lengths@.take(i + 1).drop_last() =~= lengths@.take(i as int));
        proof {
            lemma_sum_of_nonneg(lengths@.take(i as int));
        }
        total = total.saturating_add(lengths[i]);
        i = i + 1;
    }
    assert(lengths@.take(lengths.len() as int) =~= lengths@);
    total
}

/// The mathematical sum of a list of lengths.
pub open spec fn sum_of(xs: Seq<usize>) -> int
    decreases xs.len(),
{
    if xs.len() == 0 {
        0
    } else {
        sum_of(xs.drop_last()) + xs.last()
    }
}

proof fn lemma_sum_of_nonneg(xs: Seq<usize>)
    ensures
        sum_of(xs) >= 0,
    decreases xs.len(),
{
    if xs.len() > 0 {
        lemma_sum_of_nonneg(xs.drop_last());
    }
}

} // verus!
