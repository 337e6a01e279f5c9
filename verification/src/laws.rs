//! Properties that relate several operations of the library.

use vstd::prelude::*;

use crate::context::NodeHost;
use crate::glob::minimatch::{compile, compile_from, is_glob_sep, literal, no_dot, not_sep_re};
use crate::glob::brace::{expand, expand_alts, expand_into, Expansion, MAX_EXPANSIONS};
use crate::posix::{
    posix_dirname,
    common_from, component_ext, format_fields, parents, posix_basename, posix_cwd, posix_extname,
    posix_join, posix_normalize, posix_parse, posix_relative, posix_resolve, posix_resolve_acc,
    resolve_returns_cwd,
};
use crate::shared::{
    parts_on,
    components, dot_stack, dot_step, dotdot, lemma_win_root_len_bounds, normalize_body, win_root_len,
};
use crate::win32::{
    common_lower_from, win32_relative, resolve_acc, resolve_done, resolve_step, win32_basename, win32_dirname, win32_resolve,
    lemma_parse_root_bounds, lemma_parse_root_namespace, namespace_prefix, namespace_root,
    normalize_root, parse_root, starts_with_reserved_device, two_backslashes, win32_normalize,
    win32_parse,
};
use crate::text::{
    first_index_of, has_char, is_sep, join_with, last_index_of, last_nonsep_before,
    last_sep_before, lemma_first_index_has, lemma_last_index_bounds, lemma_last_nonsep_bounds,
    lemma_last_sep_bounds, lemma_last_sep_is, lemma_skip_nonseps_bounds, lemma_skip_seps_bounds,
    sep_char, skip_nonseps, skip_seps,
};

verus! {

/// A segment that can stand in a resolved stack: non-empty, free of separators and not `.`.
pub open spec fn kept_segment(seg: Seq<char>, win: bool) -> bool {
    &&& seg.len() > 0
    &&& seg != seq!['.']
    &&& forall|j: int| 0 <= j < seg.len() ==> !is_sep(#[trigger] seg[j], win)
}

/// A stack as dot resolution leaves it: kept segments only, every `..` before every other
/// segment, and no `..` at all when climbing above the root is not allowed.
pub open spec fn clean_stack(st: Seq<Seq<char>>, win: bool, above: bool) -> bool {
    &&& forall|i: int| 0 <= i < st.len() ==> kept_segment(#[trigger] st[i], win)
    &&& forall|i: int, j: int|
        0 <= i < j < st.len() && #[trigger] st[j] == dotdot() ==> #[trigger] st[i] == dotdot()
    &&& !above ==> forall|i: int| 0 <= i < st.len() ==> #[trigger] st[i] != dotdot()
}

proof fn lemma_dot_step_clean(st: Seq<Seq<char>>, seg: Seq<char>, win: bool, above: bool)
    requires
        clean_stack(st, win, above),
        forall|j: int| 0 <= j < seg.len() ==> !is_sep(#[trigger] seg[j], win),
    ensures
        clean_stack(dot_step(st, seg, above), win, above),
{
    let r = dot_step(st, seg, above);
    if seg == seq!['.'] || seg.len() == 0 {
    } else if seg == dotdot() {
        if st.len() > 0 && st.last() != dotdot() {
            assert forall|i: int, j: int|
                0 <= i < j < r.len() && #[trigger] r[j] == dotdot() implies #[trigger] r[i]
                == dotdot() by {
                assert(r[j] == st[j] && r[i] == st[i]);
            }
        } else if above {
            assert forall|i: int| 0 <= i < r.len() implies kept_segment(#[trigger] r[i], win) by {
                if i < st.len() {
                    assert(r[i] == st[i]);
                } else {
                    assert(r[i] == dotdot());
                }
            }
            assert forall|i: int, j: int|
                0 <= i < j < r.len() && #[trigger] r[j] == dotdot() implies #[trigger] r[i]
                == dotdot() by {
                assert(r[i] == st[i]);
                if j < st.len() {
                    assert(r[j] == st[j]);
                } else {
                    assert(st[st.len() - 1] == dotdot());
                    if i < st.len() - 1 {
                        assert(st[i] == dotdot());
                    }
                }
            }
        }
    } else {
        assert forall|i: int| 0 <= i < r.len() implies kept_segment(#[trigger] r[i], win) by {
            if i < st.len() {
                assert(r[i] == st[i]);
            }
        }
        assert forall|i: int, j: int|
            0 <= i < j < r.len() && #[trigger] r[j] == dotdot() implies #[trigger] r[i]
            == dotdot() by {
            assert(r[i] == st[i]);
            assert(r[j] == st[j]);
        }
        assert forall|i: int| !above && 0 <= i < r.len() implies #[trigger] r[i] != dotdot() by {
            if i < st.len() {
                assert(r[i] == st[i]);
            }
        }
    }
}

/// Dot resolution always leaves a clean stack.
pub proof fn lemma_dot_stack_clean(s: Seq<char>, win: bool, above: bool)
    ensures
        clean_stack(dot_stack(s, win, above), win, above),
    decreases s.len(),
{
    let k = last_sep_before(s, 0, s.len() as int, win);
    lemma_last_sep_bounds(s, 0, s.len() as int, win);
    let seg = s.skip(k + 1);
    assert forall|j: int| 0 <= j < seg.len() implies !is_sep(#[trigger] seg[j], win) by {
        assert(seg[j] == s[k + 1 + j]);
    }
    if k < 0 {
        lemma_dot_step_clean(Seq::empty(), seg, win, above);
        assert(seg =~= s);
    } else {
        lemma_dot_stack_clean(s.take(k), win, above);
        lemma_dot_step_clean(dot_stack(s.take(k), win, above), seg, win, above);
    }
}

/// Resolving `x`, a separator and a separator-free segment is one step after resolving `x`.
proof fn lemma_dot_stack_append(x: Seq<char>, c: char, seg: Seq<char>, win: bool, above: bool)
    requires
        is_sep(c, win),
        forall|j: int| 0 <= j < seg.len() ==> !is_sep(#[trigger] seg[j], win),
    ensures
        dot_stack(x + seq![c] + seg, win, above) == dot_step(dot_stack(x, win, above), seg, above),
{
    let s = x + seq![c] + seg;
    let k = x.len() as int;
    assert forall|j: int| k < j < s.len() implies !is_sep(#[trigger] s[j], win) by {
        assert(s[j] == seg[j - k - 1]);
    }
    lemma_last_sep_is(s, 0, s.len() as int, win, k);
    assert(s.take(k) =~= x);
    assert(s.skip(k + 1) =~= seg);
}

/// A separator-free segment resolves in one step from the empty stack.
proof fn lemma_dot_stack_single(seg: Seq<char>, win: bool, above: bool)
    requires
        forall|j: int| 0 <= j < seg.len() ==> !is_sep(#[trigger] seg[j], win),
    ensures
        dot_stack(seg, win, above) == dot_step(Seq::empty(), seg, above),
{
    lemma_last_sep_is(seg, 0, seg.len() as int, win, -1);
    assert(seg.skip(0) =~= seg);
}

/// Resolving a clean stack written out again, with or without a leading separator, gives the
/// same stack back.
pub proof fn lemma_dot_stack_of_joined(st: Seq<Seq<char>>, pre: Seq<char>, win: bool, above: bool)
    requires
        clean_stack(st, win, above),
        pre.len() == 0 || (pre.len() == 1 && is_sep(pre[0], win)),
    ensures
        dot_stack(pre + join_with(st, sep_char(win)), win, above) == st,
    decreases st.len(),
{
    let c = sep_char(win);
    let e = Seq::<char>::empty();
    lemma_dot_stack_single(e, win, above);
    if st.len() == 0 {
        assert(pre + join_with(st, c) =~= pre);
        if pre.len() == 1 {
            lemma_dot_stack_append(e, pre[0], e, win, above);
            assert(e + seq![pre[0]] + e =~= pre);
        }
    } else {
        let t = st.drop_last();
        let p = st.last();
        assert(kept_segment(st[st.len() - 1], win));
        assert(clean_stack(t, win, above)) by {
            assert forall|i: int| 0 <= i < t.len() implies kept_segment(#[trigger] t[i], win) by {
                assert(t[i] == st[i]);
            }
            assert forall|i: int, j: int|
                0 <= i < j < t.len() && #[trigger] t[j] == dotdot() implies #[trigger] t[i]
                == dotdot() by {
                assert(t[i] == st[i] && t[j] == st[j]);
            }
            assert forall|i: int| !above && 0 <= i < t.len() implies #[trigger] t[i]
                != dotdot() by {
                assert(t[i] == st[i]);
            }
        }
        if t.len() == 0 {
            assert(join_with(st, c) == p);
            if pre.len() == 0 {
                assert(pre + p =~= p);
                lemma_dot_stack_single(p, win, above);
            } else {
                lemma_dot_stack_append(e, pre[0], p, win, above);
                assert(e + seq![pre[0]] + p =~= pre + join_with(st, c));
            }
            assert(dot_step(Seq::empty(), p, above) =~= st);
        } else {
            lemma_dot_stack_of_joined(t, pre, win, above);
            assert(join_with(st, c) == join_with(t, c) + seq![c] + p);
            assert(pre + join_with(st, c) =~= (pre + join_with(t, c)) + seq![c] + p);
            lemma_dot_stack_append(pre + join_with(t, c), c, p, win, above);
            if p == dotdot() {
                assert(st[t.len() - 1] == dotdot());
            }
            assert(dot_step(t, p, above) =~= st);
        }
    }
}

/// A trailing separator does not change dot resolution.
proof fn lemma_dot_stack_trailing(x: Seq<char>, c: char, win: bool, above: bool)
    requires
        is_sep(c, win),
    ensures
        dot_stack(x + seq![c], win, above) == dot_stack(x, win, above),
{
    let e = Seq::<char>::empty();
    lemma_dot_stack_append(x, c, e, win, above);
    assert(x + seq![c] + e =~= x + seq![c]);
}

/// The first and last characters of a non-empty joined stack of kept segments.
proof fn lemma_join_ends(st: Seq<Seq<char>>, win: bool)
    requires
        st.len() > 0,
        forall|i: int| 0 <= i < st.len() ==> kept_segment(#[trigger] st[i], win),
    ensures
        join_with(st, sep_char(win)).len() > 0,
        !is_sep(join_with(st, sep_char(win))[0], win),
        !is_sep(join_with(st, sep_char(win)).last(), win),
    decreases st.len(),
{
    let c = sep_char(win);
    assert(kept_segment(st[0], win));
    assert(kept_segment(st[st.len() - 1], win));
    assert(!is_sep(st[0][0], win));
    assert(!is_sep(st.last()[st.last().len() - 1], win));
    if st.len() > 1 {
        let t = st.drop_last();
        assert forall|i: int| 0 <= i < t.len() implies kept_segment(#[trigger] t[i], win) by {
            assert(t[i] == st[i]);
        }
        lemma_join_ends(t, win);
        assert(t[0] == st[0]);
        let j = join_with(st, c);
        assert(j == join_with(t, c) + seq![c] + st.last());
        assert(j[0] == join_with(t, c)[0]);
        assert(j.last() == st.last().last());
    }
}

/// POSIX normalization is idempotent: normalizing a normalized path changes nothing.
pub proof fn posix_normalize_idempotent(p: Seq<char>)
    ensures
        posix_normalize(posix_normalize(p)) == posix_normalize(p),
{
    let n = posix_normalize(p);
    let e = Seq::<char>::empty();
    if p.len() == 0 || normalize_body(p, false, !(p[0] == '/')).len() == 0 {
        lemma_dot_stack_single(seq!['.'], false, true);
        lemma_dot_stack_single(seq!['.'], false, false);
        lemma_dot_stack_trailing(seq!['.'], '/', false, true);
        lemma_dot_stack_trailing(e, '/', false, false);
        lemma_dot_stack_single(e, false, false);
        assert(e + seq!['/'] =~= seq!['/']);
        assert(seq!['.'] + seq!['/'] =~= seq!['.', '/']);
        assert(dot_stack(n, false, !(n[0] == '/')) =~= Seq::<Seq<char>>::empty());
    } else {
        let absolute = p[0] == '/';
        let trailing = p.last() == '/';
        let st = dot_stack(p, false, !absolute);
        let body = normalize_body(p, false, !absolute);
        lemma_dot_stack_clean(p, false, !absolute);
        lemma_join_ends(st, false);
        let pre = if absolute { seq!['/'] } else { e };
        let post = if trailing { seq!['/'] } else { e };
        assert(n =~= pre + body + post);
        assert(n[0] == '/' <==> absolute);
        assert(n.last() == '/' <==> trailing);
        lemma_dot_stack_of_joined(st, pre, false, !absolute);
        if trailing {
            lemma_dot_stack_trailing(pre + body, '/', false, !absolute);
        } else {
            assert(pre + body + post =~= pre + body);
        }
        assert(dot_stack(n, false, !absolute) == st);
    }
}

/// The result of `join` is already normalized.
pub proof fn posix_join_is_normalized(ps: Seq<Seq<char>>)
    ensures
        posix_normalize(posix_join(ps)) == posix_join(ps),
{
    posix_normalize_idempotent(Seq::empty());
    posix_normalize_idempotent(crate::posix::join_nonempty(ps, '/'));
}

/// Dot resolution of the segments `segs`, one after the other, starting from `st`.
pub open spec fn dot_steps(st: Seq<Seq<char>>, segs: Seq<Seq<char>>, above: bool) -> Seq<Seq<char>>
    decreases segs.len(),
{
    if segs.len() == 0 {
        st
    } else {
        dot_step(dot_steps(st, segs.drop_last(), above), segs.last(), above)
    }
}

/// Resolving `x`, a separator and joined separator-free segments continues from `x`'s stack.
proof fn lemma_dot_stack_joined_tail(x: Seq<char>, segs: Seq<Seq<char>>, win: bool, above: bool)
    requires
        segs.len() > 0,
        forall|i: int, j: int|
            0 <= i < segs.len() && 0 <= j < segs[i].len() ==> !is_sep(#[trigger] segs[i][j], win),
    ensures
        dot_stack(x + seq![sep_char(win)] + join_with(segs, sep_char(win)), win, above)
            == dot_steps(dot_stack(x, win, above), segs, above),
    decreases segs.len(),
{
    let c = sep_char(win);
    let p = segs.last();
    assert forall|j: int| 0 <= j < p.len() implies !is_sep(#[trigger] p[j], win) by {
        assert(p[j] == segs[segs.len() - 1][j]);
    }
    if segs.len() == 1 {
        assert(segs.drop_last() =~= Seq::<Seq<char>>::empty());
        assert(dot_steps(dot_stack(x, win, above), segs.drop_last(), above) == dot_stack(
            x,
            win,
            above,
        ));
        assert(join_with(segs, c) == p);
        lemma_dot_stack_append(x, c, p, win, above);
    } else {
        let t = segs.drop_last();
        assert forall|i: int, j: int| 0 <= i < t.len() && 0 <= j < t[i].len() implies !is_sep(
            #[trigger] t[i][j],
            win,
        ) by {
            assert(t[i] == segs[i]);
        }
        lemma_dot_stack_joined_tail(x, t, win, above);
        assert(join_with(segs, c) == join_with(t, c) + seq![c] + p);
        assert(x + seq![c] + join_with(segs, c) =~= (x + seq![c] + join_with(t, c)) + seq![c] + p);
        lemma_dot_stack_append(x + seq![c] + join_with(t, c), c, p, win, above);
    }
}

proof fn lemma_dot_steps_concat(st: Seq<Seq<char>>, a: Seq<Seq<char>>, b: Seq<Seq<char>>, above: bool)
    ensures
        dot_steps(st, a + b, above) == dot_steps(dot_steps(st, a, above), b, above),
    decreases b.len(),
{
    if b.len() == 0 {
        assert(a + b =~= a);
    } else {
        lemma_dot_steps_concat(st, a, b.drop_last(), above);
        assert((a + b).drop_last() =~= a + b.drop_last());
        assert((a + b).last() == b.last());
    }
}

/// Climbing `m` levels out of a stack without `..` drops its last `m` segments.
proof fn lemma_dot_steps_parents(st: Seq<Seq<char>>, m: int, above: bool)
    requires
        0 <= m <= st.len(),
        forall|i: int| 0 <= i < st.len() ==> #[trigger] st[i] != dotdot(),
    ensures
        dot_steps(st, parents(m), above) == st.take(st.len() - m),
    decreases m,
{
    if m == 0 {
        assert(parents(0) =~= Seq::<Seq<char>>::empty());
        assert(st.take(st.len() as int) =~= st);
    } else {
        assert(parents(m).drop_last() =~= parents(m - 1));
        assert(parents(m).last() == dotdot());
        lemma_dot_steps_parents(st, m - 1, above);
        let r = st.take(st.len() - m + 1);
        assert(r.last() == st[st.len() - m]);
        assert(r.drop_last() =~= st.take(st.len() - m));
    }
}

/// Kept segments other than `..` are pushed one after the other.
proof fn lemma_dot_steps_push(st: Seq<Seq<char>>, segs: Seq<Seq<char>>, win: bool, above: bool)
    requires
        forall|i: int| 0 <= i < segs.len() ==> kept_segment(#[trigger] segs[i], win),
        forall|i: int| 0 <= i < segs.len() ==> #[trigger] segs[i] != dotdot(),
    ensures
        dot_steps(st, segs, above) == st + segs,
    decreases segs.len(),
{
    if segs.len() == 0 {
        assert(st + segs =~= st);
    } else {
        let t = segs.drop_last();
        assert forall|i: int| 0 <= i < t.len() implies kept_segment(#[trigger] t[i], win)
            && t[i] != dotdot() by {
            assert(t[i] == segs[i]);
        }
        lemma_dot_steps_push(st, t, win, above);
        assert(kept_segment(segs[segs.len() - 1], win));
        assert(segs[segs.len() - 1] != dotdot());
        assert((st + t).push(segs.last()) =~= st + segs);
    }
}

/// Splitting a joined stack of kept segments into components gives the stack back.
proof fn lemma_components_of_joined(st: Seq<Seq<char>>, win: bool)
    requires
        forall|i: int| 0 <= i < st.len() ==> kept_segment(#[trigger] st[i], win),
    ensures
        components(join_with(st, sep_char(win)), win) == st,
    decreases st.len(),
{
    let c = sep_char(win);
    let s = join_with(st, c);
    if st.len() == 0 {
        lemma_last_sep_is(s, 0, 0, win, -1);
        assert(s.skip(0) =~= s);
    } else {
        let p = st.last();
        assert(kept_segment(st[st.len() - 1], win));
        if st.len() == 1 {
            assert(s == p);
            lemma_last_sep_is(s, 0, s.len() as int, win, -1);
            assert(s.skip(0) =~= p);
            assert(Seq::<Seq<char>>::empty().push(p) =~= st);
        } else {
            let t = st.drop_last();
            assert forall|i: int| 0 <= i < t.len() implies kept_segment(#[trigger] t[i], win) by {
                assert(t[i] == st[i]);
            }
            lemma_components_of_joined(t, win);
            let k = join_with(t, c).len() as int;
            assert(s == join_with(t, c) + seq![c] + p);
            assert forall|j: int| k < j < s.len() implies !is_sep(#[trigger] s[j], win) by {
                assert(s[j] == p[j - k - 1]);
            }
            lemma_last_sep_is(s, 0, s.len() as int, win, k);
            assert(s.take(k) =~= join_with(t, c));
            assert(s.skip(k + 1) =~= p);
            assert(t.push(p) =~= st);
        }
    }
}

/// The common prefix found by `relative`: both stacks agree on it, and it is maximal.
proof fn lemma_common_from(a: Seq<Seq<char>>, b: Seq<Seq<char>>, i: int)
    requires
        0 <= i <= a.len(),
        i <= b.len(),
        a.take(i) == b.take(i),
    ensures
        i <= common_from(a, b, i) <= a.len(),
        common_from(a, b, i) <= b.len(),
        a.take(common_from(a, b, i)) == b.take(common_from(a, b, i)),
        common_from(a, b, i) < a.len() && common_from(a, b, i) < b.len() ==> a[common_from(
            a,
            b,
            i,
        )] != b[common_from(a, b, i)],
    decreases a.len() - i,
{
    if 0 <= i < a.len() && i < b.len() && a[i] == b[i] {
        assert(a.take(i + 1) =~= a.take(i).push(a[i]));
        assert(b.take(i + 1) =~= b.take(i).push(b[i]));
        lemma_common_from(a, b, i + 1);
    }
}

/// The path that a single argument of `resolve` is resolved from.
pub open spec fn resolve_base(c: Seq<char>, x: Seq<char>) -> Seq<char> {
    if x.len() == 0 {
        c
    } else if x[0] == '/' {
        x
    } else {
        c + seq!['/'] + x
    }
}

/// A cwd as the operating system reports it: absolute, normalized, and without a trailing
/// separator unless it is the root.
pub open spec fn canonical_cwd(c: Seq<char>) -> bool {
    &&& c.len() > 0
    &&& c[0] == '/'
    &&& posix_normalize(c) == c
    &&& (c.len() == 1 || c.last() != '/')
}

proof fn lemma_canonical_cwd(c: Seq<char>)
    requires
        canonical_cwd(c),
    ensures
        c == seq!['/'] + join_with(dot_stack(c, false, false), '/'),
{
    let body = normalize_body(c, false, false);
    if c.len() == 1 {
        assert(c =~= seq!['/']);
        lemma_dot_stack_trailing(Seq::empty(), '/', false, false);
        lemma_dot_stack_single(Seq::empty(), false, false);
        assert(Seq::<char>::empty() + seq!['/'] =~= c);
        assert(dot_stack(c, false, false) =~= Seq::<Seq<char>>::empty());
        assert(seq!['/'] + join_with(Seq::<Seq<char>>::empty(), '/') =~= c);
    } else {
        if body.len() == 0 {
            assert(posix_normalize(c) == seq!['/']);
        } else {
            assert(posix_normalize(c) =~= seq!['/'] + body);
        }
    }
}

/// One path resolved against a canonical cwd is the root followed by the stack of its base.
proof fn lemma_resolve_one(host: NodeHost, cwd: Seq<char>, x: Seq<char>)
    requires
        canonical_cwd(posix_cwd(host, cwd)),
    ensures
        posix_resolve(host, cwd, seq![x]) == seq!['/'] + join_with(
            dot_stack(resolve_base(posix_cwd(host, cwd), x), false, false),
            '/',
        ),
{
    let c = posix_cwd(host, cwd);
    let ps = seq![x];
    lemma_canonical_cwd(c);
    if x.len() == 0 {
    } else if x == seq!['.'] {
        lemma_dot_stack_append(c, '/', x, false, false);
    } else {
        let e = Seq::<char>::empty();
        assert(posix_resolve_acc(ps, 1) == (e, false));
        assert(posix_resolve_acc(ps, 0) == (x + seq!['/'] + e, x[0] == '/'));
        if x[0] == '/' {
            assert(x + seq!['/'] + e =~= x + seq!['/']);
            lemma_dot_stack_trailing(x, '/', false, false);
        } else {
            assert(c + seq!['/'] + (x + seq!['/'] + e) =~= (c + seq!['/'] + x) + seq!['/']);
            lemma_dot_stack_trailing(c + seq!['/'] + x, '/', false, false);
        }
    }
}

/// A path and a relative continuation resolved against a canonical cwd.
proof fn lemma_resolve_two(host: NodeHost, cwd: Seq<char>, x: Seq<char>, r: Seq<char>)
    requires
        canonical_cwd(posix_cwd(host, cwd)),
        r.len() > 0,
        r[0] != '/',
    ensures
        posix_resolve(host, cwd, seq![x, r]) == seq!['/'] + join_with(
            dot_stack(resolve_base(posix_cwd(host, cwd), x) + seq!['/'] + r, false, false),
            '/',
        ),
{
    let c = posix_cwd(host, cwd);
    let ps = seq![x, r];
    let e = Seq::<char>::empty();
    assert(posix_resolve_acc(ps, 2) == (e, false));
    assert(posix_resolve_acc(ps, 1) == (r + seq!['/'] + e, false));
    let b = resolve_base(c, x);
    if x.len() == 0 {
        assert(posix_resolve_acc(ps, 0) == (r + seq!['/'] + e, false));
        assert(c + seq!['/'] + (r + seq!['/'] + e) =~= (b + seq!['/'] + r) + seq!['/']);
    } else {
        assert(posix_resolve_acc(ps, 0) == (x + seq!['/'] + (r + seq!['/'] + e), x[0] == '/'));
        if x[0] == '/' {
            assert(x + seq!['/'] + (r + seq!['/'] + e) =~= (b + seq!['/'] + r) + seq!['/']);
        } else {
            assert(c + seq!['/'] + (x + seq!['/'] + (r + seq!['/'] + e)) =~= (b + seq!['/'] + r)
                + seq!['/']);
        }
    }
    lemma_dot_stack_trailing(b + seq!['/'] + r, '/', false, false);
}

/// `relative` undoes `resolve`: resolving `from` and then the relative path from `from` to `to`
/// reaches the same place as resolving `to`, for a cwd that is absolute and canonical.
#[verifier::rlimit(30)]
pub proof fn posix_resolve_relative(host: NodeHost, cwd: Seq<char>, from: Seq<char>, to: Seq<char>)
    requires
        canonical_cwd(posix_cwd(host, cwd)),
    ensures
        posix_resolve(host, cwd, seq![from, posix_relative(host, cwd, from, to)]) == posix_resolve(
            host,
            cwd,
            seq![to],
        ),
{
    let c = posix_cwd(host, cwd);
    let rel = posix_relative(host, cwd, from, to);
    let bf = resolve_base(c, from);
    let bt = resolve_base(c, to);
    let fs = dot_stack(bf, false, false);
    let ts = dot_stack(bt, false, false);
    lemma_resolve_one(host, cwd, from);
    lemma_resolve_one(host, cwd, to);
    lemma_dot_stack_clean(bf, false, false);
    lemma_dot_stack_clean(bt, false, false);
    let f = posix_resolve(host, cwd, seq![from]);
    let t = posix_resolve(host, cwd, seq![to]);
    if from == to || f == t {
        // `rel` is empty: the second argument is skipped.
        let ps = seq![from, rel];
        let e = Seq::<char>::empty();
        assert(rel == e);
        assert(posix_resolve_acc(ps, 2) == (e, false));
        assert(posix_resolve_acc(ps, 1) == (e, false));
        lemma_canonical_cwd(c);
        if from.len() == 0 {
            lemma_dot_stack_trailing(c, '/', false, false);
            assert(c + seq!['/'] + e =~= c + seq!['/']);
        } else {
            assert(posix_resolve_acc(ps, 0) == (from + seq!['/'] + e, from[0] == '/'));
            if from[0] == '/' {
                assert(from + seq!['/'] + e =~= from + seq!['/']);
                lemma_dot_stack_trailing(from, '/', false, false);
            } else {
                assert(c + seq!['/'] + (from + seq!['/'] + e) =~= bf + seq!['/']);
                lemma_dot_stack_trailing(bf, '/', false, false);
            }
        }
    } else {
        assert(f.skip(1) =~= join_with(fs, '/'));
        assert(t.skip(1) =~= join_with(ts, '/'));
        lemma_components_of_joined(fs, false);
        lemma_components_of_joined(ts, false);
        assert(fs != ts);
        let k = common_from(fs, ts, 0);
        assert(fs.take(0) =~= ts.take(0));
        lemma_common_from(fs, ts, 0);
        let m = fs.len() - k;
        let segs = parents(m) + ts.skip(k);
        assert(rel == join_with(segs, '/'));
        // The relative path is non-empty and does not start with a separator.
        assert(segs.len() > 0) by {
            if m == 0 && k == ts.len() {
                assert(fs =~= fs.take(k));
                assert(ts =~= ts.take(k));
            }
        }
        assert forall|i: int| 0 <= i < segs.len() implies kept_segment(#[trigger] segs[i], false)
            by {
            if i < m {
                assert(segs[i] == dotdot());
            } else {
                assert(segs[i] == ts[k + i - m]);
            }
        }
        lemma_join_ends(segs, false);
        assert forall|i: int, j: int| 0 <= i < segs.len() && 0 <= j < segs[i].len() implies !is_sep(
            #[trigger] segs[i][j],
            false,
        ) by {
            assert(kept_segment(segs[i], false));
        }
        lemma_resolve_two(host, cwd, from, rel);
        lemma_dot_stack_joined_tail(bf, segs, false, false);
        lemma_dot_steps_concat(fs, parents(m), ts.skip(k), false);
        lemma_dot_steps_parents(fs, m, false);
        assert forall|i: int| 0 <= i < ts.skip(k).len() implies kept_segment(
            #[trigger] ts.skip(k)[i],
            false,
        ) && ts.skip(k)[i] != dotdot() by {
            assert(ts.skip(k)[i] == ts[k + i]);
        }
        lemma_dot_steps_push(fs.take(k), ts.skip(k), false, false);
        assert(fs.take(k) + ts.skip(k) =~= ts);
    }
}

/// `f` is a contiguous slice of `p`.
pub open spec fn is_slice_of(f: Seq<char>, p: Seq<char>) -> bool {
    exists|i: int, j: int| 0 <= i <= j <= p.len() && f == p.subrange(i, j)
}

/// The fields of `parse` are slices of the input, and the base is the name followed by the
/// extension.
pub proof fn posix_parse_fields(p: Seq<char>)
    ensures
        is_slice_of(posix_parse(p).root, p),
        is_slice_of(posix_parse(p).dir, p),
        is_slice_of(posix_parse(p).base, p),
        is_slice_of(posix_parse(p).ext, p),
        is_slice_of(posix_parse(p).name, p),
        posix_parse(p).base == posix_parse(p).name + posix_parse(p).ext,
{
    let o = posix_parse(p);
    if p.len() == 0 {
        assert(o.root == p.subrange(0, 0));
        return;
    }
    let r: int = if p[0] == '/' { 1 } else { 0 };
    assert(o.root == p.subrange(0, r));
    lemma_last_nonsep_bounds(p, r, p.len() as int, false);
    let end = crate::posix::component_end(p, r, false);
    if end == r {
        assert(o.dir == p.subrange(0, r));
        assert(o.base == p.subrange(0, 0));
        assert(o.ext == p.subrange(0, 0));
        assert(o.name == p.subrange(0, 0));
        assert(o.base =~= o.name + o.ext);
    } else {
        let slash = last_sep_before(p, r, end, false);
        lemma_last_sep_bounds(p, r, end, false);
        let start = crate::posix::component_start(p, r, end, false);
        let base = p.subrange(start, end);
        if slash >= 0 {
            assert(o.dir == p.subrange(0, slash));
        } else {
            assert(o.dir == p.subrange(0, r));
        }
        assert(o.base == base);
        let dot = last_index_of(base, base.len() as int, '.');
        lemma_last_index_bounds(base, base.len() as int, '.');
        let ext = component_ext(base);
        if dot <= 0 || base == crate::shared::dotdot() {
            assert(ext == p.subrange(end, end));
            assert(o.name == p.subrange(start, end));
        } else {
            assert(ext =~= p.subrange(start + dot, end));
            assert(o.name =~= p.subrange(start, start + dot));
        }
        assert(o.base =~= o.name + o.ext);
    }
}

/// `format` undoes `parse`, except on paths with a trailing separator and on `//name`, whose
/// doubled leading separator `parse` does not keep.
pub proof fn posix_format_parse_roundtrip(p: Seq<char>)
    requires
        !(p.len() > 1 && p.last() == '/'),
        !(p.len() >= 2 && p[0] == '/' && p[1] == '/' && last_sep_before(
            p,
            2,
            p.len() as int,
            false,
        ) < 0),
    ensures
        ({
            let o = posix_parse(p);
            format_fields(o.root, o.dir, o.base, o.ext, o.name, '/') == p
        }),
{
    let o = posix_parse(p);
    if p.len() == 0 {
        return;
    }
    let r: int = if p[0] == '/' { 1 } else { 0 };
    if p.len() == 1 && r == 1 {
        assert(last_nonsep_before(p, 1, 1, false) == -1);
        assert(o.root =~= p);
        assert(o.root + Seq::<char>::empty() =~= p);
        return;
    }
    assert(!is_sep(p[p.len() - 1], false));
    assert(last_nonsep_before(p, r, p.len() as int, false) == p.len() - 1);
    let end = p.len() as int;
    let slash = last_sep_before(p, r, end, false);
    lemma_last_sep_bounds(p, r, end, false);
    let start = crate::posix::component_start(p, r, end, false);
    let base = p.subrange(start, end);
    assert(o.base == base);
    assert(base.len() > 0);
    if slash < 0 {
        assert(o.dir == o.root);
        if r == 0 {
            assert(o.root.len() == 0);
            assert(base =~= p);
        } else {
            assert(o.root + base =~= p);
        }
    } else {
        assert(slash >= 1);
        assert(o.dir == p.take(slash));
        if r == 1 && slash == 1 {
            assert forall|j: int| 2 <= j < end implies !is_sep(#[trigger] p[j], false) by {}
            lemma_last_sep_is(p, 2, end, false, -1);
        }
        assert(o.dir != o.root);
        assert(p.take(slash) + seq!['/'] + base =~= p);
    }
}

/// `resolve` gives an absolute path whenever the cwd is absolute, and always a normalized path
/// without a trailing separator (other than the root itself), unless it returns the cwd
/// unchanged and that cwd is not canonical.
pub proof fn posix_resolve_is_normalized(host: NodeHost, cwd: Seq<char>, ps: Seq<Seq<char>>)
    requires
        resolve_returns_cwd(ps, posix_cwd(host, cwd), false) ==> canonical_cwd(posix_cwd(host, cwd)),
    ensures
        ({
            let r = posix_resolve(host, cwd, ps);
            let c = posix_cwd(host, cwd);
            &&& posix_normalize(r) == r
            &&& r.len() > 0
            &&& (r.len() > 1 ==> r.last() != '/')
            &&& (c.len() > 0 && c[0] == '/' ==> r[0] == '/')
        }),
{
    let c = posix_cwd(host, cwd);
    let r = posix_resolve(host, cwd, ps);
    if resolve_returns_cwd(ps, c, false) {
        return;
    }
    let (acc, abs) = posix_resolve_acc(ps, 0);
    let full = if abs { acc } else { c + seq!['/'] + acc };
    let absolute = abs || (c.len() > 0 && c[0] == '/');
    let st = dot_stack(full, false, !absolute);
    lemma_dot_stack_clean(full, false, !absolute);
    let tail = join_with(st, '/');
    let e = Seq::<char>::empty();
    if absolute {
        assert(r == seq!['/'] + tail);
        lemma_dot_stack_of_joined(st, seq!['/'], false, false);
        if st.len() == 0 {
            assert(r =~= seq!['/']);
        } else {
            lemma_join_ends(st, false);
            assert(r.last() == tail.last());
        }
        assert(normalize_body(r, false, false) == tail);
        assert(posix_normalize(r) =~= r);
    } else if st.len() == 0 {
        lemma_dot_stack_single(seq!['.'], false, true);
    } else {
        lemma_join_ends(st, false);
        lemma_dot_stack_of_joined(st, e, false, true);
        assert(e + tail =~= tail);
        assert(posix_normalize(r) =~= e + tail + e);
    }
}

/// Resolving an already resolved absolute path gives it back. The result is absolute when some
/// path or the cwd is; a cwd returned unchanged must be canonical.
pub proof fn posix_resolve_idempotent(host: NodeHost, cwd: Seq<char>, ps: Seq<Seq<char>>)
    requires
        posix_resolve_acc(ps, 0).1 || (posix_cwd(host, cwd).len() > 0 && posix_cwd(host, cwd)[0]
            == '/'),
        resolve_returns_cwd(ps, posix_cwd(host, cwd), false) ==> canonical_cwd(posix_cwd(host, cwd)),
    ensures
        posix_resolve(host, cwd, seq![posix_resolve(host, cwd, ps)]) == posix_resolve(host, cwd, ps),
{
    let c = posix_cwd(host, cwd);
    let r = posix_resolve(host, cwd, ps);
    let st = if resolve_returns_cwd(ps, c, false) {
        dot_stack(c, false, false)
    } else {
        let (acc, abs) = posix_resolve_acc(ps, 0);
        let full = if abs { acc } else { c + seq!['/'] + acc };
        dot_stack(full, false, false)
    };
    if resolve_returns_cwd(ps, c, false) {
        lemma_canonical_cwd(c);
        lemma_dot_stack_clean(c, false, false);
    } else {
        let (acc, abs) = posix_resolve_acc(ps, 0);
        let full = if abs { acc } else { c + seq!['/'] + acc };
        lemma_dot_stack_clean(full, false, false);
    }
    assert(r == seq!['/'] + join_with(st, '/'));
    let qs = seq![r];
    let e = Seq::<char>::empty();
    assert(posix_resolve_acc(qs, 1) == (e, false));
    assert(posix_resolve_acc(qs, 0) == (r + seq!['/'] + e, true));
    assert(r + seq!['/'] + e =~= r + seq!['/']);
    assert(!resolve_returns_cwd(qs, c, false));
    lemma_dot_stack_trailing(r, '/', false, false);
    lemma_dot_stack_of_joined(st, seq!['/'], false, false);
}

/// The base and extension that `parse` reports are those of `basename` and `extname`.
pub proof fn posix_parse_agrees_with_basename(p: Seq<char>)
    ensures
        posix_parse(p).base == posix_basename(p, None),
        posix_parse(p).ext == posix_extname(p),
{
    if p.len() > 0 {
        let r: int = if p[0] == '/' { 1 } else { 0 };
        lemma_last_nonsep_bounds(p, r, p.len() as int, false);
        lemma_last_nonsep_bounds(p, 0, p.len() as int, false);
        let end = crate::posix::component_end(p, r, false);
        assert(end == crate::posix::component_end(p, 0, false) || (r == 1 && end == 1
            && crate::posix::component_end(p, 0, false) == 0));
        if end > r {
            lemma_last_sep_bounds(p, r, end, false);
            lemma_last_sep_bounds(p, 0, end, false);
            if r == 1 {
                let k = last_sep_before(p, 1, end, false);
                if k < 0 {
                    lemma_last_sep_is(p, 0, end, false, 0);
                } else {
                    lemma_last_sep_is(p, 0, end, false, k);
                }
            }
        }
    }
}

/// Accumulating from `k` on sees the same paths in `ps` and in `ps.skip(i)`.
proof fn lemma_resolve_acc_skip(ps: Seq<Seq<char>>, i: int, k: int)
    requires
        0 <= i <= k,
        i <= ps.len(),
    ensures
        posix_resolve_acc(ps, k) == posix_resolve_acc(ps.skip(i), k - i),
    decreases ps.len() - k,
{
    if k < ps.len() {
        lemma_resolve_acc_skip(ps, i, k + 1);
        assert(ps.skip(i)[k - i] == ps[k]);
    }
}

/// Once an absolute path has been met at `i`, the paths left of it change nothing.
proof fn lemma_resolve_acc_left(ps: Seq<Seq<char>>, i: int, k: int)
    requires
        0 <= k <= i < ps.len(),
        ps[i].len() > 0,
        ps[i][0] == '/',
    ensures
        posix_resolve_acc(ps, k) == posix_resolve_acc(ps, i),
        posix_resolve_acc(ps, i).1,
    decreases i - k,
{
    if k < i {
        lemma_resolve_acc_left(ps, i, k + 1);
    }
}

/// POSIX `resolve` ignores the cwd and every path left of an absolute path.
pub proof fn posix_resolve_from_last_absolute(
    host: NodeHost,
    cwd: Seq<char>,
    ps: Seq<Seq<char>>,
    i: int,
)
    requires
        0 <= i < ps.len(),
        ps[i].len() > 0,
        ps[i][0] == '/',
    ensures
        posix_resolve(host, cwd, ps) == posix_resolve(host, cwd, ps.skip(i)),
{
    lemma_resolve_acc_left(ps, i, 0);
    lemma_resolve_acc_skip(ps, i, i);
    let c = posix_cwd(host, cwd);
    assert(ps.skip(i)[0] == ps[i]);
    assert(!resolve_returns_cwd(ps, c, false));
    assert(!resolve_returns_cwd(ps.skip(i), c, false));
}

/// The fields of Windows `parse` are slices of the input, and the base is the name followed by
/// the extension.
pub proof fn win32_parse_fields(p: Seq<char>)
    ensures
        is_slice_of(win32_parse(p).root, p),
        is_slice_of(win32_parse(p).dir, p),
        is_slice_of(win32_parse(p).base, p),
        is_slice_of(win32_parse(p).ext, p),
        is_slice_of(win32_parse(p).name, p),
        win32_parse(p).base == win32_parse(p).name + win32_parse(p).ext,
{
    let o = win32_parse(p);
    if p.len() == 0 {
        assert(o.root == p.subrange(0, 0));
        return;
    }
    let r = win_root_len(p);
    lemma_win_root_len_bounds(p);
    assert(o.root == p.subrange(0, r));
    lemma_last_nonsep_bounds(p, r, p.len() as int, true);
    let end = crate::posix::component_end(p, r, true);
    if end == r {
        assert(o.dir == p.subrange(0, r));
        assert(o.base == p.subrange(0, 0));
        assert(o.ext == p.subrange(0, 0));
        assert(o.name == p.subrange(0, 0));
        assert(o.base =~= o.name + o.ext);
    } else {
        let slash = last_sep_before(p, r, end, true);
        lemma_last_sep_bounds(p, r, end, true);
        let start = crate::posix::component_start(p, r, end, true);
        let base = p.subrange(start, end);
        if slash >= 0 && slash + 1 != r {
            assert(o.dir == p.subrange(0, slash));
        } else {
            assert(o.dir == p.subrange(0, r));
        }
        assert(o.base == base);
        let dot = last_index_of(base, base.len() as int, '.');
        lemma_last_index_bounds(base, base.len() as int, '.');
        let ext = component_ext(base);
        if dot <= 0 || base == crate::shared::dotdot() {
            assert(ext == p.subrange(end, end));
            assert(o.name == p.subrange(start, end));
        } else {
            assert(ext =~= p.subrange(start + dot, end));
            assert(o.name =~= p.subrange(start, start + dot));
        }
        assert(o.base =~= o.name + o.ext);
    }
}

/// Windows `format` undoes `parse`, except where `parse` drops a trailing separator, where the
/// only separator between the root and the base directly follows the root, and where that
/// separator is a forward slash (`format` writes a backslash).
pub proof fn win32_format_parse_roundtrip(p: Seq<char>)
    requires
        !(p.len() > win_root_len(p) && is_sep(p.last(), true)),
        last_sep_before(p, win_root_len(p), p.len() as int, true) != win_root_len(p),
        last_sep_before(p, win_root_len(p), p.len() as int, true) < 0 || p[last_sep_before(
            p,
            win_root_len(p),
            p.len() as int,
            true,
        )] == '\\',
    ensures
        ({
            let o = win32_parse(p);
            format_fields(o.root, o.dir, o.base, o.ext, o.name, '\\') == p
        }),
{
    let o = win32_parse(p);
    if p.len() == 0 {
        return;
    }
    let r = win_root_len(p);
    lemma_win_root_len_bounds(p);
    if r == p.len() {
        lemma_last_nonsep_bounds(p, r, p.len() as int, true);
        assert(o.root =~= p);
        assert(o.root + Seq::<char>::empty() =~= p);
        return;
    }
    assert(!is_sep(p[p.len() - 1], true));
    assert(last_nonsep_before(p, r, p.len() as int, true) == p.len() - 1);
    let end = p.len() as int;
    let slash = last_sep_before(p, r, end, true);
    lemma_last_sep_bounds(p, r, end, true);
    let start = crate::posix::component_start(p, r, end, true);
    let base = p.subrange(start, end);
    assert(o.base == base);
    assert(base.len() > 0);
    if slash < 0 {
        assert(o.dir == o.root);
        if r == 0 {
            assert(o.root.len() == 0);
            assert(base =~= p);
        } else {
            assert(o.root + base =~= p);
        }
    } else {
        assert(slash > r);
        assert(o.dir == p.take(slash));
        assert(o.dir.len() != o.root.len());
        assert(p.take(slash) + seq!['\\'] + base =~= p);
    }
}

/// `skip_nonseps` stops at the first separator at or after `i`.
proof fn lemma_skip_nonseps_is(s: Seq<char>, i: int, k: int, win: bool)
    requires
        0 <= i <= k <= s.len(),
        forall|j: int| i <= j < k ==> !is_sep(#[trigger] s[j], win),
        k == s.len() || is_sep(s[k], win),
    ensures
        skip_nonseps(s, i, win) == k,
    decreases k - i,
{
    if i < k {
        lemma_skip_nonseps_is(s, i + 1, k, win);
    }
}

/// `skip_seps` stops at the first non-separator at or after `i`.
proof fn lemma_skip_seps_is(s: Seq<char>, i: int, k: int, win: bool)
    requires
        0 <= i <= k <= s.len(),
        forall|j: int| i <= j < k ==> is_sep(#[trigger] s[j], win),
        k == s.len() || !is_sep(s[k], win),
    ensures
        skip_seps(s, i, win) == k,
    decreases k - i,
{
    if i < k {
        lemma_skip_seps_is(s, i + 1, k, win);
    }
}

/// Dot resolution keeps only characters of its input and `.`.
proof fn lemma_dot_stack_avoids(s: Seq<char>, win: bool, above: bool, c: char)
    requires
        !has_char(s, c),
        c != '.',
    ensures
        forall|i: int|
            0 <= i < dot_stack(s, win, above).len() ==> !has_char(
                #[trigger] dot_stack(s, win, above)[i],
                c,
            ),
    decreases s.len(),
{
    let k = last_sep_before(s, 0, s.len() as int, win);
    lemma_last_sep_bounds(s, 0, s.len() as int, win);
    let seg = s.skip(k + 1);
    assert(!has_char(seg, c)) by {
        if has_char(seg, c) {
            let j = choose|j: int| 0 <= j < seg.len() && seg[j] == c;
            assert(s[k + 1 + j] == c);
        }
    }
    assert(!has_char(dotdot(), c)) by {
        if has_char(dotdot(), c) {
            let j = choose|j: int| 0 <= j < dotdot().len() && dotdot()[j] == c;
        }
    }
    let prev = if k < 0 {
        Seq::<Seq<char>>::empty()
    } else {
        dot_stack(s.take(k), win, above)
    };
    if k >= 0 {
        assert(!has_char(s.take(k), c)) by {
            if has_char(s.take(k), c) {
                let j = choose|j: int| 0 <= j < s.take(k).len() && s.take(k)[j] == c;
                assert(s[j] == c);
            }
        }
        lemma_dot_stack_avoids(s.take(k), win, above, c);
    } else {
        assert(seg =~= s);
    }
    let r = dot_stack(s, win, above);
    assert(r == dot_step(prev, seg, above));
    assert forall|i: int| 0 <= i < r.len() implies !has_char(#[trigger] r[i], c) by {
        if i < prev.len() {
            assert(r[i] == prev[i]);
        }
    }
}

/// A joined stack avoids a character that none of its parts holds and that is not the joint.
proof fn lemma_join_avoids(st: Seq<Seq<char>>, sep: char, c: char)
    requires
        forall|i: int| 0 <= i < st.len() ==> !has_char(#[trigger] st[i], c),
        c != sep,
    ensures
        !has_char(join_with(st, sep), c),
    decreases st.len(),
{
    if st.len() == 1 {
        assert(!has_char(st[0], c));
    } else if st.len() > 1 {
        let t = st.drop_last();
        assert forall|i: int| 0 <= i < t.len() implies !has_char(#[trigger] t[i], c) by {
            assert(t[i] == st[i]);
        }
        lemma_join_avoids(t, sep, c);
        let a = join_with(t, sep);
        let b = st.last();
        assert(!has_char(st[st.len() - 1], c));
        let j = join_with(st, sep);
        assert(j == a + seq![sep] + b);
        if has_char(j, c) {
            let k = choose|k: int| 0 <= k < j.len() && j[k] == c;
            if k < a.len() {
                assert(a[k] == c);
            } else if k > a.len() {
                assert(b[k - a.len() - 1] == c);
            }
        }
    }
}

/// What `normalize` leaves after the root: the joined stack, `.` for an empty relative stack,
/// and a trailing separator when the input had one.
pub open spec fn win_tail(st: Seq<Seq<char>>, absolute: bool, trailing: bool) -> Seq<char> {
    let t0 = join_with(st, '\\');
    let t1 = if t0.len() == 0 && !absolute {
        seq!['.']
    } else {
        t0
    };
    if t1.len() > 0 && trailing {
        t1 + seq!['\\']
    } else {
        t1
    }
}

/// A root and a tail put together as `normalize` does for a path without a drive.
pub open spec fn win_assemble(device: Seq<char>, absolute: bool, tail: Seq<char>) -> Seq<char> {
    if device.len() == 0 {
        if absolute {
            seq!['\\'] + tail
        } else {
            tail
        }
    } else {
        device + seq!['\\'] + tail
    }
}

/// The root of a path without a colon, as `normalize` sees it.
proof fn lemma_colon_free_root(q: Seq<char>)
    requires
        !has_char(q, ':'),
    ensures
        normalize_root(q) == (namespace_root(q), false),
        namespace_root(q).device.len() == 0 ==> !namespace_root(q).unc_root_only && namespace_root(q).absolute
            == (q.len() > 0 && is_sep(q[0], true)) && namespace_root(q).root_end == (if q.len() > 0
            && is_sep(q[0], true) {
            1int
        } else {
            0int
        }),
        namespace_root(q).device.len() > 0 ==> namespace_root(q).absolute && q.len() >= 2 && is_sep(
            q[0],
            true,
        ) && is_sep(q[1], true),
{
    lemma_first_index_has(q, ':');
    if q.len() >= 2 && q[1] == ':' {
        assert(has_char(q, ':'));
    }
    assert(!starts_with_reserved_device(q));
}

/// A device root of `q` is `\\\\` and a server, followed for a UNC share by `\\` and the share.
proof fn lemma_device_root_shape(q: Seq<char>) -> (r: (Seq<char>, Seq<char>))
    requires
        !has_char(q, ':'),
        namespace_root(q).device.len() > 0,
    ensures
        r.0.len() > 0,
        forall|j: int| 0 <= j < r.0.len() ==> !is_sep(#[trigger] r.0[j], true),
        !has_char(r.0, ':'),
        (r.0 == seq!['.'] || r.0 == seq!['?']) ==> namespace_root(q).device == two_backslashes() + r.0
            && namespace_root(q).root_end == 4 && !namespace_root(q).unc_root_only && q.len() >= 4,
        !(r.0 == seq!['.'] || r.0 == seq!['?']) ==> {
            &&& r.1.len() > 0
            &&& forall|j: int| 0 <= j < r.1.len() ==> !is_sep(#[trigger] r.1[j], true)
            &&& !has_char(r.1, ':')
            &&& namespace_root(q).device == two_backslashes() + r.0 + seq!['\\'] + r.1
            &&& namespace_root(q).root_end <= q.len()
            &&& namespace_root(q).unc_root_only == (namespace_root(q).root_end == q.len())
        },
{
    lemma_colon_free_root(q);
    if namespace_prefix(q) {
        let server = seq![q[2]];
        assert(!has_char(server, ':'));
        assert(namespace_root(q).device =~= two_backslashes() + server);
        return (server, Seq::empty());
    }
    lemma_parse_root_namespace(q);
    lemma_skip_nonseps_bounds(q, 2, true);
    let server_end = skip_nonseps(q, 2, true);
    lemma_skip_seps_bounds(q, server_end, true);
    let share_start = skip_seps(q, server_end, true);
    lemma_skip_nonseps_bounds(q, share_start, true);
    let share_end = skip_nonseps(q, share_start, true);
    let server = q.subrange(2, server_end);
    let share = q.subrange(share_start, share_end);
    assert forall|j: int| 0 <= j < server.len() implies !is_sep(#[trigger] server[j], true) by {
        assert(server[j] == q[2 + j]);
    }
    assert forall|j: int| 0 <= j < share.len() implies !is_sep(#[trigger] share[j], true) by {
        assert(share[j] == q[share_start + j]);
    }
    assert(!has_char(server, ':')) by {
        if has_char(server, ':') {
            let j = choose|j: int| 0 <= j < server.len() && server[j] == ':';
            assert(q[2 + j] == ':');
        }
    }
    assert(!has_char(share, ':')) by {
        if has_char(share, ':') {
            let j = choose|j: int| 0 <= j < share.len() && share[j] == ':';
            assert(q[share_start + j] == ':');
        }
    }
    if server == seq!['.'] || server == seq!['?'] {
        assert(namespace_root(q).device =~= two_backslashes() + server);
    }
    (server, share)
}

/// The root of a `normalize` result that starts with a device: the same device, absolute.
proof fn lemma_device_output_root(server: Seq<char>, share: Seq<char>, tail: Seq<char>)
    requires
        server.len() > 0,
        forall|j: int| 0 <= j < server.len() ==> !is_sep(#[trigger] server[j], true),
        !(server == seq!['.'] || server == seq!['?']) ==> share.len() > 0 && forall|j: int|
            0 <= j < share.len() ==> !is_sep(#[trigger] share[j], true),
        tail.len() == 0 || !is_sep(tail[0], true),
    ensures
        ({
            let special = server == seq!['.'] || server == seq!['?'];
            let d = if special {
                two_backslashes() + server
            } else {
                two_backslashes() + server + seq!['\\'] + share
            };
            let n = d + seq!['\\'] + tail;
            &&& namespace_root(n).device == d
            &&& namespace_root(n).absolute
            &&& !namespace_root(n).unc_root_only
            &&& namespace_root(n).root_end == if special {
                4
            } else {
                d.len() as int
            }
        }),
{
    let special = server == seq!['.'] || server == seq!['?'];
    let d = if special {
        two_backslashes() + server
    } else {
        two_backslashes() + server + seq!['\\'] + share
    };
    let n = d + seq!['\\'] + tail;
    let se: int = 2 + server.len() as int;
    assert forall|j: int| 2 <= j < se implies !is_sep(#[trigger] n[j], true) by {
        assert(n[j] == server[j - 2]);
    }
    assert(n[se] == '\\');
    lemma_skip_nonseps_is(n, 2, se, true);
    assert(n.subrange(2, se) =~= server);
    if special {
        assert(n.len() >= 4);
        assert(n[2] == server[0] && n[3] == '\\');
        assert(namespace_prefix(n));
        assert(two_backslashes() + seq![n[2]] =~= d);
    } else {
        assert(!namespace_prefix(n)) by {
            if server.len() == 1 {
                assert(server =~= seq![n[2]]);
            } else {
                assert(n[3] == server[1]);
            }
        }
        let ss = se + 1;
        let sh: int = ss + share.len() as int;
        assert(n[ss] == share[0]);
        lemma_skip_seps_is(n, se, ss, true);
        assert forall|j: int| ss <= j < sh implies !is_sep(#[trigger] n[j], true) by {
            assert(n[j] == share[j - ss]);
        }
        assert(n[sh] == '\\');
        lemma_skip_nonseps_is(n, ss, sh, true);
        assert(n.subrange(ss, sh) =~= share);
        assert(sh == d.len());
    }
}

/// The facts about a stack and its tail that a second `normalize` pass needs.
proof fn lemma_win_tail_facts(st: Seq<Seq<char>>, absolute: bool, trailing: bool)
    requires
        clean_stack(st, true, !absolute),
        forall|i: int| 0 <= i < st.len() ==> !has_char(#[trigger] st[i], ':'),
    ensures
        !has_char(win_tail(st, absolute, trailing), ':'),
        win_tail(st, absolute, trailing).len() == 0 ==> st.len() == 0 && absolute,
        win_tail(st, absolute, trailing).len() > 0 ==> !is_sep(win_tail(st, absolute, trailing)[0], true),
        win_tail(st, absolute, trailing).len() > 0 ==> (is_sep(win_tail(st, absolute, trailing).last(), true)
            <==> trailing),
        st.len() > 0 ==> join_with(st, '\\').len() > 0,
{
    let j = join_with(st, '\\');
    let t = win_tail(st, absolute, trailing);
    lemma_join_avoids(st, '\\', ':');
    if st.len() > 0 {
        lemma_join_ends(st, true);
    } else {
        assert(j.len() == 0);
    }
    let t1 = if j.len() == 0 && !absolute { seq!['.'] } else { j };
    assert(!has_char(t1, ':')) by {
        if has_char(t1, ':') {
            let k = choose|k: int| 0 <= k < t1.len() && t1[k] == ':';
            if j.len() > 0 || absolute {
                assert(j[k] == ':');
            }
        }
    }
    if t1.len() > 0 && trailing {
        assert(!has_char(t, ':')) by {
            if has_char(t, ':') {
                let k = choose|k: int| 0 <= k < t.len() && t[k] == ':';
                if k < t1.len() {
                    assert(t1[k] == ':');
                }
            }
        }
    }
}

/// Dot resolution of a tail written by `normalize`, behind an optional separator, gives its
/// stack back.
proof fn lemma_dot_stack_of_tail(st: Seq<Seq<char>>, absolute: bool, trailing: bool, pre: Seq<char>)
    requires
        clean_stack(st, true, !absolute),
        pre.len() == 0 || (pre.len() == 1 && is_sep(pre[0], true)),
    ensures
        dot_stack(pre + win_tail(st, absolute, trailing), true, !absolute) == st,
{
    let j = join_with(st, '\\');
    lemma_dot_stack_of_joined(st, pre, true, !absolute);
    if st.len() == 0 {
        assert(j.len() == 0);
        let e = Seq::<char>::empty();
        if !absolute {
            // The tail is `.` or `.\`.
            lemma_dot_stack_single(seq!['.'], true, true);
            if pre.len() == 0 {
                lemma_dot_stack_trailing(seq!['.'], '\\', true, true);
                assert(pre + seq!['.'] =~= seq!['.']);
                assert(pre + (seq!['.'] + seq!['\\']) =~= seq!['.'] + seq!['\\']);
            } else {
                lemma_dot_stack_single(e, true, true);
                lemma_dot_stack_append(e, pre[0], seq!['.'], true, true);
                assert(e + seq![pre[0]] + seq!['.'] =~= pre + seq!['.']);
                lemma_dot_stack_trailing(pre + seq!['.'], '\\', true, true);
                assert(pre + (seq!['.'] + seq!['\\']) =~= (pre + seq!['.']) + seq!['\\']);
            }
        } else {
            assert(pre + win_tail(st, absolute, trailing) =~= pre + j);
        }
    } else {
        lemma_join_ends(st, true);
        if trailing {
            assert(pre + win_tail(st, absolute, trailing) =~= (pre + j) + seq!['\\']);
            lemma_dot_stack_trailing(pre + j, '\\', true, !absolute);
        }
    }
}

/// A second `normalize` pass leaves a result without a device unchanged.
proof fn lemma_second_pass_plain(st: Seq<Seq<char>>, absolute: bool, trailing: bool)
    requires
        clean_stack(st, true, !absolute),
        forall|i: int| 0 <= i < st.len() ==> !has_char(#[trigger] st[i], ':'),
    ensures
        ({
            let n = win_assemble(Seq::empty(), absolute, win_tail(st, absolute, trailing));
            win32_normalize(n) == n
        }),
{
    let tail = win_tail(st, absolute, trailing);
    let n = win_assemble(Seq::empty(), absolute, tail);
    lemma_win_tail_facts(st, absolute, trailing);
    if n.len() == 1 && (n[0] as u32) < 128 {
        if absolute {
            assert(n[0] == '\\');
        } else {
            assert(n[0] == tail[0]);
        }
        return;
    }
    let e = Seq::<char>::empty();
    if absolute {
        assert(tail.len() > 0);
        assert(n =~= seq!['\\'] + tail);
        assert(!has_char(n, ':')) by {
            if has_char(n, ':') {
                let k = choose|k: int| 0 <= k < n.len() && n[k] == ':';
                assert(tail[k - 1] == ':');
            }
        }
        lemma_colon_free_root(n);
        assert(n[1] == tail[0]);
        assert(n.skip(1) =~= tail);
        lemma_dot_stack_of_tail(st, absolute, trailing, e);
        assert(e + tail =~= tail);
        assert(n.last() == tail.last());
    } else {
        assert(n == tail);
        lemma_colon_free_root(n);
        assert(n.skip(0) =~= n);
        lemma_dot_stack_of_tail(st, absolute, trailing, e);
        assert(e + tail =~= tail);
        if n.len() >= 2 {
            assert(n[1] != ':');
        }
    }
}

/// A second `normalize` pass leaves a result that starts with a device unchanged.
proof fn lemma_second_pass_device(
    server: Seq<char>,
    share: Seq<char>,
    st: Seq<Seq<char>>,
    trailing: bool,
)
    requires
        server.len() > 0,
        forall|j: int| 0 <= j < server.len() ==> !is_sep(#[trigger] server[j], true),
        !has_char(server, ':'),
        !(server == seq!['.'] || server == seq!['?']) ==> share.len() > 0 && (forall|j: int|
            0 <= j < share.len() ==> !is_sep(#[trigger] share[j], true)) && !has_char(share, ':'),
        clean_stack(st, true, false),
        forall|i: int| 0 <= i < st.len() ==> !has_char(#[trigger] st[i], ':'),
    ensures
        ({
            let d = if server == seq!['.'] || server == seq!['?'] {
                two_backslashes() + server
            } else {
                two_backslashes() + server + seq!['\\'] + share
            };
            let n = win_assemble(d, true, win_tail(st, true, trailing));
            win32_normalize(n) == n
        }),
{
    let special = server == seq!['.'] || server == seq!['?'];
    let d = if special {
        two_backslashes() + server
    } else {
        two_backslashes() + server + seq!['\\'] + share
    };
    let tail = win_tail(st, true, trailing);
    let n = d + seq!['\\'] + tail;
    lemma_win_tail_facts(st, true, trailing);
    lemma_device_output_root(server, share, tail);
    assert(n.len() >= 4);
    assert(!has_char(n, ':')) by {
        if has_char(n, ':') {
            let k = choose|k: int| 0 <= k < n.len() && n[k] == ':';
            if 2 <= k < 2 + server.len() {
                assert(server[k - 2] == ':');
            } else if !special && 3 + server.len() <= k < d.len() {
                assert(share[k - 3 - server.len()] == ':');
            } else if k > d.len() {
                assert(tail[k - d.len() - 1] == ':');
            }
        }
    }
    lemma_colon_free_root(n);
    let re = namespace_root(n).root_end;
    let e = Seq::<char>::empty();
    if special {
        assert(n.skip(4) =~= tail);
        lemma_dot_stack_of_tail(st, true, trailing, e);
        assert(e + tail =~= tail);
    } else {
        assert(n.skip(d.len() as int) =~= seq!['\\'] + tail);
        lemma_dot_stack_of_tail(st, true, trailing, seq!['\\']);
    }
    if tail.len() > 0 {
        assert(n.last() == tail.last());
    }
}

/// Windows normalization is idempotent on paths without a colon. (A colon brings in drives,
/// reserved devices and the `.\` guard, which a second pass can undo: `CON:` becomes `.\CON:.`,
/// which becomes `CON:.`.)
pub proof fn win32_normalize_idempotent(p: Seq<char>)
    requires
        !has_char(p, ':'),
    ensures
        win32_normalize(win32_normalize(p)) == win32_normalize(p),
{
    let n = win32_normalize(p);
    if p.len() == 0 || (p.len() == 1 && (p[0] as u32) < 128) {
        return;
    }
    lemma_colon_free_root(p);
    lemma_parse_root_bounds(p);
    let r = namespace_root(p);
    let absolute = r.absolute;
    let trailing = is_sep(p.last(), true);
    let st = if r.root_end < p.len() {
        dot_stack(p.skip(r.root_end), true, !absolute)
    } else {
        Seq::<Seq<char>>::empty()
    };
    if r.root_end < p.len() {
        let rest = p.skip(r.root_end);
        lemma_dot_stack_clean(rest, true, !absolute);
        assert(!has_char(rest, ':')) by {
            if has_char(rest, ':') {
                let k = choose|k: int| 0 <= k < rest.len() && rest[k] == ':';
                assert(p[r.root_end + k] == ':');
            }
        }
        lemma_dot_stack_avoids(rest, true, !absolute, ':');
    }
    assert(clean_stack(st, true, !absolute));
    if r.device.len() == 0 {
        assert(n == win_assemble(r.device, absolute, win_tail(st, absolute, trailing)));
        lemma_second_pass_plain(st, absolute, trailing);
    } else {
        let (server, share) = lemma_device_root_shape(p);
        if r.unc_root_only {
            let empty = Seq::<Seq<char>>::empty();
            assert(win_tail(empty, true, trailing) =~= Seq::<char>::empty());
            assert(n =~= win_assemble(r.device, true, win_tail(empty, true, trailing)));
            lemma_second_pass_device(server, share, empty, trailing);
        } else {
            assert(n == win_assemble(r.device, true, win_tail(st, true, trailing)));
            lemma_second_pass_device(server, share, st, trailing);
        }
    }
}

/// Brace expansion only appends to what it was given, and never beyond the expansion limit.
proof fn lemma_expand_into_grows(p: Seq<char>, depth: int, out: Seq<Seq<char>>)
    requires
        out.len() <= MAX_EXPANSIONS,
    ensures
        expand_into(p, depth, out) matches Expansion::Patterns(o) ==> out.len() < o.len()
            <= MAX_EXPANSIONS && o.take(out.len() as int) == out,
    decreases 34 - depth, 0int,
{
    if depth > crate::glob::brace::MAX_DEPTH || out.len() >= MAX_EXPANSIONS || depth < 0 {
    } else {
        match crate::glob::brace::first_brace(p) {
            None => {
                assert(out.push(p).take(out.len() as int) =~= out);
            },
            Some((open, close)) => {
                let prefix = p.take(open);
                let body = p.subrange(open + 1, close);
                let suffix = p.skip(close + 1);
                match crate::glob::brace::brace_alternatives(body) {
                    None => {},
                    Some(alts) => {
                        if alts.len() == 0 {
                            assert(out.push(p).take(out.len() as int) =~= out);
                        } else {
                            lemma_expand_into_grows(prefix + alts[0] + suffix, depth + 1, out);
                            match expand_into(prefix + alts[0] + suffix, depth + 1, out) {
                                Expansion::Patterns(o2) => {
                                    lemma_expand_alts_grows(prefix, alts, suffix, 1, depth, o2);
                                    if let Expansion::Patterns(o) = expand_alts(
                                        prefix,
                                        alts,
                                        suffix,
                                        1,
                                        depth,
                                        o2,
                                    ) {
                                        assert(o.take(out.len() as int) =~= o.take(
                                            o2.len() as int,
                                        ).take(out.len() as int));
                                    }
                                },
                                _ => {},
                            }
                        }
                    },
                }
            },
        }
    }
}

/// Expanding the remaining alternatives only appends, within the expansion limit.
proof fn lemma_expand_alts_grows(
    prefix: Seq<char>,
    alts: Seq<Seq<char>>,
    suffix: Seq<char>,
    i: int,
    depth: int,
    out: Seq<Seq<char>>,
)
    requires
        out.len() <= MAX_EXPANSIONS,
    ensures
        expand_alts(prefix, alts, suffix, i, depth, out) matches Expansion::Patterns(o) ==> out.len()
            <= o.len() <= MAX_EXPANSIONS && o.take(out.len() as int) == out,
    decreases 33 - depth, alts.len() - i,
{
    if i < 0 || i >= alts.len() || depth > crate::glob::brace::MAX_DEPTH || depth < 0 {
        assert(out.take(out.len() as int) =~= out);
    } else {
        lemma_expand_into_grows(prefix + alts[i] + suffix, depth + 1, out);
        match expand_into(prefix + alts[i] + suffix, depth + 1, out) {
            Expansion::Patterns(o2) => {
                lemma_expand_alts_grows(prefix, alts, suffix, i + 1, depth, o2);
                if let Expansion::Patterns(o) = expand_alts(prefix, alts, suffix, i + 1, depth, o2) {
                    assert(o.take(out.len() as int) =~= o.take(o2.len() as int).take(
                        out.len() as int,
                    ));
                }
            },
            _ => {},
        }
    }
}

/// Brace expansion of a pattern gives between one and `MAX_EXPANSIONS` patterns.
pub proof fn expand_bound(p: Seq<char>)
    ensures
        expand(p) matches Expansion::Patterns(ps) ==> 1 <= ps.len() <= MAX_EXPANSIONS,
{
    lemma_expand_into_grows(p, 0, Seq::empty());
}

/// `s` is a suffix of `b`.
pub open spec fn ends_with(b: Seq<char>, s: Seq<char>) -> bool {
    b.len() >= s.len() && b.subrange(b.len() - s.len(), b.len() as int) == s
}

/// A suffix argument of `basename` removes that suffix from the final component when the
/// component ends with it, and otherwise changes nothing (a non-empty suffix equal to the whole
/// path or to the whole component aside).
pub proof fn basename_suffix_removal(p: Seq<char>, s: Seq<char>)
    requires
        s.len() > 0,
        p != s,
    ensures
        posix_basename(p, None) != s ==> if ends_with(posix_basename(p, None), s) {
            posix_basename(p, Some(s)) + s == posix_basename(p, None)
        } else {
            posix_basename(p, Some(s)) == posix_basename(p, None)
        },
        win32_basename(p, None) != s ==> if ends_with(win32_basename(p, None), s) {
            win32_basename(p, Some(s)) + s == win32_basename(p, None)
        } else {
            win32_basename(p, Some(s)) == win32_basename(p, None)
        },
{
    let b = posix_basename(p, None);
    if ends_with(b, s) {
        assert(b.take(b.len() - s.len()) + s =~= b);
    }
    let w = win32_basename(p, None);
    if ends_with(w, s) {
        assert(w.take(w.len() - s.len()) + s =~= w);
    }
}

/// Windows `dirname` drops exactly the last component: for a root followed by two or more
/// separator-free components joined by `\`, the result is the root and all but the last one.
pub proof fn win32_dirname_drops_last_component(r: Seq<char>, cs: Seq<Seq<char>>)
    requires
        cs.len() >= 2,
        forall|i: int|
            0 <= i < cs.len() ==> (#[trigger] cs[i]).len() > 0 && forall|j: int|
                0 <= j < cs[i].len() ==> !is_sep(#[trigger] cs[i][j], true),
        win_root_len(r + join_with(cs, '\\')) == r.len(),
    ensures
        win32_dirname(r + join_with(cs, '\\')) == r + join_with(cs.drop_last(), '\\'),
{
    let p = r + join_with(cs, '\\');
    let t = cs.drop_last();
    let last = cs.last();
    assert(cs[cs.len() - 1].len() > 0);
    assert(join_with(cs, '\\') == join_with(t, '\\') + seq!['\\'] + last);
    let k: int = r.len() + join_with(t, '\\').len() as int;
    assert(p =~= r + join_with(t, '\\') + seq!['\\'] + last);
    assert(p[k] == '\\');
    assert forall|j: int| k < j < p.len() implies !is_sep(#[trigger] p[j], true) by {
        assert(p[j] == last[j - k - 1]);
        assert(cs[cs.len() - 1][j - k - 1] == last[j - k - 1]);
    }
    assert(!is_sep(p[p.len() - 1], true));
    lemma_last_nonsep_bounds(p, r.len() as int, p.len() as int, true);
    assert(last_nonsep_before(p, r.len() as int, p.len() as int, true) == p.len() - 1);
    lemma_last_sep_is(p, r.len() as int, p.len() - 1, true, k);
    assert(p.take(k) =~= r + join_with(t, '\\'));
}

/// Windows `resolve` takes a relative path that follows a drive-absolute one as a continuation
/// of it: resolving `a` and then `s` is resolving `a\s`, whatever the context.
pub proof fn win32_resolve_appends_relative(
    host: NodeHost,
    cwd: Seq<char>,
    drives: Seq<(Seq<char>, Seq<char>)>,
    a: Seq<char>,
    s: Seq<char>,
)
    requires
        a.len() >= 3,
        crate::text::is_ascii_alpha(a[0]),
        a[1] == ':',
        is_sep(a[2], true),
        s.len() > 0,
        parse_root(s).device.len() == 0,
        !parse_root(s).absolute,
    ensures
        win32_resolve(host, cwd, drives, seq![a, s]) == win32_resolve(
            host,
            cwd,
            drives,
            seq![a + seq!['\\'] + s],
        ),
{
    let ps = seq![a, s];
    let joined = a + seq!['\\'] + s;
    let qs = seq![joined];
    let e = Seq::<char>::empty();
    let empty = crate::win32::ResolveState { device: e, tail: e, absolute: false };
    assert(resolve_acc(ps, 2) == empty);
    assert(resolve_acc(ps, 1) == resolve_step(empty, s));
    lemma_parse_root_bounds(s);
    assert(parse_root(s).root_end == 0);
    assert(s.skip(0) =~= s);
    assert(resolve_acc(qs, 1) == empty);
    assert(joined[0] == a[0] && joined[1] == a[1] && joined[2] == a[2]);
    assert(!is_sep(a[0], true));
    assert(parse_root(joined).device =~= a.take(2));
    assert(parse_root(a).device =~= a.take(2));
    assert(joined.skip(3) =~= a.skip(3) + seq!['\\'] + s);
    assert(a.skip(3) + seq!['\\'] + (s + seq!['\\'] + e) =~= joined.skip(3) + seq!['\\'] + e);
    assert(resolve_acc(ps, 0) == resolve_acc(qs, 0));
}

/// The parts of a string split on `c` are non-empty and free of `c`.
proof fn lemma_parts_on_wf(s: Seq<char>, c: char)
    ensures
        forall|i: int|
            0 <= i < parts_on(s, c).len() ==> (#[trigger] parts_on(s, c)[i]).len() > 0 && !has_char(
                parts_on(s, c)[i],
                c,
            ),
    decreases s.len(),
{
    let k = last_index_of(s, s.len() as int, c);
    lemma_last_index_bounds(s, s.len() as int, c);
    let last = s.skip(k + 1);
    assert(!has_char(last, c)) by {
        if has_char(last, c) {
            let j = choose|j: int| 0 <= j < last.len() && last[j] == c;
            assert(s[k + 1 + j] == c);
        }
    }
    if k >= 0 {
        lemma_parts_on_wf(s.take(k), c);
    }
    let prev = if k < 0 {
        Seq::<Seq<char>>::empty()
    } else {
        parts_on(s.take(k), c)
    };
    let r = parts_on(s, c);
    assert forall|i: int| 0 <= i < r.len() implies (#[trigger] r[i]).len() > 0 && !has_char(
        r[i],
        c,
    ) by {
        if i < prev.len() {
            assert(r[i] == prev[i]);
        }
    }
}

/// Splitting a joined sequence of non-empty parts free of the joint gives the parts back.
proof fn lemma_parts_on_joined(xs: Seq<Seq<char>>, c: char)
    requires
        forall|i: int| 0 <= i < xs.len() ==> (#[trigger] xs[i]).len() > 0 && !has_char(xs[i], c),
    ensures
        parts_on(join_with(xs, c), c) == xs,
    decreases xs.len(),
{
    let s = join_with(xs, c);
    if xs.len() == 0 {
        crate::text::lemma_last_index_is(s, 0, c, -1);
        assert(s.skip(0) =~= s);
    } else {
        let p = xs.last();
        assert(xs[xs.len() - 1].len() > 0 && !has_char(xs[xs.len() - 1], c));
        if xs.len() == 1 {
            assert(s == p);
            assert forall|j: int| 0 <= j < s.len() implies #[trigger] s[j] != c by {
                if s[j] == c {
                    assert(has_char(p, c));
                }
            }
            crate::text::lemma_last_index_is(s, s.len() as int, c, -1);
            assert(s.skip(0) =~= p);
            assert(Seq::<Seq<char>>::empty().push(p) =~= xs);
        } else {
            let t = xs.drop_last();
            assert forall|i: int| 0 <= i < t.len() implies (#[trigger] t[i]).len() > 0 && !has_char(
                t[i],
                c,
            ) by {
                assert(t[i] == xs[i]);
            }
            lemma_parts_on_joined(t, c);
            let k: int = join_with(t, c).len() as int;
            assert(s == join_with(t, c) + seq![c] + p);
            assert forall|j: int| k < j < s.len() implies #[trigger] s[j] != c by {
                assert(s[j] == p[j - k - 1]);
                if s[j] == c {
                    assert(has_char(p, c));
                }
            }
            crate::text::lemma_last_index_is(s, s.len() as int, c, k);
            assert(s.take(k) =~= join_with(t, c));
            assert(s.skip(k + 1) =~= p);
            assert(t.push(p) =~= xs);
        }
    }
}

proof fn lemma_common_lower_bounds(a: Seq<Seq<char>>, b: Seq<Seq<char>>, i: int)
    requires
        0 <= i <= a.len(),
        i <= b.len(),
    ensures
        i <= common_lower_from(a, b, i) <= a.len(),
        common_lower_from(a, b, i) <= b.len(),
    decreases a.len() - i,
{
    if 0 <= i < a.len() && i < b.len() && crate::win32::unicode_lowercase(a[i])
        == crate::win32::unicode_lowercase(b[i]) {
        lemma_common_lower_bounds(a, b, i + 1);
    }
}

proof fn lemma_common_lower_prefix(a: Seq<Seq<char>>, b: Seq<Seq<char>>, i: int)
    requires
        0 <= i <= a.len(),
        i <= b.len(),
        forall|j: int| 0 <= j < i ==> crate::win32::unicode_lowercase(#[trigger] a[j])
            == crate::win32::unicode_lowercase(b[j]),
    ensures
        forall|j: int| 0 <= j < common_lower_from(a, b, i) ==> crate::win32::unicode_lowercase(
            #[trigger] a[j],
        ) == crate::win32::unicode_lowercase(b[j]),
        common_lower_from(a, b, i) == a.len() || common_lower_from(a, b, i) == b.len()
            || crate::win32::unicode_lowercase(a[common_lower_from(a, b, i)])
            != crate::win32::unicode_lowercase(b[common_lower_from(a, b, i)]),
    decreases a.len() - i,
{
    if 0 <= i < a.len() && i < b.len() && crate::win32::unicode_lowercase(a[i])
        == crate::win32::unicode_lowercase(b[i]) {
        lemma_common_lower_prefix(a, b, i + 1);
    }
}

/// Windows `relative` climbs out of every component of the resolved `from` beyond the part it
/// shares with the resolved `to` (one `..` each) and then descends into the rest of `to`.
pub proof fn win32_relative_climbs_out_of_from(
    host: NodeHost,
    cwd: Seq<char>,
    drives: Seq<(Seq<char>, Seq<char>)>,
    from: Seq<char>,
    to: Seq<char>,
)
    requires
        from != to,
        ({
            let f = win32_resolve(host, cwd, drives, seq![from]);
            let t = win32_resolve(host, cwd, drives, seq![to]);
            &&& !crate::text::eq_ignore_ascii_case(f, t)
            &&& common_lower_from(parts_on(f, '\\'), parts_on(t, '\\'), 0) > 0
        }),
    ensures
        ({
            let fp = parts_on(win32_resolve(host, cwd, drives, seq![from]), '\\');
            let tp = parts_on(win32_resolve(host, cwd, drives, seq![to]), '\\');
            let k = common_lower_from(fp, tp, 0);
            let rp = parts_on(win32_relative(host, cwd, drives, from, to), '\\');
            &&& forall|i: int|
                0 <= i < k ==> crate::win32::unicode_lowercase(#[trigger] fp[i])
                    == crate::win32::unicode_lowercase(tp[i])
            &&& (k == fp.len() || k == tp.len() || crate::win32::unicode_lowercase(fp[k])
                != crate::win32::unicode_lowercase(tp[k]))
            &&& rp.len() == (fp.len() - k) + (tp.len() - k)
            &&& forall|i: int| 0 <= i < fp.len() - k ==> #[trigger] rp[i] == dotdot()
            &&& forall|i: int| 0 <= i < tp.len() - k ==> #[trigger] rp[fp.len() - k + i] == tp[k + i]
        }),
{
    let f = win32_resolve(host, cwd, drives, seq![from]);
    let t = win32_resolve(host, cwd, drives, seq![to]);
    let fp = parts_on(f, '\\');
    let tp = parts_on(t, '\\');
    lemma_common_lower_bounds(fp, tp, 0);
    lemma_common_lower_prefix(fp, tp, 0);
    let k = common_lower_from(fp, tp, 0);
    let segs = parents(fp.len() - k) + tp.skip(k);
    lemma_parts_on_wf(t, '\\');
    assert forall|i: int| 0 <= i < segs.len() implies (#[trigger] segs[i]).len() > 0 && !has_char(
        segs[i],
        '\\',
    ) by {
        if i < fp.len() - k {
            assert(segs[i] == dotdot());
            if has_char(dotdot(), '\\') {
                let j = choose|j: int| 0 <= j < dotdot().len() && dotdot()[j] == '\\';
            }
        } else {
            assert(segs[i] == tp[k + i - (fp.len() - k)]);
        }
    }
    assert(win32_relative(host, cwd, drives, from, to) == join_with(segs, '\\'));
    lemma_parts_on_joined(segs, '\\');
    let rp = parts_on(win32_relative(host, cwd, drives, from, to), '\\');
    assert forall|i: int| 0 <= i < tp.len() - k implies #[trigger] rp[fp.len() - k + i] == tp[k + i] by {
        assert(segs[fp.len() - k + i] == tp.skip(k)[i]);
    }
}

/// A glob character that stands for itself or is `*` or `?`: no separator, class, group or
/// escape.
pub open spec fn plain_glob_char(c: char, win: bool) -> bool {
    !is_glob_sep(c, win) && c != '[' && c != '(' && c != '\\'
}

/// A regular expression whose only wildcard is the non-separator class: every `.` is escaped,
/// and every `*` repeats `not_sep_re`.
pub open spec fn wildcards_stay_in_segment(re: Seq<char>, win: bool) -> bool {
    &&& forall|k: int| 0 <= k < re.len() && #[trigger] re[k] == '.' ==> k > 0 && re[k - 1] == '\\'
    &&& forall|k: int|
        0 <= k < re.len() && #[trigger] re[k] == '*' ==> k >= not_sep_re(win).len() && re.subrange(
            k - not_sep_re(win).len(),
            k,
        ) == not_sep_re(win)
}

proof fn lemma_wildcards_concat(a: Seq<char>, b: Seq<char>, win: bool)
    requires
        wildcards_stay_in_segment(a, win),
        wildcards_stay_in_segment(b, win),
        b.len() == 0 || (b[0] != '.' && b[0] != '*'),
    ensures
        wildcards_stay_in_segment(a + b, win),
{
    let r = a + b;
    let n = not_sep_re(win);
    assert forall|k: int| 0 <= k < r.len() && #[trigger] r[k] == '.' implies k > 0 && r[k - 1]
        == '\\' by {
        if k >= a.len() {
            assert(b[k - a.len()] == '.');
            assert(r[k - 1] == b[k - a.len() - 1]);
        } else {
            assert(a[k] == '.');
        }
    }
    assert forall|k: int| 0 <= k < r.len() && #[trigger] r[k] == '*' implies k >= n.len()
        && r.subrange(k - n.len(), k) == n by {
        if k >= a.len() {
            assert(b[k - a.len()] == '*');
            assert(r.subrange(k - n.len(), k) =~= b.subrange(k - a.len() - n.len(), k - a.len()));
        } else {
            assert(a[k] == '*');
            assert(r.subrange(k - n.len(), k) =~= a.subrange(k - n.len(), k));
        }
    }
}

/// The translation of a plain glob without `**` keeps its wildcards inside one segment.
proof fn lemma_compile_plain(s: Seq<char>, i: int, seg: bool, win: bool)
    requires
        0 <= i,
        forall|j: int| 0 <= j < s.len() ==> plain_glob_char(#[trigger] s[j], win),
        forall|j: int| 0 <= j < s.len() - 1 ==> !(#[trigger] s[j] == '*' && s[j + 1] == '*'),
    ensures
        wildcards_stay_in_segment(compile_from(s, i, seg, win), win),
        compile_from(s, i, seg, win).len() == 0 || (compile_from(s, i, seg, win)[0] != '.'
            && compile_from(s, i, seg, win)[0] != '*'),
    decreases s.len() - i,
{
    if i < s.len() {
        let c = s[i];
        assert(plain_glob_char(c, win));
        lemma_compile_plain(s, i + 1, false, win);
        let rest = compile_from(s, i + 1, false, win);
        let pre = if seg { no_dot() } else { Seq::<char>::empty() };
        let n = not_sep_re(win);
        let atom = if c == '*' {
            assert(!(i + 1 < s.len() && s[i + 1] == '*'));
            pre + n + seq!['*']
        } else if c == '?' {
            pre + n
        } else {
            literal(c)
        };
        assert(compile_from(s, i, seg, win) == atom + rest);
        assert(wildcards_stay_in_segment(atom, win)) by {
            assert forall|k: int| 0 <= k < atom.len() && #[trigger] atom[k] == '.' implies k > 0
                && atom[k - 1] == '\\' by {
                if c == '*' || c == '?' {
                    if k < pre.len() {
                        assert(pre == no_dot());
                        assert(k == 4);
                    } else if k < pre.len() + n.len() {
                        assert(atom[k] == n[k - pre.len()]);
                    }
                }
            }
            assert forall|k: int| 0 <= k < atom.len() && #[trigger] atom[k] == '*' implies k
                >= n.len() && atom.subrange(k - n.len(), k) == n by {
                if c == '*' || c == '?' {
                    if k < pre.len() {
                        assert(pre == no_dot());
                    } else if k < pre.len() + n.len() {
                        assert(atom[k] == n[k - pre.len()]);
                    } else {
                        assert(k == pre.len() + n.len());
                        assert(atom.subrange(k - n.len(), k) =~= n);
                    }
                }
            }
        }
        lemma_wildcards_concat(atom, rest, win);
    }
}

/// A `*` of a glob never reaches across a separator: the translation of a pattern made of plain
/// characters, `?` and single `*` uses no wildcard but the non-separator class, which every `*`
/// repeats.
pub proof fn glob_star_stays_in_segment(s: Seq<char>, win: bool)
    requires
        forall|j: int| 0 <= j < s.len() ==> plain_glob_char(#[trigger] s[j], win),
        forall|j: int| 0 <= j < s.len() - 1 ==> !(#[trigger] s[j] == '*' && s[j + 1] == '*'),
    ensures
        wildcards_stay_in_segment(compile(s, win), win),
{
    lemma_compile_plain(s, 0, true, win);
    let head = seq!['^', '(', '?', ':'];
    let body = compile_from(s, 0, true, win);
    let end = seq![')', '$'];
    assert(wildcards_stay_in_segment(head, win));
    assert(wildcards_stay_in_segment(end, win));
    lemma_wildcards_concat(head, body, win);
    lemma_wildcards_concat(head + body, end, win);
}

/// POSIX `dirname` drops exactly the last component: for an optional leading `/` followed by two
/// or more separator-free components joined by `/`, the result is all but the last one.
pub proof fn posix_dirname_drops_last_component(r: Seq<char>, cs: Seq<Seq<char>>)
    requires
        r.len() == 0 || r == seq!['/'],
        cs.len() >= 2,
        forall|i: int|
            0 <= i < cs.len() ==> (#[trigger] cs[i]).len() > 0 && forall|j: int|
                0 <= j < cs[i].len() ==> !is_sep(#[trigger] cs[i][j], false),
    ensures
        posix_dirname(r + join_with(cs, '/')) == r + join_with(cs.drop_last(), '/'),
{
    let p = r + join_with(cs, '/');
    let t = cs.drop_last();
    let last = cs.last();
    assert(cs[cs.len() - 1].len() > 0);
    assert(cs[0].len() > 0);
    assert(join_with(cs, '/') == join_with(t, '/') + seq!['/'] + last);
    let k: int = r.len() + join_with(t, '/').len() as int;
    assert(p =~= r + join_with(t, '/') + seq!['/'] + last);
    assert(p[k] == '/');
    assert forall|j: int| k < j < p.len() implies !is_sep(#[trigger] p[j], false) by {
        assert(p[j] == last[j - k - 1]);
        assert(cs[cs.len() - 1][j - k - 1] == last[j - k - 1]);
    }
    assert(!is_sep(p[p.len() - 1], false));
    lemma_last_nonsep_bounds(p, 1, p.len() as int, false);
    assert(last_nonsep_before(p, 1, p.len() as int, false) == p.len() - 1);
    lemma_join_nonempty(t);
    lemma_last_sep_is(p, 1, p.len() - 1, false, k);
    assert(p.take(k) =~= r + join_with(t, '/'));
}

proof fn lemma_join_nonempty(t: Seq<Seq<char>>)
    requires
        t.len() > 0,
        t[0].len() > 0,
    ensures
        join_with(t, '/').len() >= t[0].len(),
    decreases t.len(),
{
    if t.len() > 1 {
        lemma_join_nonempty(t.drop_last());
    }
}

/// On a Windows host whose cwd is drive-absolute, a relative path (no device, not rooted)
/// resolves below the cwd: resolving `s` is resolving `cwd\s`.
pub proof fn win32_resolve_relative_under_cwd(
    cwd: Seq<char>,
    drives: Seq<(Seq<char>, Seq<char>)>,
    s: Seq<char>,
)
    requires
        cwd.len() >= 3,
        crate::text::is_ascii_alpha(cwd[0]),
        cwd[1] == ':',
        is_sep(cwd[2], true),
        s.len() > 0,
        parse_root(s).device.len() == 0,
        !parse_root(s).absolute,
    ensures
        win32_resolve(NodeHost::Win32, cwd, drives, seq![s]) == win32_resolve(
            NodeHost::Win32,
            cwd,
            drives,
            seq![cwd + seq!['\\'] + s],
        ),
{
    let ps = seq![s];
    let joined = cwd + seq!['\\'] + s;
    let qs = seq![joined];
    let e = Seq::<char>::empty();
    let empty = crate::win32::ResolveState { device: e, tail: e, absolute: false };
    assert(resolve_acc(ps, 1) == empty);
    lemma_parse_root_bounds(s);
    assert(parse_root(s).root_end == 0);
    assert(s.skip(0) =~= s);
    let s0 = resolve_acc(ps, 0);
    assert(s0 == resolve_step(empty, s));
    assert(!is_sep(cwd[0], true));
    assert(!crate::posix::resolve_returns_cwd(ps, crate::win32::win32_cwd(NodeHost::Win32, cwd), true));
    assert(crate::win32::resolve_base_dir(NodeHost::Win32, cwd, drives, s0.device) == cwd);
    assert(parse_root(cwd).device =~= cwd.take(2));
    assert(resolve_acc(qs, 1) == empty);
    assert(joined[0] == cwd[0] && joined[1] == cwd[1] && joined[2] == cwd[2]);
    assert(parse_root(joined).device =~= cwd.take(2));
    assert(cwd.skip(3) + seq!['\\'] + (s + seq!['\\'] + e) =~= joined.skip(3) + seq!['\\'] + e);
}

} // verus!
