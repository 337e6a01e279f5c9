//! Translation of a brace-free glob into a regular expression, following the option set of
//! minimatch 10.2.5 as bundled by Node: separators, `*`, `**`, `?`, character classes and
//! extglobs (`@(..)`, `+(..)`, `?(..)`, `*(..)`, `!(..)`); segments never match a leading dot.

use vstd::prelude::*;

use crate::glob::brace::{split_top, split_top_exec, split_top_from};
use crate::shared::vviews;
use crate::text::{append_chars, sub_chars};

verus! {

/// Whether `c` separates segments of a glob.
pub open spec fn is_glob_sep(c: char, win: bool) -> bool {
    c == '/' || (win && c == '\\')
}

/// The regular expression of one separator: `/`, or `[\\/]` for Windows.
pub open spec fn sep_re(win: bool) -> Seq<char> {
    if win {
        seq!['[', '\\', '\\', '/', ']']
    } else {
        seq!['/']
    }
}

/// The regular expression of one non-separator character: `[^/]`, or `[^\\/]` for Windows.
pub open spec fn not_sep_re(win: bool) -> Seq<char> {
    if win {
        seq!['[', '^', '\\', '\\', '/', ']']
    } else {
        seq!['[', '^', '/', ']']
    }
}

/// `(?!\.)`: the segment must not start with a dot.
pub open spec fn no_dot() -> Seq<char> {
    seq!['(', '?', '!', '\\', '.', ')']
}

/// The position of the `)` closing the `(` at `i`, tracking nesting `depth`.
pub open spec fn closing_from(s: Seq<char>, i: int, depth: int) -> Option<int>
    decreases s.len() - i,
{
    if i < 0 || i >= s.len() {
        None
    } else if s[i] == '(' {
        closing_from(s, i + 1, depth + 1)
    } else if s[i] == ')' {
        if depth - 1 == 0 {
            Some(i)
        } else {
            closing_from(s, i + 1, depth - 1)
        }
    } else {
        closing_from(s, i + 1, depth)
    }
}

/// The first index at or after `i` that is not `*`.
pub open spec fn star_run_end(s: Seq<char>, i: int) -> int
    decreases s.len() - i,
{
    if i < 0 || i >= s.len() || s[i] != '*' {
        i
    } else {
        star_run_end(s, i + 1)
    }
}

/// The first `]` at or after `i`, or -1.
pub open spec fn class_close(s: Seq<char>, i: int) -> int
    decreases s.len() - i,
{
    if i < 0 || i >= s.len() {
        -1
    } else if s[i] == ']' {
        i
    } else {
        class_close(s, i + 1)
    }
}

/// The members of a character class with each backslash doubled.
pub open spec fn escape_class(s: Seq<char>) -> Seq<char>
    decreases s.len(),
{
    if s.len() == 0 {
        Seq::empty()
    } else {
        escape_class(s.drop_last()) + (if s.last() == '\\' {
            seq!['\\', '\\']
        } else {
            seq![s.last()]
        })
    }
}

/// A literal character, escaped when it is special in a regular expression.
pub open spec fn literal(c: char) -> Seq<char> {
    if c == '.' || c == '+' || c == '^' || c == '$' || c == '(' || c == ')' || c == '|' || c == '{'
        || c == '}' || c == '\\' {
        seq!['\\', c]
    } else {
        seq![c]
    }
}

/// The regular expression of an extglob with operator `op` over the alternation `joined`.
pub open spec fn extglob(op: char, joined: Seq<char>, win: bool) -> Seq<char> {
    let group = seq!['(', '?', ':'] + joined + seq![')'];
    if op == '@' {
        group
    } else if op == '+' {
        group + seq!['+']
    } else if op == '?' {
        group + seq!['?']
    } else if op == '*' {
        group + seq!['*']
    } else {
        seq!['(', '?', '!', '(', '?', ':'] + joined + seq![')', '$', ')'] + not_sep_re(win) + seq![
            '*',
        ]
    }
}

/// Whether `c` introduces an extglob when followed by `(`.
pub open spec fn is_extglob_op(c: char) -> bool {
    c == '@' || c == '+' || c == '?' || c == '*' || c == '!'
}

/// The alternatives of an extglob body: its parts between `|` outside parentheses.
pub open spec fn split_alternatives(s: Seq<char>) -> Seq<Seq<char>> {
    split_top(s, '(', ')', '|')
}

/// The regular expression of a glob fragment.
pub open spec fn compile_fragment(s: Seq<char>, win: bool) -> Seq<char>
    decreases s.len(), 2int, 0int,
{
    compile_from(s, 0, true, win)
}

/// The compiled alternatives `parts[0..k]`, joined by `|`; every part is shorter than `n`.
pub open spec fn compile_joined(parts: Seq<Seq<char>>, k: int, n: int, win: bool) -> Seq<char>
    decreases n, 0int, k,
    when 0 <= k <= parts.len() && (forall|j: int| 0 <= j < parts.len() ==> #[trigger] parts[j].len()
        < n)
{
    if k <= 0 {
        Seq::empty()
    } else if k == 1 {
        compile_fragment(parts[0], win)
    } else {
        compile_joined(parts, k - 1, n, win) + seq!['|'] + compile_fragment(parts[k - 1], win)
    }
}

/// The regular expression of `s[i..]`, given whether position `i` starts a segment.
pub open spec fn compile_from(s: Seq<char>, i: int, seg: bool, win: bool) -> Seq<char>
    decreases s.len(), 1int, s.len() - i,
{
    if i < 0 || i >= s.len() {
        Seq::empty()
    } else {
        let c = s[i];
        let pre = if seg {
            no_dot()
        } else {
            Seq::empty()
        };
        if is_glob_sep(c, win) {
            sep_re(win) + compile_from(s, i + 1, true, win)
        } else if is_extglob_op(c) && i + 1 < s.len() && s[i + 1] == '(' && closing_from(
            s,
            i + 1,
            0,
        ) is Some {
            let close = closing_from(s, i + 1, 0)->0;
            proof {
                lemma_closing_bounds(s, i + 1, 0);
            }
            let parts = split_alternatives(s.subrange(i + 2, close));
            proof {
                lemma_split_parts_shorter(s.subrange(i + 2, close), '(', ')', '|');
            }
            extglob(c, compile_joined(parts, parts.len() as int, s.len() as int, win), win)
                + compile_from(s, close + 1, false, win)
        } else if c == '*' {
            if i + 1 < s.len() && s[i + 1] == '*' {
                let j = star_run_end(s, i) - 1;
                proof {
                    lemma_star_run_bounds(s, i + 1);
                }
                if j + 1 < s.len() && is_glob_sep(s[j + 1], win) {
                    pre + seq!['(', '?', ':'] + not_sep_re(win) + seq!['+'] + sep_re(win) + seq![
                        ')',
                        '*',
                    ] + compile_from(s, j + 2, true, win)
                } else {
                    pre + seq!['.', '*'] + compile_from(s, j + 1, false, win)
                }
            } else {
                pre + not_sep_re(win) + seq!['*'] + compile_from(s, i + 1, false, win)
            }
        } else if c == '?' {
            pre + not_sep_re(win) + compile_from(s, i + 1, false, win)
        } else if c == '[' {
            let close = class_close(s, i + 1);
            proof {
                lemma_class_close_bounds(s, i + 1);
            }
            if close < 0 {
                seq!['\\', '['] + compile_from(s, i + 1, false, win)
            } else {
                let negated = s[i + 1] == '!' || s[i + 1] == '^';
                let start = if negated {
                    i + 2
                } else {
                    i + 1
                };
                pre + seq!['['] + (if negated {
                    seq!['^']
                } else {
                    Seq::empty()
                }) + escape_class(s.subrange(start, close)) + seq![']'] + compile_from(
                    s,
                    close + 1,
                    false,
                    win,
                )
            }
        } else {
            literal(c) + compile_from(s, i + 1, false, win)
        }
    }
}

/// The anchored regular expression of a brace-free glob.
pub open spec fn compile(s: Seq<char>, win: bool) -> Seq<char> {
    seq!['^', '(', '?', ':'] + compile_fragment(s, win) + seq![')', '$']
}

pub proof fn lemma_closing_bounds(s: Seq<char>, i: int, depth: int)
    requires
        0 <= i,
    ensures
        closing_from(s, i, depth) matches Some(k) ==> i <= k < s.len() && s[k] == ')',
    decreases s.len() - i,
{
    if 0 <= i < s.len() {
        if s[i] == '(' {
            lemma_closing_bounds(s, i + 1, depth + 1);
        } else if s[i] == ')' {
            if depth - 1 != 0 {
                lemma_closing_bounds(s, i + 1, depth - 1);
            }
        } else {
            lemma_closing_bounds(s, i + 1, depth);
        }
    }
}

pub proof fn lemma_star_run_bounds(s: Seq<char>, i: int)
    requires
        0 <= i,
    ensures
        i <= star_run_end(s, i) <= if i <= s.len() {
            s.len() as int
        } else {
            i
        },
        i < s.len() && s[i] == '*' ==> star_run_end(s, i) > i,
        star_run_end(s, i) < s.len() ==> s[star_run_end(s, i)] != '*',
        forall|k: int| i <= k < star_run_end(s, i) ==> #[trigger] s[k] == '*',
    decreases s.len() - i,
{
    if 0 <= i < s.len() && s[i] == '*' {
        lemma_star_run_bounds(s, i + 1);
    }
}

pub proof fn lemma_class_close_bounds(s: Seq<char>, i: int)
    requires
        0 <= i,
    ensures
        class_close(s, i) == -1 || (i <= class_close(s, i) < s.len() && s[class_close(s, i)]
            == ']'),
        forall|k: int|
            i <= k < s.len() && (class_close(s, i) == -1 || k < class_close(s, i)) ==> #[trigger] s[k]
                != ']',
    decreases s.len() - i,
{
    if 0 <= i < s.len() && s[i] != ']' {
        lemma_class_close_bounds(s, i + 1);
    }
}

/// Every part produced by splitting is no longer than the input.
pub proof fn lemma_split_parts_shorter(v: Seq<char>, open: char, close: char, needle: char)
    ensures
        forall|j: int|
            0 <= j < split_top(v, open, close, needle).len() ==> #[trigger] split_top(
                v,
                open,
                close,
                needle,
            )[j].len() <= v.len(),
{
    lemma_split_from_parts(v, open, close, needle, 0, 0, 0, Seq::empty());
}

proof fn lemma_split_from_parts(
    v: Seq<char>,
    open: char,
    close: char,
    needle: char,
    i: int,
    depth: int,
    start: int,
    acc: Seq<Seq<char>>,
)
    requires
        0 <= start <= v.len(),
        start <= i || i < 0 || i >= v.len(),
        forall|j: int| 0 <= j < acc.len() ==> #[trigger] acc[j].len() <= v.len(),
    ensures
        forall|j: int|
            0 <= j < split_top_from(v, open, close, needle, i, depth, start, acc).len()
                ==> #[trigger] split_top_from(v, open, close, needle, i, depth, start, acc)[j].len()
                <= v.len(),
    decreases v.len() - i,
{
    let r = split_top_from(v, open, close, needle, i, depth, start, acc);
    if i < 0 || i >= v.len() {
        let t = acc.push(v.subrange(start, v.len() as int));
        assert(r == t);
        assert forall|j: int| 0 <= j < t.len() implies #[trigger] t[j].len() <= v.len() by {
            if j < acc.len() {
                assert(t[j] == acc[j]);
            }
        }
    } else if v[i] == open {
        lemma_split_from_parts(v, open, close, needle, i + 1, depth + 1, start, acc);
        assert(r == split_top_from(v, open, close, needle, i + 1, depth + 1, start, acc));
    } else if v[i] == close {
        lemma_split_from_parts(v, open, close, needle, i + 1, depth - 1, start, acc);
        assert(r == split_top_from(v, open, close, needle, i + 1, depth - 1, start, acc));
    } else if v[i] == needle && depth == 0 {
        let t = acc.push(v.subrange(start, i));
        assert forall|j: int| 0 <= j < t.len() implies #[trigger] t[j].len() <= v.len() by {
            if j < acc.len() {
                assert(t[j] == acc[j]);
            }
        }
        lemma_split_from_parts(v, open, close, needle, i + 1, depth, i + 1, t);
        assert(r == split_top_from(v, open, close, needle, i + 1, depth, i + 1, t));
    } else {
        lemma_split_from_parts(v, open, close, needle, i + 1, depth, start, acc);
        assert(r == split_top_from(v, open, close, needle, i + 1, depth, start, acc));
    }
}

fn push_seq(out: &mut Vec<char>, items: &[char])
    ensures
        final(out)@ == old(out)@ + items@,
{
    append_chars(out, items);
}

fn sep_re_exec(win: bool) -> (r: Vec<char>)
    ensures
        r@ == sep_re(win),
{
    let mut v: Vec<char> = Vec::new();
    if win {
        v.push('[');
        v.push('\\');
        v.push('\\');
        v.push('/');
        v.push(']');
    } else {
        v.push('/');
    }
    assert(v@ =~= sep_re(win));
    v
}

fn not_sep_re_exec(win: bool) -> (r: Vec<char>)
    ensures
        r@ == not_sep_re(win),
{
    let mut v: Vec<char> = Vec::new();
    v.push('[');
    v.push('^');
    if win {
        v.push('\\');
        v.push('\\');
    }
    v.push('/');
    v.push(']');
    assert(v@ =~= not_sep_re(win));
    v
}

fn no_dot_exec() -> (r: Vec<char>)
    ensures
        r@ == no_dot(),
{
    let mut v: Vec<char> = Vec::new();
    v.push('(');
    v.push('?');
    v.push('!');
    v.push('\\');
    v.push('.');
    v.push(')');
    assert(v@ =~= no_dot());
    v
}

/// The position of the `)` closing the `(` at `open`.
fn closing_paren(s: &[char], open: usize) -> (r: Option<usize>)
    requires
        open <= s@.len(),
    ensures
        match r {
            Some(k) => closing_from(s@, open as int, 0) == Some(k as int),
            None => closing_from(s@, open as int, 0) is None,
        },
{
    let mut depth: i128 = 0;
    let mut i: usize = open;
    while i < s.len()
        invariant
            open <= i <= s@.len(),
            -(i as int) <= depth <= i,
            closing_from(s@, open as int, 0) == closing_from(s@, i as int, depth as int),
        decreases s.len() - i,
    {
        let c = s[i];
        if c == '(' {
            depth = depth + 1;
        } else if c == ')' {
            depth = depth - 1;
            if depth == 0 {
                return Some(i);
            }
        }
        i = i + 1;
    }
    None
}

fn escape_class_exec(s: &[char]) -> (r: Vec<char>)
    ensures
        r@ == escape_class(s@),
{
    let mut out: Vec<char> = Vec::new();
    let mut i: usize = 0;
    while i < s.len()
        invariant
            i <= s.len(),
            out@ == escape_class(s@.take(i as int)),
        decreases s.len() - i,
    {
        assert(s@.take(i + 1).drop_last() =~= s@.take(i as int));
        if s[i] == '\\' {
            out.push('\\');
            out.push('\\');
        } else {
            out.push(s[i]);
        }
        assert(out@ =~= escape_class(s@.take(i + 1)));
        i = i + 1;
    }
    assert(s@.take(s.len() as int) =~= s@);
    out
}

fn literal_exec(out: &mut Vec<char>, c: char)
    ensures
        final(out)@ == old(out)@ + literal(c),
{
    if c == '.' || c == '+' || c == '^' || c == '$' || c == '(' || c == ')' || c == '|' || c == '{'
        || c == '}' || c == '\\' {
        out.push('\\');
    }
    out.push(c);
    assert(final(out)@ =~= old(out)@ + literal(c));
}

fn extglob_exec(op: char, joined: &[char], win: bool) -> (r: Vec<char>)
    requires
        is_extglob_op(op),
    ensures
        r@ == extglob(op, joined@, win),
{
    let mut v: Vec<char> = Vec::new();
    if op == '!' {
        v.push('(');
        v.push('?');
        v.push('!');
        v.push('(');
        v.push('?');
        v.push(':');
        append_chars(&mut v, joined);
        v.push(')');
        v.push('$');
        v.push(')');
        append_chars(&mut v, &not_sep_re_exec(win));
        v.push('*');
    } else {
        v.push('(');
        v.push('?');
        v.push(':');
        append_chars(&mut v, joined);
        v.push(')');
        if op == '+' {
            v.push('+');
        } else if op == '?' {
            v.push('?');
        } else if op == '*' {
            v.push('*');
        }
    }
    assert(v@ =~= extglob(op, joined@, win));
    v
}

/// The extglob at `index` (whose `(` at `index + 1` closes at `close`).
fn extglob_step(s: &[char], index: usize, close: usize, seg: bool, win: bool) -> (r: Vec<char>)
    requires
        index + 1 < s@.len(),
        is_extglob_op(s@[index as int]),
        s@[index + 1] == '(',
        closing_from(s@, index + 1, 0) == Some(close as int),
    ensures
        compile_from(s@, index as int, seg, win) == r@ + compile_from(s@, close + 1, false, win),
        index < close < s@.len(),
    decreases s@.len(), 0int,
{
    let n = s.len();
    proof {
        lemma_closing_bounds(s@, index + 1, 0);
    }
    let inner = sub_chars(s, index + 2, close);
    let parts = split_top_exec(&inner, '(', ')', '|');
    let ghost pv = vviews(parts@);
    proof {
        lemma_split_parts_shorter(inner@, '(', ')', '|');
    }
    let mut joined: Vec<char> = Vec::new();
    let mut k: usize = 0;
    while k < parts.len()
        invariant
            pv == vviews(parts@),
            pv == split_alternatives(inner@),
            inner@.len() < n,
            n == s@.len(),
            k <= parts.len(),
            forall|j: int| 0 <= j < pv.len() ==> #[trigger] pv[j].len() <= inner@.len(),
            joined@ == compile_joined(pv, k as int, n as int, win),
        decreases parts.len() - k,
    {
        assert(pv[k as int].len() < s@.len());
        let part = compile_fragment_exec(&parts[k], win);
        if k != 0 {
            joined.push('|');
        }
        append_chars(&mut joined, &part);
        assert(joined@ =~= compile_joined(pv, k + 1, n as int, win));
        k = k + 1;
    }
    let piece = extglob_exec(s[index], &joined, win);
    assert(piece@ + compile_from(s@, close + 1, false, win) =~= compile_from(
        s@,
        index as int,
        seg,
        win,
    ));
    piece
}

/// A run of stars at `index` (at least two).
fn globstar_step(s: &[char], index: usize, seg: bool, win: bool) -> (r: (Vec<char>, usize, bool))
    requires
        index + 1 < s@.len(),
        s@[index as int] == '*',
        s@[index + 1] == '*',
    ensures
        compile_from(s@, index as int, seg, win) == r.0@ + compile_from(s@, r.1 as int, r.2, win),
        index < r.1 <= s@.len(),
{
    let n = s.len();
    let ghost i = index as int;
    let mut j = index;
    while j + 1 < n && s[j + 1] == '*'
        invariant
            index <= j < n,
            n == s@.len(),
            forall|k: int| index <= k <= j ==> #[trigger] s@[k] == '*',
        decreases n - j,
    {
        j = j + 1;
    }
    proof {
        lemma_star_run_bounds(s@, i);
        assert(star_run_end(s@, i) == j + 1) by {
            let e = star_run_end(s@, i);
            if e < j + 1 {
                assert(s@[e] == '*');
            }
            if e > j + 1 {
                assert(s@[j + 1] == '*');
            }
        }
    }
    let mut out: Vec<char> = if seg {
        no_dot_exec()
    } else {
        Vec::new()
    };
    if j + 1 < n && (s[j + 1] == '/' || (win && s[j + 1] == '\\')) {
        out.push('(');
        out.push('?');
        out.push(':');
        push_seq(&mut out, &not_sep_re_exec(win));
        out.push('+');
        push_seq(&mut out, &sep_re_exec(win));
        out.push(')');
        out.push('*');
        assert(out@ + compile_from(s@, j + 2, true, win) =~= compile_from(s@, i, seg, win));
        (out, j + 2, true)
    } else {
        out.push('.');
        out.push('*');
        assert(out@ + compile_from(s@, j + 1, false, win) =~= compile_from(s@, i, seg, win));
        (out, j + 1, false)
    }
}

/// A character class (or a literal `[`) at `index`.
fn class_step(s: &[char], index: usize, seg: bool, win: bool) -> (r: (Vec<char>, usize, bool))
    requires
        index < s@.len(),
        s@[index as int] == '[',
    ensures
        compile_from(s@, index as int, seg, win) == r.0@ + compile_from(s@, r.1 as int, r.2, win),
        index < r.1 <= s@.len(),
{
    let n = s.len();
    let ghost i = index as int;
    let mut close = index + 1;
    while close < n && s[close] != ']'
        invariant
            index + 1 <= close <= n,
            n == s@.len(),
            class_close(s@, i + 1) == class_close(s@, close as int),
        decreases n - close,
    {
        close = close + 1;
    }
    proof {
        lemma_class_close_bounds(s@, i + 1);
    }
    let mut out: Vec<char> = Vec::new();
    if close < n {
        if seg {
            push_seq(&mut out, &no_dot_exec());
        }
        out.push('[');
        let negated = s[index + 1] == '!' || s[index + 1] == '^';
        let start = if negated {
            index + 2
        } else {
            index + 1
        };
        if negated {
            out.push('^');
        }
        let members = sub_chars(s, start, close);
        push_seq(&mut out, &escape_class_exec(&members));
        out.push(']');
        assert(out@ + compile_from(s@, close + 1, false, win) =~= compile_from(s@, i, seg, win));
        (out, close + 1, false)
    } else {
        out.push('\\');
        out.push('[');
        assert(out@ + compile_from(s@, i + 1, false, win) =~= compile_from(s@, i, seg, win));
        (out, index + 1, false)
    }
}

/// The translation of the glob element at `index`, with the position and segment flag after it.
fn compile_step(s: &[char], index: usize, seg: bool, win: bool) -> (r: (Vec<char>, usize, bool))
    requires
        index < s@.len(),
    ensures
        compile_from(s@, index as int, seg, win) == r.0@ + compile_from(s@, r.1 as int, r.2, win),
        index < r.1 <= s@.len(),
    decreases s@.len(), 1int,
{
    let n = s.len();
    let c = s[index];
    let ghost i = index as int;
    if c == '/' || (win && c == '\\') {
        let out = sep_re_exec(win);
        assert(out@ + compile_from(s@, i + 1, true, win) =~= compile_from(s@, i, seg, win));
        return (out, index + 1, true);
    }
    if (c == '@' || c == '+' || c == '?' || c == '*' || c == '!') && index + 1 < n && s[index + 1]
        == '(' {
        if let Some(close) = closing_paren(s, index + 1) {
            let piece = extglob_step(s, index, close, seg, win);
            return (piece, close + 1, false);
        }
    }
    if c == '*' {
        if index + 1 < n && s[index + 1] == '*' {
            return globstar_step(s, index, seg, win);
        }
        let mut out: Vec<char> = if seg {
            no_dot_exec()
        } else {
            Vec::new()
        };
        push_seq(&mut out, &not_sep_re_exec(win));
        out.push('*');
        assert(out@ + compile_from(s@, i + 1, false, win) =~= compile_from(s@, i, seg, win));
        return (out, index + 1, false);
    }
    if c == '?' {
        let mut out: Vec<char> = if seg {
            no_dot_exec()
        } else {
            Vec::new()
        };
        push_seq(&mut out, &not_sep_re_exec(win));
        assert(out@ + compile_from(s@, i + 1, false, win) =~= compile_from(s@, i, seg, win));
        return (out, index + 1, false);
    }
    if c == '[' {
        return class_step(s, index, seg, win);
    }
    let mut out: Vec<char> = Vec::new();
    literal_exec(&mut out, c);
    assert(out@ + compile_from(s@, i + 1, false, win) =~= compile_from(s@, i, seg, win));
    (out, index + 1, false)
}

/// The regular expression of a glob fragment.
pub(crate) fn compile_fragment_exec(s: &[char], win: bool) -> (r: Vec<char>)
    ensures
        r@ == compile_fragment(s@, win),
    decreases s@.len(), 2int,
{
    let n = s.len();
    let mut out: Vec<char> = Vec::new();
    let mut index: usize = 0;
    let mut seg = true;
    assert(out@ + compile_from(s@, 0, true, win) =~= compile_fragment(s@, win));
    while index < n
        invariant
            n == s@.len(),
            index <= n,
            compile_fragment(s@, win) == out@ + compile_from(s@, index as int, seg, win),
        decreases n - index,
    {
        let (piece, next, next_seg) = compile_step(s, index, seg, win);
        let ghost old_out = out@;
        push_seq(&mut out, &piece);
        assert(out@ + compile_from(s@, next as int, next_seg, win) =~= old_out + (piece@
            + compile_from(s@, next as int, next_seg, win)));
        index = next;
        seg = next_seg;
    }
    assert(out@ =~= compile_fragment(s@, win));
    out
}

/// The anchored regular expression of a brace-free glob.
pub(crate) fn compile_exec(s: &[char], win: bool) -> (r: Vec<char>)
    ensures
        r@ == compile(s@, win),
{
    let mut out: Vec<char> = Vec::new();
    out.push('^');
    out.push('(');
    out.push('?');
    out.push(':');
    append_chars(&mut out, &compile_fragment_exec(s, win));
    out.push(')');
    out.push('$');
    assert(out@ =~= compile(s@, win));
    out
}

} // verus!
