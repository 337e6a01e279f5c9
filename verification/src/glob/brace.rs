//! Brace expansion as performed by Node's `matchesGlob` (brace-expansion 5.0.5 as bundled by
//! minimatch 10.2.5): comma alternatives, numeric ranges with optional step and zero padding, and
//! single-character ranges.

use vstd::prelude::*;

use crate::shared::vviews;
use crate::text::{append_chars, sub_chars};

verus! {

/// Expansion stops with an error beyond this nesting depth.
pub const MAX_DEPTH: usize = 32;

/// Expansion stops with an error once this many patterns exist, and a range yields at most this
/// many values.
pub const MAX_EXPANSIONS: usize = 1024;

/// The first top-level brace pair of `p` at or after `i`, given the position of the currently open
/// brace (or -1) and the nesting depth inside it.
pub open spec fn first_brace_from(p: Seq<char>, i: int, open: int, depth: int) -> Option<(int, int)>
    decreases p.len() - i,
{
    if i < 0 || i >= p.len() {
        None
    } else if p[i] == '{' {
        if open < 0 {
            first_brace_from(p, i + 1, i, 1)
        } else {
            first_brace_from(p, i + 1, open, depth + 1)
        }
    } else if p[i] == '}' && open >= 0 {
        if depth - 1 == 0 {
            Some((open, i))
        } else {
            first_brace_from(p, i + 1, open, depth - 1)
        }
    } else {
        first_brace_from(p, i + 1, open, depth)
    }
}

/// The first balanced `{...}` of `p`, as the positions of its braces.
pub open spec fn first_brace(p: Seq<char>) -> Option<(int, int)> {
    first_brace_from(p, 0, -1, 0)
}

/// Splitting `v` at the occurrences of `needle` outside `open`/`close` nesting, scanning from
/// `i`.
pub open spec fn split_top_from(
    v: Seq<char>,
    open: char,
    close: char,
    needle: char,
    i: int,
    depth: int,
    start: int,
    acc: Seq<Seq<char>>,
) -> Seq<Seq<char>>
    decreases v.len() - i,
{
    if i < 0 || i >= v.len() {
        acc.push(v.subrange(start, v.len() as int))
    } else if v[i] == open {
        split_top_from(v, open, close, needle, i + 1, depth + 1, start, acc)
    } else if v[i] == close {
        split_top_from(v, open, close, needle, i + 1, depth - 1, start, acc)
    } else if v[i] == needle && depth == 0 {
        split_top_from(v, open, close, needle, i + 1, depth, i + 1, acc.push(v.subrange(start, i)))
    } else {
        split_top_from(v, open, close, needle, i + 1, depth, start, acc)
    }
}

/// The parts of `v` between occurrences of `needle` outside `open`/`close` nesting.
pub open spec fn split_top(v: Seq<char>, open: char, close: char, needle: char) -> Seq<Seq<char>> {
    split_top_from(v, open, close, needle, 0, 0, 0, Seq::empty())
}

/// Splitting `v` at top-level `..`, scanning from `i`.
pub open spec fn split_dd_from(v: Seq<char>, i: int, depth: int, start: int, acc: Seq<Seq<char>>) -> Seq<
    Seq<char>,
>
    decreases v.len() - i,
{
    if i < 0 || i >= v.len() {
        acc.push(v.subrange(start, v.len() as int))
    } else if v[i] == '{' {
        split_dd_from(v, i + 1, depth + 1, start, acc)
    } else if v[i] == '}' {
        split_dd_from(v, i + 1, depth - 1, start, acc)
    } else if v[i] == '.' && depth == 0 && i + 1 < v.len() && v[i + 1] == '.' {
        split_dd_from(v, i + 2, depth, i + 2, acc.push(v.subrange(start, i)))
    } else {
        split_dd_from(v, i + 1, depth, start, acc)
    }
}

/// The parts of `v` between top-level `..`.
pub open spec fn split_dd(v: Seq<char>) -> Seq<Seq<char>> {
    split_dd_from(v, 0, 0, 0, Seq::empty())
}

/// Whether every character is an ASCII digit.
pub open spec fn all_digits(s: Seq<char>) -> bool {
    forall|i: int| 0 <= i < s.len() ==> '0' <= #[trigger] s[i] && s[i] <= '9'
}

/// The value of a string of decimal digits.
pub open spec fn digits_value(s: Seq<char>) -> int
    decreases s.len(),
{
    if s.len() == 0 {
        0
    } else {
        digits_value(s.drop_last()) * 10 + (s.last() as int - 48)
    }
}

/// Rust's `i64` parsing: an optional sign and at least one decimal digit, within range.
pub open spec fn parse_i64(s: Seq<char>) -> Option<int> {
    let neg = s.len() > 0 && s[0] == '-';
    let body = if s.len() > 0 && (s[0] == '-' || s[0] == '+') {
        s.skip(1)
    } else {
        s
    };
    if body.len() == 0 || !all_digits(body) {
        None
    } else {
        let v = if neg {
            -digits_value(body)
        } else {
            digits_value(body)
        };
        if i64::MIN <= v <= i64::MAX {
            Some(v)
        } else {
            None
        }
    }
}

/// The decimal digits of `n`.
pub open spec fn decimal(n: nat) -> Seq<char>
    decreases n,
{
    if n < 10 {
        seq![(48 + n) as char]
    } else {
        decimal(n / 10).push((48 + n % 10) as char)
    }
}

/// `k` zeros (none when `k` is not positive).
pub open spec fn zeros(k: int) -> Seq<char> {
    Seq::new(
        if k < 0 {
            0
        } else {
            k as nat
        },
        |i: int| '0',
    )
}

/// Decimal formatting of `v`, zero-padded after the sign to `width` characters when `padded`.
pub open spec fn format_int(v: int, padded: bool, width: int) -> Seq<char> {
    let sign = if v < 0 {
        seq!['-']
    } else {
        Seq::<char>::empty()
    };
    let digits = decimal(
        (if v < 0 {
            -v
        } else {
            v
        }) as nat,
    );
    if padded {
        sign + zeros(width - sign.len() - digits.len()) + digits
    } else {
        sign + digits
    }
}

/// Whether `value` still lies within a range that runs toward `end` in direction `d`.
pub open spec fn in_range(value: int, end: int, d: int) -> bool {
    (d > 0 && value <= end) || (d < 0 && value >= end)
}

/// How far a range still has to run.
pub open spec fn range_measure(value: int, end: int, d: int) -> int {
    if !in_range(value, end, d) {
        0
    } else if d > 0 {
        end - value + 1
    } else {
        value - end + 1
    }
}

/// The formatted values of a numeric range from `value`, appended to `out`; `None` when the next
/// value would leave the `i64` range.
pub open spec fn num_range(
    value: int,
    end: int,
    d: int,
    out: Seq<Seq<char>>,
    padded: bool,
    width: int,
) -> Option<Seq<Seq<char>>>
    decreases range_measure(value, end, d),
{
    if !in_range(value, end, d) {
        Some(out)
    } else {
        let out2 = out.push(format_int(value, padded, width));
        if out2.len() >= MAX_EXPANSIONS {
            Some(out2)
        } else if !(i64::MIN <= value + d <= i64::MAX) {
            None
        } else {
            num_range(value + d, end, d, out2, padded, width)
        }
    }
}

/// Whether `v` is a Unicode scalar value.
pub open spec fn is_scalar_value(v: int) -> bool {
    0 <= v <= 0x10FFFF && !(0xD800 <= v <= 0xDFFF)
}

/// The characters of a character range from `value`, appended to `out` (code points that are not
/// scalar values are skipped); `None` when the next value would leave the `i64` range.
pub open spec fn char_range(value: int, end: int, d: int, out: Seq<Seq<char>>) -> Option<
    Seq<Seq<char>>,
>
    decreases range_measure(value, end, d),
{
    if !in_range(value, end, d) {
        Some(out)
    } else {
        let out2 = if is_scalar_value(value) {
            out.push(seq![value as char])
        } else {
            out
        };
        if out2.len() >= MAX_EXPANSIONS {
            Some(out2)
        } else if !(i64::MIN <= value + d <= i64::MAX) {
            None
        } else {
            char_range(value + d, end, d, out2)
        }
    }
}

/// The alternatives of a brace body: its top-level comma parts when there are several, else the
/// values of a numeric or single-character range `a..b[..step]`, else none. `None` when a range
/// step overflows `i64` arithmetic.
pub open spec fn brace_alternatives(body: Seq<char>) -> Option<Seq<Seq<char>>> {
    let comma = split_top(body, '{', '}', ',');
    if comma.len() > 1 {
        Some(comma)
    } else {
        let range = split_dd(body);
        if range.len() != 2 && range.len() != 3 {
            Some(Seq::empty())
        } else {
            let sp = if range.len() == 3 {
                parse_i64(range[2])
            } else {
                None
            };
            if sp == Some(i64::MIN as int) {
                None
            } else {
                let step = match sp {
                    Some(s) => if s == 0 {
                        1
                    } else if s < 0 {
                        -s
                    } else {
                        s
                    },
                    None => 1,
                };
                match (parse_i64(range[0]), parse_i64(range[1])) {
                    (Some(a), Some(b)) => {
                        let width = if range[0].len() >= range[1].len() {
                            range[0].len() as int
                        } else {
                            range[1].len() as int
                        };
                        let padded = (range[0].len() > 0 && range[0][0] == '0') || (range[1].len() > 0
                            && range[1][0] == '0');
                        let d = if a <= b {
                            step
                        } else {
                            -step
                        };
                        num_range(a, b, d, Seq::empty(), padded, width)
                    },
                    _ => if range[0].len() == 1 && range[1].len() == 1 {
                        let a = (range[0][0] as u32) as int;
                        let b = (range[1][0] as u32) as int;
                        let d = if a <= b {
                            step
                        } else {
                            -step
                        };
                        char_range(a, b, d, Seq::empty())
                    } else {
                        Some(Seq::empty())
                    },
                }
            }
        }
    }
}

/// The outcome of brace expansion.
pub enum Expansion {
    /// The expanded patterns, in order.
    Patterns(Seq<Seq<char>>),
    /// The depth or count limit was exceeded.
    LimitExceeded,
    /// A range step overflowed `i64`; matching is not defined for such a pattern.
    Overflow,
}

/// Expands `p` at nesting `depth`, appending to `out`.
pub open spec fn expand_into(p: Seq<char>, depth: int, out: Seq<Seq<char>>) -> Expansion
    decreases 34 - depth, 0int,
{
    if depth > MAX_DEPTH || out.len() >= MAX_EXPANSIONS || depth < 0 {
        Expansion::LimitExceeded
    } else {
        match first_brace(p) {
            None => Expansion::Patterns(out.push(p)),
            Some((open, close)) => {
                let prefix = p.take(open);
                let body = p.subrange(open + 1, close);
                let suffix = p.skip(close + 1);
                match brace_alternatives(body) {
                    None => Expansion::Overflow,
                    Some(alts) => if alts.len() == 0 {
                        Expansion::Patterns(out.push(p))
                    } else {
                        expand_alts(prefix, alts, suffix, 0, depth, out)
                    },
                }
            },
        }
    }
}

/// Expands `prefix + alts[i] + suffix` for each remaining alternative, in order.
pub open spec fn expand_alts(
    prefix: Seq<char>,
    alts: Seq<Seq<char>>,
    suffix: Seq<char>,
    i: int,
    depth: int,
    out: Seq<Seq<char>>,
) -> Expansion
    decreases 33 - depth, alts.len() - i,
{
    if i < 0 || i >= alts.len() || depth > MAX_DEPTH || depth < 0 {
        Expansion::Patterns(out)
    } else {
        match expand_into(prefix + alts[i] + suffix, depth + 1, out) {
            Expansion::Patterns(o2) => expand_alts(prefix, alts, suffix, i + 1, depth, o2),
            e => e,
        }
    }
}

/// Node's brace expansion of a whole pattern.
pub open spec fn expand(p: Seq<char>) -> Expansion {
    match expand_into(p, 0, Seq::empty()) {
        Expansion::Patterns(out) => if out.len() == 0 {
            Expansion::Patterns(seq![p])
        } else {
            Expansion::Patterns(out)
        },
        e => e,
    }
}

/// Position of the first top-level brace pair.
pub(crate) fn first_brace_exec(p: &[char]) -> (r: Option<(usize, usize)>)
    ensures
        match r {
            Some((o, c)) => first_brace(p@) == Some((o as int, c as int)),
            None => first_brace(p@) is None,
        },
{
    let mut open: Option<usize> = None;
    let mut depth: usize = 0;
    let mut i: usize = 0;
    while i < p.len()
        invariant
            i <= p.len(),
            open is Some ==> open->0 < i && depth >= 1,
            open is None ==> depth == 0,
            depth <= i,
            first_brace(p@) == first_brace_from(
                p@,
                i as int,
                match open {
                    Some(o) => o as int,
                    None => -1,
                },
                depth as int,
            ),
        decreases p.len() - i,
    {
        let c = p[i];
        if c == '{' {
            if open.is_none() {
                open = Some(i);
                depth = 1;
            } else {
                depth = depth + 1;
            }
        } else if c == '}' && open.is_some() {
            depth = depth - 1;
            if depth == 0 {
                let o = open.unwrap();
                return Some((o, i));
            }
        }
        i = i + 1;
    }
    None
}

/// The parts of `v` between occurrences of `needle` outside `open`/`close` nesting.
pub(crate) fn split_top_exec(v: &[char], open: char, close: char, needle: char) -> (r: Vec<Vec<char>>)
    requires
        open != close,
        needle != open && needle != close,
    ensures
        vviews(r@) == split_top(v@, open, close, needle),
{
    let mut acc: Vec<Vec<char>> = Vec::new();
    let mut depth: i128 = 0;
    let mut start: usize = 0;
    let mut i: usize = 0;
    assert(vviews(acc@) =~= Seq::<Seq<char>>::empty());
    while i < v.len()
        invariant
            start <= i <= v.len(),
            -(i as int) <= depth <= i,
            open != close,
            needle != open && needle != close,
            split_top(v@, open, close, needle) == split_top_from(
                v@,
                open,
                close,
                needle,
                i as int,
                depth as int,
                start as int,
                vviews(acc@),
            ),
        decreases v.len() - i,
    {
        let c = v[i];
        if c == open {
            depth = depth + 1;
        } else if c == close {
            depth = depth - 1;
        } else if c == needle && depth == 0 {
            let part = sub_chars(v, start, i);
            let ghost before = vviews(acc@);
            acc.push(part);
            assert(vviews(acc@) =~= before.push(v@.subrange(start as int, i as int)));
            start = i + 1;
        }
        i = i + 1;
    }
    let part = sub_chars(v, start, v.len());
    let ghost before = vviews(acc@);
    acc.push(part);
    assert(vviews(acc@) =~= before.push(v@.subrange(start as int, v@.len() as int)));
    acc
}

/// The parts of `v` between top-level `..`.
pub(crate) fn split_dd_exec(v: &[char]) -> (r: Vec<Vec<char>>)
    ensures
        vviews(r@) == split_dd(v@),
{
    let mut acc: Vec<Vec<char>> = Vec::new();
    let mut depth: i128 = 0;
    let mut start: usize = 0;
    let mut i: usize = 0;
    assert(vviews(acc@) =~= Seq::<Seq<char>>::empty());
    while i < v.len()
        invariant
            start <= i <= v.len() + 1,
            start <= v.len(),
            -(i as int) <= depth <= i,
            split_dd(v@) == split_dd_from(v@, i as int, depth as int, start as int, vviews(acc@)),
        decreases v.len() + 1 - i,
    {
        let c = v[i];
        if c == '{' {
            depth = depth + 1;
            i = i + 1;
        } else if c == '}' {
            depth = depth - 1;
            i = i + 1;
        } else if c == '.' && depth == 0 && i + 1 < v.len() && v[i + 1] == '.' {
            let part = sub_chars(v, start, i);
            let ghost before = vviews(acc@);
            acc.push(part);
            assert(vviews(acc@) =~= before.push(v@.subrange(start as int, i as int)));
            start = i + 2;
            i = i + 2;
        } else {
            i = i + 1;
        }
    }
    let part = sub_chars(v, start, v.len());
    let ghost before = vviews(acc@);
    acc.push(part);
    assert(vviews(acc@) =~= before.push(v@.subrange(start as int, v@.len() as int)));
    acc
}

proof fn lemma_digits_value_monotone(s: Seq<char>, i: int, j: int)
    requires
        0 <= i <= j <= s.len(),
        all_digits(s),
    ensures
        digits_value(s.take(i)) <= digits_value(s.take(j)),
        digits_value(s.take(j)) >= 0,
    decreases j,
{
    if j == 0 {
        assert(s.take(0).len() == 0);
    } else {
        let t = s.take(j);
        assert(t.drop_last() =~= s.take(j - 1));
        assert('0' <= s[j - 1] && s[j - 1] <= '9');
        if i < j {
            lemma_digits_value_monotone(s, i, j - 1);
        } else {
            lemma_digits_value_monotone(s, j - 1, j - 1);
        }
        assert(digits_value(t) == digits_value(s.take(j - 1)) * 10 + (s[j - 1] as int - 48));
        assert(digits_value(s.take(j - 1)) * 10 >= digits_value(s.take(j - 1))) by (nonlinear_arith)
            requires
                digits_value(s.take(j - 1)) >= 0,
        ;
    }
}

/// Rust's `i64` parsing of a character sequence.
pub(crate) fn parse_i64_exec(s: &[char]) -> (r: Option<i64>)
    ensures
        match r {
            Some(v) => parse_i64(s@) == Some(v as int),
            None => parse_i64(s@) is None,
        },
{
    let n = s.len();
    let neg = n > 0 && s[0] == '-';
    let skip: usize = if n > 0 && (s[0] == '-' || s[0] == '+') {
        1
    } else {
        0
    };
    let body = sub_chars(s, skip, n);
    assert(body@ == (if s@.len() > 0 && (s@[0] == '-' || s@[0] == '+') {
        s@.skip(1)
    } else {
        s@
    })) by {
        if skip == 0 {
            assert(body@ =~= s@);
        } else {
            assert(body@ =~= s@.skip(1));
        }
    }
    if body.len() == 0 {
        return None;
    }
    let mut acc: u128 = 0;
    let mut i: usize = 0;
    let bound: u128 = 9223372036854775808;
    while i < body.len()
        invariant
            i <= body.len(),
            bound == 9223372036854775808,
            body@ == (if s@.len() > 0 && (s@[0] == '-' || s@[0] == '+') {
                s@.skip(1)
            } else {
                s@
            }),
            body@.len() > 0,
            acc <= bound,
            acc == digits_value(body@.take(i as int)),
            forall|j: int| 0 <= j < i ==> '0' <= #[trigger] body@[j] && body@[j] <= '9',
        decreases body.len() - i,
    {
        let c = body[i];
        if !('0' <= c && c <= '9') {
            assert(!all_digits(body@)) by {
                assert(!('0' <= body@[i as int] && body@[i as int] <= '9'));
            }
            assert(parse_i64(s@) is None);
            return None;
        }
        assert(body@.take(i + 1).drop_last() =~= body@.take(i as int));
        let d = (c as u32 - 48) as u128;
        assert(acc * 10 <= 10 * bound) by (nonlinear_arith)
            requires
                acc <= bound,
        ;
        let ghost prev = acc;
        acc = acc * 10 + d;
        assert(acc == digits_value(body@.take(i + 1)));
        i = i + 1;
        if acc > bound {
            proof {
                if all_digits(body@) {
                    lemma_digits_value_monotone(body@, i as int, body@.len() as int);
                    assert(body@.take(body@.len() as int) =~= body@);
                }
            }
            return None;
        }
    }
    assert(body@.take(body@.len() as int) =~= body@);
    if neg {
        if acc == bound {
            Some(-9223372036854775807i64 - 1)
        } else {
            Some(-(acc as i64))
        }
    } else {
        if acc == bound {
            None
        } else {
            Some(acc as i64)
        }
    }
}

/// `char::from_u32`: claimed, as std documents, to return the character with code point `v`
/// exactly when `v` is a Unicode scalar value.
#[verifier::external_body]
fn char_from_u32(v: u32) -> (r: Option<char>)
    ensures
        r is Some <==> is_scalar_value(v as int),
        r matches Some(c) ==> c as int == v as int,
{
    char::from_u32(v)
}

/// The decimal digits of `n`.
pub(crate) fn decimal_exec(n: u64) -> (r: Vec<char>)
    ensures
        r@ == decimal(n as nat),
    decreases n,
{
    let d = ((n % 10) as u8 + 48) as char;
    if n < 10 {
        let mut v: Vec<char> = Vec::new();
        v.push(d);
        assert(v@ =~= decimal(n as nat));
        v
    } else {
        let mut v = decimal_exec(n / 10);
        v.push(d);
        v
    }
}

/// Decimal formatting of `v`, zero-padded after the sign to `width` when `padded`.
pub(crate) fn format_int_exec(v: i64, padded: bool, width: usize) -> (r: Vec<char>)
    ensures
        r@ == format_int(v as int, padded, width as int),
{
    let m: u64 = if v < 0 {
        (0i128 - v as i128) as u64
    } else {
        v as u64
    };
    let digits = decimal_exec(m);
    let mut out: Vec<char> = Vec::new();
    if v < 0 {
        out.push('-');
    }
    let sign_len: usize = if v < 0 {
        1
    } else {
        0
    };
    if padded {
        if width >= sign_len && width - sign_len > digits.len() {
            let pad = width - sign_len - digits.len();
            let mut k: usize = 0;
            while k < pad
                invariant
                    k <= pad,
                    out@ == (if v < 0 {
                        seq!['-']
                    } else {
                        Seq::<char>::empty()
                    }) + zeros(k as int),
                decreases pad - k,
            {
                out.push('0');
                k = k + 1;
                assert(out@ =~= (if v < 0 {
                    seq!['-']
                } else {
                    Seq::<char>::empty()
                }) + zeros(k as int));
            }
        }
        assert(out@ =~= (if v < 0 {
            seq!['-']
        } else {
            Seq::<char>::empty()
        }) + zeros(width - sign_len - digits.len()));
    }
    append_chars(&mut out, &digits);
    assert(out@ =~= format_int(v as int, padded, width as int));
    out
}

/// The formatted values of a numeric range; `None` when a step leaves the `i64` range.
fn num_range_exec(start: i64, end: i64, d: i64, padded: bool, width: usize) -> (r: Option<
    Vec<Vec<char>>,
>)
    ensures
        match r {
            Some(v) => num_range(start as int, end as int, d as int, Seq::empty(), padded, width as int)
                == Some(vviews(v@)),
            None => num_range(start as int, end as int, d as int, Seq::empty(), padded, width as int)
                is None,
        },
{
    let mut out: Vec<Vec<char>> = Vec::new();
    let mut value = start;
    assert(vviews(out@) =~= Seq::<Seq<char>>::empty());
    loop
        invariant
            num_range(start as int, end as int, d as int, Seq::empty(), padded, width as int)
                == num_range(value as int, end as int, d as int, vviews(out@), padded, width as int),
        decreases range_measure(value as int, end as int, d as int),
    {
        if !((d > 0 && value <= end) || (d < 0 && value >= end)) {
            return Some(out);
        }
        let text = format_int_exec(value, padded, width);
        let ghost before = vviews(out@);
        out.push(text);
        assert(vviews(out@) =~= before.push(format_int(value as int, padded, width as int)));
        if out.len() >= MAX_EXPANSIONS {
            return Some(out);
        }
        match value.checked_add(d) {
            Some(next) => value = next,
            None => return None,
        }
    }
}

/// The characters of a character range; `None` when a step leaves the `i64` range.
fn char_range_exec(start: i64, end: i64, d: i64) -> (r: Option<Vec<Vec<char>>>)
    requires
        0 <= start <= 0x10FFFF,
        0 <= end <= 0x10FFFF,
    ensures
        match r {
            Some(v) => char_range(start as int, end as int, d as int, Seq::empty()) == Some(
                vviews(v@),
            ),
            None => char_range(start as int, end as int, d as int, Seq::empty()) is None,
        },
{
    let mut out: Vec<Vec<char>> = Vec::new();
    let mut value = start;
    assert(vviews(out@) =~= Seq::<Seq<char>>::empty());
    loop
        invariant
            char_range(start as int, end as int, d as int, Seq::empty()) == char_range(
                value as int,
                end as int,
                d as int,
                vviews(out@),
            ),
            0 <= start <= 0x10FFFF,
            0 <= end <= 0x10FFFF,
            d > 0 ==> value >= start,
            d < 0 ==> value <= start,
        decreases range_measure(value as int, end as int, d as int),
    {
        if !((d > 0 && value <= end) || (d < 0 && value >= end)) {
            return Some(out);
        }
        let ghost before = vviews(out@);
        assert(0 <= value <= 0x10FFFF);
        let v32 = value as u32;
        assert(v32 as int == value as int);
        match char_from_u32(v32) {
            Some(c) => {
                assert(0 <= value <= 0x10FFFF);
                assert(c as int == value as int);
                let mut one: Vec<char> = Vec::new();
                one.push(c);
                assert(one@ =~= seq![value as char]);
                out.push(one);
                assert(vviews(out@) =~= before.push(seq![value as char]));
            },
            None => {},
        }
        if out.len() >= MAX_EXPANSIONS {
            return Some(out);
        }
        match value.checked_add(d) {
            Some(next) => value = next,
            None => return None,
        }
    }
}

/// The alternatives of a brace body.
pub(crate) fn brace_alternatives_exec(body: &[char]) -> (r: Option<Vec<Vec<char>>>)
    ensures
        match r {
            Some(v) => brace_alternatives(body@) == Some(vviews(v@)),
            None => brace_alternatives(body@) is None,
        },
{
    let comma = split_top_exec(body, '{', '}', ',');
    if comma.len() > 1 {
        return Some(comma);
    }
    let range = split_dd_exec(body);
    let ghost rv = vviews(range@);
    if range.len() != 2 && range.len() != 3 {
        let out: Vec<Vec<char>> = Vec::new();
        assert(vviews(out@) =~= Seq::<Seq<char>>::empty());
        return Some(out);
    }
    assert(rv[0] == range@[0]@ && rv[1] == range@[1]@);
    let sp = if range.len() == 3 {
        assert(rv[2] == range@[2]@);
        parse_i64_exec(&range[2])
    } else {
        None
    };
    if sp == Some(i64::MIN) {
        return None;
    }
    let step: i64 = match sp {
        Some(s) => if s == 0 {
            1
        } else if s < 0 {
            -s
        } else {
            s
        },
        None => 1,
    };
    let a = parse_i64_exec(&range[0]);
    let b = parse_i64_exec(&range[1]);
    match (a, b) {
        (Some(a), Some(b)) => {
            let width = if range[0].len() >= range[1].len() {
                range[0].len()
            } else {
                range[1].len()
            };
            let padded = (range[0].len() > 0 && range[0][0] == '0') || (range[1].len() > 0
                && range[1][0] == '0');
            let d = if a <= b {
                step
            } else {
                -step
            };
            num_range_exec(a, b, d, padded, width)
        },
        _ => {
            if range[0].len() == 1 && range[1].len() == 1 {
                let a32 = range[0][0] as u32;
                let b32 = range[1][0] as u32;
                proof {
                    vstd::utf8::char_is_scalar(range@[0]@[0]);
                    vstd::utf8::char_is_scalar(range@[1]@[0]);
                }
                let a = a32 as i64;
                let b = b32 as i64;
                assert(a as int == (rv[0][0] as u32) as int);
                assert(b as int == (rv[1][0] as u32) as int);
                let d = if a <= b {
                    step
                } else {
                    -step
                };
                char_range_exec(a, b, d)
            } else {
                let out: Vec<Vec<char>> = Vec::new();
                assert(vviews(out@) =~= Seq::<Seq<char>>::empty());
                Some(out)
            }
        },
    }
}

/// Why brace expansion stopped without a result.
pub enum ExpandError {
    /// The depth or count limit was exceeded.
    LimitExceeded,
    /// A range step left the `i64` range.
    Overflow,
}

/// Expands `p` at nesting `depth` into `out`; fails once the depth or count limit is exceeded
/// or a range step overflows.
pub(crate) fn expand_into_exec(p: &[char], depth: usize, out: &mut Vec<Vec<char>>) -> (r: Result<
    (),
    ExpandError,
>)
    ensures
        match r {
            Ok(()) => expand_into(p@, depth as int, vviews(old(out)@)) == Expansion::Patterns(
                vviews(final(out)@),
            ),
            Err(ExpandError::LimitExceeded) => expand_into(p@, depth as int, vviews(old(out)@))
                is LimitExceeded,
            Err(ExpandError::Overflow) => expand_into(p@, depth as int, vviews(old(out)@))
                is Overflow,
        },
    decreases 34 - depth,
{
    if depth > MAX_DEPTH || out.len() >= MAX_EXPANSIONS {
        return Err(ExpandError::LimitExceeded);
    }
    let ghost out0 = vviews(out@);
    match first_brace_exec(p) {
        None => {
            let whole = sub_chars(p, 0, p.len());
            assert(whole@ =~= p@);
            out.push(whole);
            assert(vviews(out@) =~= out0.push(p@));
            Ok(())
        },
        Some((open, close)) => {
            proof {
                lemma_first_brace_bounds(p@, 0, -1, 0);
            }
            assert(open < close && close < p.len());
            let prefix = sub_chars(p, 0, open);
            let body = sub_chars(p, open + 1, close);
            let suffix = sub_chars(p, close + 1, p.len());
            assert(prefix@ =~= p@.take(open as int));
            assert(suffix@ =~= p@.skip(close + 1));
            let alts = match brace_alternatives_exec(&body) {
                Some(alts) => alts,
                None => return Err(ExpandError::Overflow),
            };
            if alts.len() == 0 {
                let whole = sub_chars(p, 0, p.len());
                assert(whole@ =~= p@);
                out.push(whole);
                assert(vviews(out@) =~= out0.push(p@));
                return Ok(());
            }
            let ghost av = vviews(alts@);
            let mut k: usize = 0;
            while k < alts.len()
                invariant
                    av == vviews(alts@),
                    out0 == vviews(old(out)@),
                    depth <= MAX_DEPTH,
                    k <= alts.len(),
                    expand_into(p@, depth as int, out0) == expand_alts(
                        prefix@,
                        av,
                        suffix@,
                        k as int,
                        depth as int,
                        vviews(out@),
                    ),
                decreases alts.len() - k,
            {
                let mut expanded: Vec<char> = Vec::new();
                append_chars(&mut expanded, &prefix);
                append_chars(&mut expanded, &alts[k]);
                append_chars(&mut expanded, &suffix);
                assert(expanded@ == prefix@ + av[k as int] + suffix@);
                let ghost before_out = vviews(out@);
                match expand_into_exec(&expanded, depth + 1, out) {
                    Ok(()) => {},
                    Err(e) => return Err(e),
                }
                k = k + 1;
            }
            Ok(())
        },
    }
}

proof fn lemma_first_brace_bounds(p: Seq<char>, i: int, open: int, depth: int)
    requires
        0 <= i,
        open < i,
    ensures
        first_brace_from(p, i, open, depth) matches Some((o, c)) ==> 0 <= o < c < p.len() && (o
            == open || i <= o),
    decreases p.len() - i,
{
    if 0 <= i < p.len() {
        if p[i] == '{' {
            if open < 0 {
                lemma_first_brace_bounds(p, i + 1, i, 1);
            } else {
                lemma_first_brace_bounds(p, i + 1, open, depth + 1);
            }
        } else if p[i] == '}' && open >= 0 {
            if depth - 1 != 0 {
                lemma_first_brace_bounds(p, i + 1, open, depth - 1);
            }
        } else {
            lemma_first_brace_bounds(p, i + 1, open, depth);
        }
    }
}

/// Node's brace expansion of a whole pattern.
pub(crate) fn expand_exec(pattern: &[char]) -> (r: Result<Vec<Vec<char>>, ExpandError>)
    ensures
        match r {
            Ok(v) => expand(pattern@) == Expansion::Patterns(vviews(v@)),
            Err(ExpandError::LimitExceeded) => expand(pattern@) is LimitExceeded,
            Err(ExpandError::Overflow) => expand(pattern@) is Overflow,
        },
{
    let mut out: Vec<Vec<char>> = Vec::new();
    assert(vviews(out@) =~= Seq::<Seq<char>>::empty());
    match expand_into_exec(pattern, 0, &mut out) {
        Ok(()) => {},
        Err(e) => return Err(e),
    }
    if out.len() == 0 {
        let whole = sub_chars(pattern, 0, pattern.len());
        assert(whole@ =~= pattern@);
        out.push(whole);
        assert(vviews(out@) =~= seq![pattern@]);
    }
    Ok(out)
}

} // verus!
