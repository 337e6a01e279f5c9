//! Character-level primitives shared by both path namespaces.
//!
//! Paths are modelled as sequences of Unicode scalar values. Every separator, dot and colon that
//! the algorithms inspect is ASCII, so scanning characters is equivalent to scanning UTF-8 bytes.

use vstd::prelude::*;
use vstd::string::StrSliceExecFns;

verus! {

/// Whether `c` separates components: `/` always, and `\` in the Windows namespace.
pub open spec fn is_sep(c: char, win: bool) -> bool {
    c == '/' || (win && c == '\\')
}

/// The separator that a namespace writes.
pub open spec fn sep_char(win: bool) -> char {
    if win {
        '\\'
    } else {
        '/'
    }
}

/// An ASCII letter.
pub open spec fn is_ascii_alpha(c: char) -> bool {
    ('a' <= c && c <= 'z') || ('A' <= c && c <= 'Z')
}

/// ASCII upper-casing of one character; other characters are unchanged.
pub open spec fn ascii_upper(c: char) -> char {
    if 'a' <= c && c <= 'z' {
        ((c as u32) - 32) as char
    } else {
        c
    }
}

/// Equality under ASCII case folding, character by character.
pub open spec fn eq_ignore_ascii_case(a: Seq<char>, b: Seq<char>) -> bool {
    &&& a.len() == b.len()
    &&& forall|i: int| 0 <= i < a.len() ==> ascii_upper(#[trigger] a[i]) == ascii_upper(b[i])
}

/// Whether `s` contains `c`.
pub open spec fn has_char(s: Seq<char>, c: char) -> bool {
    exists|i: int| 0 <= i < s.len() && s[i] == c
}

/// Index of the last separator in `s[lo..hi]`, or -1.
pub open spec fn last_sep_before(s: Seq<char>, lo: int, hi: int, win: bool) -> int
    decreases hi - lo,
{
    if hi <= lo {
        -1
    } else if is_sep(s[hi - 1], win) {
        hi - 1
    } else {
        last_sep_before(s, lo, hi - 1, win)
    }
}

/// Index of the last non-separator in `s[lo..hi]`, or -1.
pub open spec fn last_nonsep_before(s: Seq<char>, lo: int, hi: int, win: bool) -> int
    decreases hi - lo,
{
    if hi <= lo {
        -1
    } else if !is_sep(s[hi - 1], win) {
        hi - 1
    } else {
        last_nonsep_before(s, lo, hi - 1, win)
    }
}

/// Index of the last occurrence of `c` in `s[0..hi]`, or -1.
pub open spec fn last_index_of(s: Seq<char>, hi: int, c: char) -> int
    decreases hi,
{
    if hi <= 0 {
        -1
    } else if s[hi - 1] == c {
        hi - 1
    } else {
        last_index_of(s, hi - 1, c)
    }
}

/// Index of the first occurrence of `c` in `s[i..]`, or -1.
pub open spec fn first_index_of(s: Seq<char>, i: int, c: char) -> int
    decreases s.len() - i,
{
    if i < 0 || i >= s.len() {
        -1
    } else if s[i] == c {
        i
    } else {
        first_index_of(s, i + 1, c)
    }
}

/// First index at or after `i` that holds no separator (or the length).
pub open spec fn skip_seps(s: Seq<char>, i: int, win: bool) -> int
    decreases s.len() - i,
{
    if i >= s.len() || i < 0 || !is_sep(s[i], win) {
        i
    } else {
        skip_seps(s, i + 1, win)
    }
}

/// First index at or after `i` that holds a separator (or the length).
pub open spec fn skip_nonseps(s: Seq<char>, i: int, win: bool) -> int
    decreases s.len() - i,
{
    if i >= s.len() || i < 0 || is_sep(s[i], win) {
        i
    } else {
        skip_nonseps(s, i + 1, win)
    }
}

/// The parts joined with `c` between consecutive parts.
pub open spec fn join_with(parts: Seq<Seq<char>>, c: char) -> Seq<char>
    decreases parts.len(),
{
    if parts.len() == 0 {
        Seq::empty()
    } else if parts.len() == 1 {
        parts[0]
    } else {
        join_with(parts.drop_last(), c) + seq![c] + parts.last()
    }
}

/// The views of a list of string slices.
pub open spec fn views(paths: Seq<&str>) -> Seq<Seq<char>> {
    Seq::new(paths.len(), |i: int| paths[i]@)
}

pub proof fn lemma_last_sep_bounds(s: Seq<char>, lo: int, hi: int, win: bool)
    ensures
        last_sep_before(s, lo, hi, win) == -1 || (lo <= last_sep_before(s, lo, hi, win) < hi
            && is_sep(s[last_sep_before(s, lo, hi, win)], win)),
        forall|j: int|
            last_sep_before(s, lo, hi, win) < j < hi && lo <= j ==> !is_sep(#[trigger] s[j], win),
    decreases hi - lo,
{
    if hi > lo && !is_sep(s[hi - 1], win) {
        lemma_last_sep_bounds(s, lo, hi - 1, win);
    }
}

/// `last_sep_before` is pinned down by its defining property.
pub proof fn lemma_last_sep_is(s: Seq<char>, lo: int, hi: int, win: bool, k: int)
    requires
        lo <= hi <= s.len(),
        0 <= lo,
        (k == -1 && forall|j: int| lo <= j < hi ==> !is_sep(#[trigger] s[j], win)) || (lo <= k < hi
            && is_sep(s[k], win) && forall|j: int| k < j < hi ==> !is_sep(#[trigger] s[j], win)),
    ensures
        last_sep_before(s, lo, hi, win) == k,
    decreases hi - lo,
{
    if hi > lo && hi - 1 != k {
        lemma_last_sep_is(s, lo, hi - 1, win, k);
    }
}

pub proof fn lemma_last_nonsep_bounds(s: Seq<char>, lo: int, hi: int, win: bool)
    ensures
        last_nonsep_before(s, lo, hi, win) == -1 || (lo <= last_nonsep_before(s, lo, hi, win) < hi
            && !is_sep(s[last_nonsep_before(s, lo, hi, win)], win)),
        forall|j: int|
            last_nonsep_before(s, lo, hi, win) < j < hi && lo <= j ==> is_sep(#[trigger] s[j], win),
    decreases hi - lo,
{
    if hi > lo && is_sep(s[hi - 1], win) {
        lemma_last_nonsep_bounds(s, lo, hi - 1, win);
    }
}

pub proof fn lemma_last_index_bounds(s: Seq<char>, hi: int, c: char)
    ensures
        last_index_of(s, hi, c) == -1 || (0 <= last_index_of(s, hi, c) < hi && s[last_index_of(
            s,
            hi,
            c,
        )] == c),
        forall|j: int| last_index_of(s, hi, c) < j < hi && 0 <= j ==> #[trigger] s[j] != c,
    decreases hi,
{
    if hi > 0 && s[hi - 1] != c {
        lemma_last_index_bounds(s, hi - 1, c);
    }
}

/// `last_index_of` is pinned down by its defining property.
pub proof fn lemma_last_index_is(s: Seq<char>, hi: int, c: char, k: int)
    requires
        0 <= hi <= s.len(),
        (k == -1 && forall|j: int| 0 <= j < hi ==> #[trigger] s[j] != c) || (0 <= k < hi && s[k]
            == c && forall|j: int| k < j < hi ==> #[trigger] s[j] != c),
    ensures
        last_index_of(s, hi, c) == k,
    decreases hi,
{
    if hi > 0 && hi - 1 != k {
        lemma_last_index_is(s, hi - 1, c, k);
    }
}

pub proof fn lemma_first_index_bounds(s: Seq<char>, i: int, c: char)
    requires
        0 <= i,
    ensures
        first_index_of(s, i, c) == -1 || (i <= first_index_of(s, i, c) < s.len() && s[first_index_of(
            s,
            i,
            c,
        )] == c),
        forall|j: int|
            i <= j < s.len() && (first_index_of(s, i, c) == -1 || j < first_index_of(s, i, c))
                ==> #[trigger] s[j] != c,
    decreases s.len() - i,
{
    if i < s.len() && s[i] != c {
        lemma_first_index_bounds(s, i + 1, c);
    }
}

pub proof fn lemma_first_index_has(s: Seq<char>, c: char)
    ensures
        (first_index_of(s, 0, c) >= 0) == has_char(s, c),
{
    lemma_first_index_bounds(s, 0, c);
}

pub proof fn lemma_skip_seps_bounds(s: Seq<char>, i: int, win: bool)
    requires
        0 <= i <= s.len(),
    ensures
        i <= skip_seps(s, i, win) <= s.len(),
        skip_seps(s, i, win) < s.len() ==> !is_sep(s[skip_seps(s, i, win)], win),
        forall|j: int| i <= j < skip_seps(s, i, win) ==> is_sep(#[trigger] s[j], win),
    decreases s.len() - i,
{
    if i < s.len() && is_sep(s[i], win) {
        lemma_skip_seps_bounds(s, i + 1, win);
    }
}

pub proof fn lemma_skip_nonseps_bounds(s: Seq<char>, i: int, win: bool)
    requires
        0 <= i <= s.len(),
    ensures
        i <= skip_nonseps(s, i, win) <= s.len(),
        skip_nonseps(s, i, win) < s.len() ==> is_sep(s[skip_nonseps(s, i, win)], win),
        forall|j: int| i <= j < skip_nonseps(s, i, win) ==> !is_sep(#[trigger] s[j], win),
    decreases s.len() - i,
{
    if i < s.len() && !is_sep(s[i], win) {
        lemma_skip_nonseps_bounds(s, i + 1, win);
    }
}

/// `String::push`: claimed, as std documents, to append `c` to the end of the string.
#[verifier::external_body]
fn push_char(s: &mut String, c: char)
    ensures
        final(s)@ == old(s)@.push(c),
{
    s.push(c);
}

/// The characters of a string slice.
pub(crate) fn chars_of(s: &str) -> (v: Vec<char>)
    ensures
        v@ == s@,
{
    let mut v: Vec<char> = Vec::new();
    for c in it: s.chars()
        invariant
            v@ == it.seq().take(it.index() as int),
    {
        v.push(c);
    }
    v
}

/// A string holding exactly the given characters.
pub(crate) fn string_of(v: &[char]) -> (s: String)
    ensures
        s@ == v@,
{
    let mut s = String::new();
    let mut i: usize = 0;
    while i < v.len()
        invariant
            i <= v.len(),
            s@ == v@.take(i as int),
        decreases v.len() - i,
    {
        push_char(&mut s, v[i]);
        assert(v@.take(i + 1) =~= v@.take(i as int).push(v@[i as int]));
        i = i + 1;
    }
    assert(v@.take(v.len() as int) =~= v@);
    s
}

/// Appends the characters of `other` to `v`.
pub(crate) fn append_chars(v: &mut Vec<char>, other: &[char])
    ensures
        final(v)@ == old(v)@ + other@,
{
    let mut i: usize = 0;
    while i < other.len()
        invariant
            i <= other.len(),
            v@ == old(v)@ + other@.take(i as int),
        decreases other.len() - i,
    {
        v.push(other[i]);
        assert(other@.take(i + 1) =~= other@.take(i as int).push(other@[i as int]));
        i = i + 1;
    }
    assert(other@.take(other.len() as int) =~= other@);
}

/// The characters `v[from..to]` as a new vector.
pub(crate) fn sub_chars(v: &[char], from: usize, to: usize) -> (r: Vec<char>)
    requires
        from <= to <= v@.len(),
    ensures
        r@ == v@.subrange(from as int, to as int),
{
    let mut r: Vec<char> = Vec::new();
    let mut i: usize = from;
    while i < to
        invariant
            from <= i <= to,
            to <= v@.len(),
            r@ == v@.subrange(from as int, i as int),
        decreases to - i,
    {
        r.push(v[i]);
        assert(v@.subrange(from as int, i + 1) =~= v@.subrange(from as int, i as int).push(
            v@[i as int],
        ));
        i = i + 1;
    }
    r
}

/// Character-wise equality of two sequences.
pub(crate) fn chars_eq(a: &[char], b: &[char]) -> (r: bool)
    ensures
        r == (a@ == b@),
{
    if a.len() != b.len() {
        return false;
    }
    let mut i: usize = 0;
    while i < a.len()
        invariant
            i <= a.len(),
            a.len() == b.len(),
            forall|j: int| 0 <= j < i ==> a@[j] == b@[j],
        decreases a.len() - i,
    {
        if a[i] != b[i] {
            return false;
        }
        i = i + 1;
    }
    assert(a@ =~= b@);
    true
}

/// Whether a character is a separator of the namespace.
pub(crate) fn is_sep_exec(c: char, win: bool) -> (r: bool)
    ensures
        r == is_sep(c, win),
{
    c == '/' || (win && c == '\\')
}

/// Whether a character is an ASCII letter.
pub(crate) fn is_ascii_alpha_exec(c: char) -> (r: bool)
    ensures
        r == is_ascii_alpha(c),
{
    ('a' <= c && c <= 'z') || ('A' <= c && c <= 'Z')
}

/// Equality of two character sequences under ASCII case folding.
pub(crate) fn eq_ignore_ascii_case_exec(a: &[char], b: &[char]) -> (r: bool)
    ensures
        r == eq_ignore_ascii_case(a@, b@),
{
    if a.len() != b.len() {
        return false;
    }
    let mut i: usize = 0;
    while i < a.len()
        invariant
            i <= a.len(),
            a.len() == b.len(),
            forall|j: int| 0 <= j < i ==> ascii_upper(#[trigger] a@[j]) == ascii_upper(b@[j]),
        decreases a.len() - i,
    {
        let x = a[i];
        let y = b[i];
        let xu = ('a' <= x && x <= 'z');
        let yu = ('a' <= y && y <= 'z');
        let same = if xu && yu {
            x == y
        } else if xu {
            (x as u32) - 32 == (y as u32)
        } else if yu {
            (x as u32) == (y as u32) - 32
        } else {
            x == y
        };
        if !same {
            assert(ascii_upper(a@[i as int]) != ascii_upper(b@[i as int]));
            return false;
        }
        i = i + 1;
    }
    true
}

/// Index of the last separator in `s[lo..hi]`, if any.
pub(crate) fn find_last_sep(s: &[char], lo: usize, hi: usize, win: bool) -> (r: Option<usize>)
    requires
        lo <= hi <= s@.len(),
    ensures
        match r {
            Some(k) => k == last_sep_before(s@, lo as int, hi as int, win),
            None => last_sep_before(s@, lo as int, hi as int, win) == -1,
        },
{
    let mut i: usize = hi;
    while i > lo
        invariant
            lo <= i <= hi <= s@.len(),
            last_sep_before(s@, lo as int, hi as int, win) == last_sep_before(
                s@,
                lo as int,
                i as int,
                win,
            ),
        decreases i,
    {
        if is_sep_exec(s[i - 1], win) {
            return Some(i - 1);
        }
        i = i - 1;
    }
    None
}

/// Index of the last non-separator in `s[lo..hi]`, if any.
pub(crate) fn find_last_nonsep(s: &[char], lo: usize, hi: usize, win: bool) -> (r: Option<usize>)
    requires
        lo <= hi <= s@.len(),
    ensures
        match r {
            Some(k) => k == last_nonsep_before(s@, lo as int, hi as int, win),
            None => last_nonsep_before(s@, lo as int, hi as int, win) == -1,
        },
{
    let mut i: usize = hi;
    while i > lo
        invariant
            lo <= i <= hi <= s@.len(),
            last_nonsep_before(s@, lo as int, hi as int, win) == last_nonsep_before(
                s@,
                lo as int,
                i as int,
                win,
            ),
        decreases i,
    {
        if !is_sep_exec(s[i - 1], win) {
            return Some(i - 1);
        }
        i = i - 1;
    }
    None
}

/// Index of the last occurrence of `c` in `s[0..hi]`, if any.
pub(crate) fn find_last_char(s: &[char], hi: usize, c: char) -> (r: Option<usize>)
    requires
        hi <= s@.len(),
    ensures
        match r {
            Some(k) => k == last_index_of(s@, hi as int, c),
            None => last_index_of(s@, hi as int, c) == -1,
        },
{
    let mut i: usize = hi;
    while i > 0
        invariant
            i <= hi <= s@.len(),
            last_index_of(s@, hi as int, c) == last_index_of(s@, i as int, c),
        decreases i,
    {
        if s[i - 1] == c {
            return Some(i - 1);
        }
        i = i - 1;
    }
    None
}

/// Index of the first occurrence of `c` in `s`, if any.
pub(crate) fn find_first_char(s: &[char], c: char) -> (r: Option<usize>)
    ensures
        match r {
            Some(k) => k == first_index_of(s@, 0, c),
            None => first_index_of(s@, 0, c) == -1,
        },
{
    let mut i: usize = 0;
    while i < s.len()
        invariant
            i <= s@.len(),
            first_index_of(s@, 0, c) == first_index_of(s@, i as int, c),
        decreases s.len() - i,
    {
        if s[i] == c {
            return Some(i);
        }
        i = i + 1;
    }
    None
}

/// First index at or after `i` that holds no separator.
pub(crate) fn skip_seps_exec(s: &[char], i: usize, win: bool) -> (r: usize)
    requires
        i <= s@.len(),
    ensures
        r == skip_seps(s@, i as int, win),
{
    let mut k = i;
    while k < s.len() && is_sep_exec(s[k], win)
        invariant
            i <= k <= s@.len(),
            skip_seps(s@, i as int, win) == skip_seps(s@, k as int, win),
        decreases s.len() - k,
    {
        k = k + 1;
    }
    k
}

/// First index at or after `i` that holds a separator.
pub(crate) fn skip_nonseps_exec(s: &[char], i: usize, win: bool) -> (r: usize)
    requires
        i <= s@.len(),
    ensures
        r == skip_nonseps(s@, i as int, win),
{
    let mut k = i;
    while k < s.len() && !is_sep_exec(s[k], win)
        invariant
            i <= k <= s@.len(),
            skip_nonseps(s@, i as int, win) == skip_nonseps(s@, k as int, win),
        decreases s.len() - k,
    {
        k = k + 1;
    }
    k
}

/// A slice of `s` between two character positions.
pub(crate) fn slice_chars(s: &str, from: usize, to: usize) -> (r: &str)
    requires
        from <= to <= s@.len(),
    ensures
        r@ == s@.subrange(from as int, to as int),
{
    s.substring_char(from, to)
}

} // verus!
