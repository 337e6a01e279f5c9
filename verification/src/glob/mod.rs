//! Node.js `matchesGlob`: the pattern is brace-expanded, each expansion is translated into a
//! regular expression, and the path matches when one of them matches its UTF-16 form.

pub mod brace;
pub mod minimatch;

use vstd::prelude::*;

use crate::context::NodeHost;
use crate::error::GlobError;
use crate::glob::brace::{expand, expand_exec, ExpandError, Expansion};
use crate::glob::minimatch::{compile, compile_exec};
use crate::shared::vviews;
use crate::text::{chars_of, string_of};

verus! {

/// Patterns may hold at most this many UTF-16 code units.
pub const MAX_PATTERN_UTF16_UNITS: usize = 65536;

/// The number of UTF-16 code units of one character.
pub open spec fn utf16_width(c: char) -> int {
    if (c as u32) >= 0x10000 {
        2
    } else {
        1
    }
}

/// The number of UTF-16 code units of a string.
pub open spec fn utf16_len(s: Seq<char>) -> int
    decreases s.len(),
{
    if s.len() == 0 {
        0
    } else {
        utf16_width(s[0]) + utf16_len(s.drop_first())
    }
}

proof fn lemma_utf16_len_suffix(s: Seq<char>, i: int)
    requires
        0 <= i <= s.len(),
    ensures
        0 <= utf16_len(s.skip(i)) <= utf16_len(s),
    decreases i,
{
    if i == 0 {
        assert(s.skip(0) =~= s);
        lemma_utf16_len_nonneg(s);
    } else {
        lemma_utf16_len_suffix(s, i - 1);
        assert(s.skip(i - 1).drop_first() =~= s.skip(i));
        lemma_utf16_len_nonneg(s.skip(i));
    }
}

proof fn lemma_utf16_len_nonneg(s: Seq<char>)
    ensures
        utf16_len(s) >= 0,
    decreases s.len(),
{
    if s.len() > 0 {
        lemma_utf16_len_nonneg(s.drop_first());
    }
}

/// A string has no more UTF-16 code units than UTF-8 bytes.
proof fn lemma_utf16_len_bytes(s: Seq<char>)
    ensures
        utf16_len(s) <= vstd::utf8::encode_utf8(s).len(),
    decreases s.len(),
{
    if s.len() > 0 {
        lemma_utf16_len_bytes(s.drop_first());
        vstd::utf8::char_is_scalar(s[0]);
    }
}

/// The UTF-16 encoding of one character.
pub open spec fn utf16_units(c: char) -> Seq<u16> {
    let v = c as u32;
    if v < 0x10000 {
        seq![v as u16]
    } else {
        let w = v - 0x10000;
        seq![(0xD800 + w / 1024) as u16, (0xDC00 + w % 1024) as u16]
    }
}

/// The UTF-16 encoding of a string.
pub open spec fn encode_utf16(s: Seq<char>) -> Seq<u16>
    decreases s.len(),
{
    if s.len() == 0 {
        Seq::empty()
    } else {
        encode_utf16(s.drop_last()) + utf16_units(s.last())
    }
}

/// The regular-expression flags: case-insensitive (`i`) on Windows and macOS hosts, always
/// Unicode-aware (`u`).
pub open spec fn glob_flags(host: NodeHost) -> Seq<char> {
    if host == NodeHost::Win32 || host == NodeHost::Darwin {
        seq!['i', 'u']
    } else {
        seq!['u']
    }
}

/// Whether regress accepts `source` with `flags` (`regress::Regex::with_flags` succeeds).
pub uninterp spec fn regress_compiles(source: Seq<char>, flags: Seq<char>) -> bool;

/// Whether the regex built from `source` and `flags` finds a match in the UTF-16 `input`
/// (`Regex::find_from_utf16` from position 0 yields a match).
pub uninterp spec fn regress_finds(source: Seq<char>, flags: Seq<char>, input: Seq<u16>) -> bool;

/// Matching the expanded patterns from `i` on, in order: the first that does not compile is an
/// error, the first that matches gives `true`.
pub open spec fn search_from(
    patterns: Seq<Seq<char>>,
    i: int,
    win: bool,
    flags: Seq<char>,
    input: Seq<u16>,
) -> Result<bool, GlobError>
    decreases patterns.len() - i,
{
    if i < 0 || i >= patterns.len() {
        Ok(false)
    } else {
        let source = compile(patterns[i], win);
        if !regress_compiles(source, flags) {
            Err(GlobError::MatcherInvariant)
        } else if regress_finds(source, flags, input) {
            Ok(true)
        } else {
            search_from(patterns, i + 1, win, flags, input)
        }
    }
}

/// Whether matching is defined for the pattern: it is over the length limit, or its brace ranges
/// expand without overflowing `i64`.
pub open spec fn glob_defined(pattern: Seq<char>) -> bool {
    utf16_len(pattern) > MAX_PATTERN_UTF16_UNITS || !(expand(pattern) is Overflow)
}

/// Node's `matchesGlob` in the namespace selected by `win` on `host`.
pub open spec fn glob_result(win: bool, host: NodeHost, path: Seq<char>, pattern: Seq<char>) -> Result<
    bool,
    GlobError,
> {
    let units = utf16_len(pattern);
    if units > MAX_PATTERN_UTF16_UNITS {
        Err(GlobError::PatternTooLong { utf16_units: units as usize, maximum: MAX_PATTERN_UTF16_UNITS })
    } else {
        match expand(pattern) {
            Expansion::Patterns(ps) => search_from(ps, 0, win, glob_flags(host), encode_utf16(path)),
            _ => Err(GlobError::MatcherInvariant),
        }
    }
}

/// `regress::Regex::with_flags(source, flags)` followed, on success, by
/// `Regex::find_from_utf16(input, 0).next()`: `None` when regress rejects the expression, else
/// whether a match was found. Both results are named; they depend on the arguments alone.
#[verifier::external_body]
fn regex_search(source: &str, flags: &str, input: &[u16]) -> (r: Option<bool>)
    ensures
        r is Some <==> regress_compiles(source@, flags@),
        r matches Some(b) ==> b == regress_finds(source@, flags@, input@),
{
    match regress::Regex::with_flags(source, flags) {
        Ok(regex) => Some(regex.find_from_utf16(input, 0).next().is_some()),
        Err(_) => None,
    }
}

/// The number of UTF-16 code units of a string.
pub(crate) fn utf16_len_exec(s: &[char]) -> (r: usize)
    requires
        utf16_len(s@) <= usize::MAX,
    ensures
        r == utf16_len(s@),
{
    let mut total: usize = 0;
    let mut i: usize = s.len();
    assert(s@.skip(s.len() as int) =~= Seq::<char>::empty());
    while i > 0
        invariant
            i <= s.len(),
            total == utf16_len(s@.skip(i as int)),
            utf16_len(s@) <= usize::MAX,
        decreases i,
    {
        proof {
            lemma_utf16_len_suffix(s@, i - 1);
            assert(s@.skip(i - 1).drop_first() =~= s@.skip(i as int));
        }
        if (s[i - 1] as u32) >= 0x10000 {
            total = total + 2;
        } else {
            total = total + 1;
        }
        i = i - 1;
    }
    assert(s@.skip(0) =~= s@);
    total
}

/// The UTF-16 encoding of a string.
pub(crate) fn encode_utf16_exec(s: &[char]) -> (r: Vec<u16>)
    ensures
        r@ == encode_utf16(s@),
{
    let mut out: Vec<u16> = Vec::new();
    let mut i: usize = 0;
    while i < s.len()
        invariant
            i <= s.len(),
            out@ == encode_utf16(s@.take(i as int)),
        decreases s.len() - i,
    {
        assert(s@.take(i + 1).drop_last() =~= s@.take(i as int));
        let c = s[i];
        proof {
            vstd::utf8::char_is_scalar(c);
        }
        let v = c as u32;
        if v < 0x10000 {
            out.push(v as u16);
        } else {
            let w = v - 0x10000;
            out.push((0xD800 + w / 1024) as u16);
            out.push((0xDC00 + w % 1024) as u16);
        }
        assert(out@ =~= encode_utf16(s@.take(i + 1)));
        i = i + 1;
    }
    assert(s@.take(s.len() as int) =~= s@);
    out
}

/// Whether `pattern` can be matched at all: it is over the length limit (and refused), or its
/// brace ranges expand without overflowing `i64`.
pub fn glob_pattern_supported(pattern: &str) -> (r: bool)
    ensures
        r == glob_defined(pattern@),
{
    let pat = chars_of(pattern);
    let byte_count = pattern.as_bytes().len();
    proof {
        lemma_utf16_len_bytes(pattern@);
    }
    let units = utf16_len_exec(&pat);
    if units > MAX_PATTERN_UTF16_UNITS {
        return true;
    }
    match expand_exec(&pat) {
        Err(ExpandError::Overflow) => false,
        _ => true,
    }
}

/// Matches `path` against `pattern` with Node's `matchesGlob` semantics in the namespace selected
/// by `win` (`\` separates segments too) on `host` (which decides case sensitivity).
pub fn matches(win: bool, host: NodeHost, path: &str, pattern: &str) -> (r: Result<bool, GlobError>)
    requires
        glob_defined(pattern@),
    ensures
        r == glob_result(win, host, path@, pattern@),
{
    let pat = chars_of(pattern);
    let byte_count = pattern.as_bytes().len();
    proof {
        lemma_utf16_len_bytes(pattern@);
    }
    let units = utf16_len_exec(&pat);
    if units > MAX_PATTERN_UTF16_UNITS {
        return Err(GlobError::PatternTooLong { utf16_units: units, maximum: MAX_PATTERN_UTF16_UNITS });
    }
    let p = chars_of(path);
    let input = encode_utf16_exec(&p);
    let flags: &str = if host == NodeHost::Win32 || host == NodeHost::Darwin {
        let f = "iu";
        proof {
            reveal_strlit("iu");
        }
        f
    } else {
        let f = "u";
        proof {
            reveal_strlit("u");
        }
        f
    };
    assert(flags@ =~= glob_flags(host));
    let expanded = match expand_exec(&pat) {
        Ok(v) => v,
        Err(_) => return Err(GlobError::MatcherInvariant),
    };
    let ghost ps = vviews(expanded@);
    let mut i: usize = 0;
    while i < expanded.len()
        invariant
            ps == vviews(expanded@),
            i <= expanded.len(),
            flags@ == glob_flags(host),
            input@ == encode_utf16(path@),
            glob_result(win, host, path@, pattern@) == search_from(ps, 0, win, glob_flags(host), input@),
            search_from(ps, 0, win, glob_flags(host), input@) == search_from(
                ps,
                i as int,
                win,
                glob_flags(host),
                input@,
            ),
        decreases expanded.len() - i,
    {
        let source = string_of(&compile_exec(&expanded[i], win));
        match regex_search(source.as_str(), flags, &input) {
            None => return Err(GlobError::MatcherInvariant),
            Some(true) => return Ok(true),
            Some(false) => {},
        }
        i = i + 1;
    }
    Ok(false)
}

} // verus!
