//! Node.js-compatible string path processing.
//!
//! Explicit [`posix`] and [`win32`] namespaces are host-independent. The crate-root functions
//! select the Windows namespace on targets whose paths use backslash separators and the POSIX
//! namespace elsewhere. On Windows and on Unix-like targets this is the same as choosing by
//! `cfg(windows)`; a few other targets (UEFI) use backslash separators without being Windows, and
//! there these functions take the Windows namespace. Context-free functions do not access the
//! filesystem; context-dependent functions take a [`PathContext`].

pub mod context;
pub mod error;
pub mod glob;
pub mod laws;
pub mod path_object;
pub mod posix;
pub mod shared;
pub mod text;
pub mod win32;

use std::borrow::Cow;

use vstd::prelude::*;

pub use context::{DriveCwd, NodeHost, PathContext};
pub use error::{ContextError, GlobError};
pub use path_object::{ParsedPath, PathField, PathObject};
pub use std::path::MAIN_SEPARATOR_STR as SEP;

use crate::posix::{
    posix_basename, posix_dirname, posix_extname, posix_join, posix_normalize, posix_parse,
};
use crate::text::views;
use crate::win32::{
    win32_basename, win32_dirname, win32_extname, win32_is_absolute, win32_join, win32_normalize,
    win32_parse,
};

verus! {

/// The optional suffix as a sequence.
pub open spec fn suffix_view(suffix: Option<&str>) -> Option<Seq<char>> {
    match suffix {
        Some(s) => Some(s@),
        None => None,
    }
}

/// Whether `c` separates path components on the compilation target (`std::path::is_separator`).
/// The target is fixed when the crate is built, so the result depends on `c` alone.
pub uninterp spec fn target_path_separator(c: char) -> bool;

/// Whether the compilation target uses Windows paths: `\` separates path components there.
/// This holds on Windows and fails on Unix-like targets; UEFI targets also separate with `\`.
pub open spec fn target_uses_win32() -> bool {
    target_path_separator('\\')
}

/// `std::path::is_separator`: claimed to return the named result for its argument, the same on
/// every call of one build.
#[verifier::external_body]
fn is_path_separator(c: char) -> (r: bool)
    ensures
        r == target_path_separator(c),
{
    std::path::is_separator(c)
}

fn target_is_win32() -> (r: bool)
    ensures
        r == target_uses_win32(),
{
    is_path_separator('\\')
}

/// Normalizes a path in the target's namespace.
pub fn normalize(path: &str) -> (r: Cow<'_, str>)
    ensures
        r@ == if target_uses_win32() {
            win32_normalize(path@)
        } else {
            posix_normalize(path@)
        },
{
    if target_is_win32() {
        win32::normalize(path)
    } else {
        posix::normalize(path)
    }
}

/// Whether the path is absolute in the target's namespace.
pub fn is_absolute(path: &str) -> (r: bool)
    ensures
        r == if target_uses_win32() {
            win32_is_absolute(path@)
        } else {
            path@.len() > 0 && path@[0] == '/'
        },
{
    if target_is_win32() {
        win32::is_absolute(path)
    } else {
        posix::is_absolute(path)
    }
}

/// Joins path fragments in the target's namespace.
pub fn join(paths: &[&str]) -> (r: String)
    ensures
        r@ == if target_uses_win32() {
            win32_join(views(paths@))
        } else {
            posix_join(views(paths@))
        },
{
    if target_is_win32() {
        win32::join(paths)
    } else {
        posix::join(paths)
    }
}

/// The directory portion in the target's namespace.
pub fn dirname(path: &str) -> (r: &str)
    ensures
        r@ == if target_uses_win32() {
            win32_dirname(path@)
        } else {
            posix_dirname(path@)
        },
{
    if target_is_win32() {
        win32::dirname(path)
    } else {
        posix::dirname(path)
    }
}

/// The final component in the target's namespace, optionally without a suffix.
pub fn basename<'a>(path: &'a str, suffix: Option<&str>) -> (r: &'a str)
    ensures
        r@ == if target_uses_win32() {
            win32_basename(path@, suffix_view(suffix))
        } else {
            posix_basename(path@, suffix_view(suffix))
        },
{
    if target_is_win32() {
        win32::basename(path, suffix)
    } else {
        posix::basename(path, suffix)
    }
}

/// The extension of the final component in the target's namespace.
pub fn extname(path: &str) -> (r: &str)
    ensures
        r@ == if target_uses_win32() {
            win32_extname(path@)
        } else {
            posix_extname(path@)
        },
{
    if target_is_win32() {
        win32::extname(path)
    } else {
        posix::extname(path)
    }
}

/// Parses a path in the target's namespace into five borrowed fields.
pub fn parse(path: &str) -> (r: ParsedPath<'_>)
    ensures
        r@ == if target_uses_win32() {
            win32_parse(path@)
        } else {
            posix_parse(path@)
        },
{
    if target_is_win32() {
        win32::parse(path)
    } else {
        posix::parse(path)
    }
}

/// Formats a path record in the target's namespace.
pub fn format<S: PathField>(path_object: &PathObject<S>) -> (r: String)
    ensures
        r@ == posix::format_fields(
            path_object.root.field_view(),
            path_object.dir.field_view(),
            path_object.base.field_view(),
            path_object.ext.field_view(),
            path_object.name.field_view(),
            if target_uses_win32() {
                '\\'
            } else {
                '/'
            },
        ),
{
    if target_is_win32() {
        win32::format(path_object)
    } else {
        posix::format(path_object)
    }
}

} // verus!
