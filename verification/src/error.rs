//! Public error types.

use vstd::prelude::*;

use crate::glob::brace::{decimal, decimal_exec};
use crate::text::{append_chars, chars_of, string_of};

verus! {

#[verifier::external_type_specification]
#[verifier::external_body]
pub struct ExIoError(std::io::Error);

#[verifier::external_type_specification]
#[verifier::external_body]
pub struct ExPathBuf(std::path::PathBuf);

/// Failure while capturing a deterministic Node execution context.
#[derive(Debug)]
pub enum ContextError {
    /// The operating system did not provide the current directory.
    CurrentDirectory(std::io::Error),
    /// The current directory is outside the crate's Unicode string domain.
    NonUnicodeCurrentDirectory(std::path::PathBuf),
    /// A drive key was not one ASCII letter followed by `:`.
    InvalidDriveDevice(String),
    /// Two drive keys were equal under ASCII case folding.
    DuplicateDriveDevice(String),
}

/// `Display` of an I/O error, whose text comes from the operating system; nothing is claimed of it.
#[verifier::external_body]
fn io_error_text(error: &std::io::Error) -> String {
    format!("{error}")
}

/// `Path::display` of a path buffer; nothing is claimed of the text, which is lossy for
/// non-Unicode paths.
#[verifier::external_body]
fn path_display_text(path: &std::path::PathBuf) -> String {
    format!("{}", path.display())
}

/// The message prefix of each context error.
pub open spec fn context_error_prefix(e: ContextError) -> Seq<char> {
    match e {
        ContextError::CurrentDirectory(_) => "failed to read the current directory: "@,
        ContextError::NonUnicodeCurrentDirectory(_) => "current directory is not valid Unicode: "@,
        ContextError::InvalidDriveDevice(_) => "invalid Windows drive device: "@,
        ContextError::DuplicateDriveDevice(_) => "duplicate Windows drive device: "@,
    }
}

fn concat_str(prefix: &str, rest: &str) -> (r: String)
    ensures
        r@ == prefix@ + rest@,
{
    let mut v = chars_of(prefix);
    let w = chars_of(rest);
    append_chars(&mut v, &w);
    string_of(&v)
}

impl ContextError {
    /// The human-readable message: a fixed prefix per variant, followed by the device for the
    /// drive errors and by the operating system's description otherwise.
    pub fn message(&self) -> (r: String)
        ensures
            r@.take(context_error_prefix(*self).len() as int) == context_error_prefix(*self),
            self matches ContextError::InvalidDriveDevice(d) ==> r@ == context_error_prefix(*self)
                + d@,
            self matches ContextError::DuplicateDriveDevice(d) ==> r@ == context_error_prefix(*self)
                + d@,
    {
        match self {
            ContextError::CurrentDirectory(error) => {
                let text = io_error_text(error);
                let r = concat_str("failed to read the current directory: ", text.as_str());
                proof {
                    reveal_strlit("failed to read the current directory: ");
                    assert(r@.take(context_error_prefix(*self).len() as int) =~= context_error_prefix(
                        *self,
                    ));
                }
                r
            },
            ContextError::NonUnicodeCurrentDirectory(path) => {
                let text = path_display_text(path);
                let r = concat_str("current directory is not valid Unicode: ", text.as_str());
                proof {
                    reveal_strlit("current directory is not valid Unicode: ");
                    assert(r@.take(context_error_prefix(*self).len() as int) =~= context_error_prefix(
                        *self,
                    ));
                }
                r
            },
            ContextError::InvalidDriveDevice(device) => {
                let r = concat_str("invalid Windows drive device: ", device.as_str());
                proof {
                    reveal_strlit("invalid Windows drive device: ");
                    assert(r@.take(context_error_prefix(*self).len() as int) =~= context_error_prefix(
                        *self,
                    ));
                }
                r
            },
            ContextError::DuplicateDriveDevice(device) => {
                let r = concat_str("duplicate Windows drive device: ", device.as_str());
                proof {
                    reveal_strlit("duplicate Windows drive device: ");
                    assert(r@.take(context_error_prefix(*self).len() as int) =~= context_error_prefix(
                        *self,
                    ));
                }
                r
            },
        }
    }

    /// The underlying I/O error, present only for [`ContextError::CurrentDirectory`].
    pub fn source(&self) -> (r: Option<&std::io::Error>)
        ensures
            r is Some <==> self is CurrentDirectory,
            self matches ContextError::CurrentDirectory(e) ==> r == Some(e),
    {
        match self {
            ContextError::CurrentDirectory(error) => Some(error),
            _ => None,
        }
    }
}

/// Failure while compiling or executing a Node-compatible glob pattern.
#[derive(Clone, Debug, PartialEq, Eq, Structural)]
pub enum GlobError {
    /// The pattern exceeds Node's limit in JavaScript UTF-16 code units.
    PatternTooLong { utf16_units: usize, maximum: usize },
    /// The internal matcher violated an invariant.
    MatcherInvariant,
}

impl GlobError {
    /// The human-readable message.
    pub fn message(&self) -> (r: String)
        ensures
            r@ == match *self {
                GlobError::PatternTooLong { utf16_units, maximum } => "glob pattern contains "@
                    + decimal(utf16_units as nat) + " UTF-16 units; maximum is "@ + decimal(
                    maximum as nat,
                ),
                GlobError::MatcherInvariant => "glob matcher invariant violated"@,
            },
    {
        match self {
            GlobError::PatternTooLong { utf16_units, maximum } => {
                let mut v = chars_of("glob pattern contains ");
                append_chars(&mut v, &decimal_exec(*utf16_units as u64));
                append_chars(&mut v, &chars_of(" UTF-16 units; maximum is "));
                append_chars(&mut v, &decimal_exec(*maximum as u64));
                string_of(&v)
            },
            GlobError::MatcherInvariant => "glob matcher invariant violated".to_owned(),
        }
    }
}

} // verus!
