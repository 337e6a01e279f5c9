//! Node-compatible parse and format records.

use vstd::prelude::*;

verus! {

/// Node's five-field path record, usable with owned or borrowed strings.
#[derive(Clone, Copy, Debug, Default, PartialEq, Eq)]
pub struct PathObject<S = String> {
    /// Root prefix, such as `/`, `C:\`, or a UNC share root.
    pub root: S,
    /// Directory component; when non-empty it takes precedence over `root` in `format`.
    pub dir: S,
    /// Final component; when non-empty it takes precedence over `name` plus `ext`.
    pub base: S,
    /// Extension, with a leading dot added by `format` when absent.
    pub ext: S,
    /// Filename stem used by `format` only when `base` is empty.
    pub name: S,
}

/// A parse result that borrows all fields from the original input.
pub type ParsedPath<'a> = PathObject<&'a str>;

impl<S: View> View for PathObject<S> {
    type V = PathObject<S::V>;

    open spec fn view(&self) -> PathObject<S::V> {
        PathObject {
            root: self.root@,
            dir: self.dir@,
            base: self.base@,
            ext: self.ext@,
            name: self.name@,
        }
    }
}

/// A string-like field of a [`PathObject`].
pub trait PathField {
    /// The characters the field holds.
    spec fn field_view(&self) -> Seq<char>;

    /// The field as a string slice.
    fn as_field_str(&self) -> (r: &str)
        ensures
            r@ == self.field_view(),
    ;
}

impl PathField for String {
    open spec fn field_view(&self) -> Seq<char> {
        self@
    }

    fn as_field_str(&self) -> (r: &str) {
        self.as_str()
    }
}

impl<'a> PathField for &'a str {
    open spec fn field_view(&self) -> Seq<char> {
        (*self)@
    }

    fn as_field_str(&self) -> (r: &str) {
        *self
    }
}

} // verus!
