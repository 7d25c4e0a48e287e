//! Helpers of the activity parser: the title marker.
use crate::ast::activity::ActivityElement;
use crate::text::{chars_of, starts_with, starts_with_str};
use vstd::prelude::*;

verus! {

/// A title is carried through the element list as a label with this prefix.
pub open spec fn title_prefix() -> Seq<char> {
    "__title__"@
}

/// The title an element carries: always none, titles are read from their
/// marker labels instead.
pub fn extract_title(_elem: &ActivityElement) -> (r: Option<String>)
    ensures
        r is None,
{
    None
}

/// Whether `e` is a label standing for the title (it starts with
/// `__title__`).
pub fn is_title_marker(e: &ActivityElement) -> (r: bool)
    ensures
        r == (e matches ActivityElement::Label(s) && starts_with(s@, title_prefix())),
{
    match e {
        ActivityElement::Label(s) => {
            let c = chars_of(s.as_str());
            starts_with_str(c.as_slice(), "__title__")
        },
        _ => false,
    }
}

} // verus!
