//! Helpers of the sequence-diagram parser.
use crate::ast::sequence::ArrowStyle;
use crate::text::{chars_of, ends_with, eq_str, slice_of, starts_with, string_of};
use vstd::prelude::*;

verus! {

/// `s` without the double quotes around it, if it has them.
pub open spec fn spec_unquote(s: Seq<char>) -> Seq<char> {
    if s.len() > 0 && s[0] == '"' && s.last() == '"' {
        s.subrange(1, s.len() - 1)
    } else {
        s
    }
}

/// See [`spec_unquote`]. A lone `"` is no quoted text.
pub fn unquote(s: &str) -> (r: String)
    requires
        s@ != seq!['"'],
    ensures
        r@ == spec_unquote(s@),
{
    let t = chars_of(s);
    if t.len() > 0 && t[0] == '"' && t[t.len() - 1] == '"' {
        assert(t.len() >= 2) by {
            if t.len() == 1 {
                assert(t@ =~= seq!['"']);
            }
        }
        let inner = slice_of(t.as_slice(), 1, t.len() - 1);
        string_of(inner.as_slice())
    } else {
        string_of(t.as_slice())
    }
}

/// The style of a message arrow, and whether it points backwards: it
/// starts with `<` and does not end with `>`.
pub open spec fn spec_parse_arrow_style(s: Seq<char>) -> (ArrowStyle, bool) {
    let reverse = starts_with(s, "<"@) && !ends_with(s, ">"@);
    let style = if s == "-->"@ || s == "<--"@ || s == "-->>"@ || s == "<<--"@ {
        ArrowStyle::Dashed
    } else if s == "->>"@ || s == "<<-"@ {
        ArrowStyle::SolidThick
    } else if s == "->x"@ || s == "x->"@ {
        ArrowStyle::Lost
    } else {
        ArrowStyle::Solid
    };
    (style, reverse)
}

/// See [`spec_parse_arrow_style`].
pub fn parse_arrow_style(s: &str) -> (r: (ArrowStyle, bool))
    ensures
        r == spec_parse_arrow_style(s@),
{
    let c = chars_of(s);
    let c = c.as_slice();
    let reverse = crate::text::starts_with_str(c, "<") && !crate::text::ends_with_str(c, ">");
    let style = if eq_str(c, "-->") || eq_str(c, "<--") || eq_str(c, "-->>") || eq_str(c, "<<--") {
        ArrowStyle::Dashed
    } else if eq_str(c, "->>") || eq_str(c, "<<-") {
        ArrowStyle::SolidThick
    } else if eq_str(c, "->x") || eq_str(c, "x->") {
        ArrowStyle::Lost
    } else {
        ArrowStyle::Solid
    };
    (style, reverse)
}

} // verus!
