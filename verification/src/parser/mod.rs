//! Parsing front end: preprocessing, C4 translation, and the helpers of the
//! per-diagram parsers.
pub mod activity;
pub mod c4;
pub mod class;
pub mod gantt;
pub mod preprocessor;
pub mod sequence;
pub mod state;
pub mod usecase;

use crate::text::{
    chars_of, contains, contains_str, ends_with, ends_with_str, lines, split_lines, starts_with,
    starts_with_str, trim, trim_chars,
};
use vstd::prelude::*;

verus! {

/// The diagram type a trimmed line gives away, if any: arrows and
/// participant keywords mean a sequence diagram, `class ` and inheritance or
/// composition arrows a class diagram, `start` or `:…;` an activity diagram,
/// `state ` or `[*]` a state diagram.
pub open spec fn type_of_line(t: Seq<char>) -> Option<Seq<char>> {
    if contains(t, "->"@) || contains(t, "-->"@) || starts_with(t, "participant"@) || starts_with(
        t,
        "actor"@,
    ) || starts_with(t, "activate"@) || starts_with(t, "deactivate"@) {
        Some("sequence"@)
    } else if starts_with(t, "class "@) || contains(t, "--|>"@) || contains(t, "--*"@) {
        Some("class"@)
    } else if starts_with(t, "start"@) || (starts_with(t, ":"@) && ends_with(t, ";"@)) {
        Some("activity"@)
    } else if starts_with(t, "state "@) || contains(t, "[*]"@) {
        Some("state"@)
    } else {
        None
    }
}

/// The type given away by the first telling line from index `i` on;
/// `sequence` when no line tells.
pub open spec fn type_of_lines(ls: Seq<Seq<char>>, i: int) -> Seq<char>
    decreases ls.len() - i,
{
    if i < 0 || i >= ls.len() {
        "sequence"@
    } else {
        match type_of_line(trim(ls[i])) {
            Some(t) => t,
            None => type_of_lines(ls, i + 1),
        }
    }
}

fn type_of_line_exec(t: &[char]) -> (r: Option<String>)
    ensures
        match r {
            Some(s) => type_of_line(t@) == Some(s@),
            None => type_of_line(t@) is None,
        },
{
    if contains_str(t, "->") || contains_str(t, "-->") || starts_with_str(t, "participant")
        || starts_with_str(t, "actor") || starts_with_str(t, "activate") || starts_with_str(
        t,
        "deactivate",
    ) {
        Some("sequence".to_owned())
    } else if starts_with_str(t, "class ") || contains_str(t, "--|>") || contains_str(t, "--*") {
        Some("class".to_owned())
    } else if starts_with_str(t, "start") || (starts_with_str(t, ":") && ends_with_str(t, ";")) {
        Some("activity".to_owned())
    } else if starts_with_str(t, "state ") || contains_str(t, "[*]") {
        Some("state".to_owned())
    } else {
        None
    }
}

/// Guesses the diagram type of a source from its lines (see
/// [`type_of_lines`]).
pub fn detect_type(source: &str) -> (r: String)
    ensures
        r@ == type_of_lines(lines(source@), 0),
{
    let c = chars_of(source);
    let ls = split_lines(c.as_slice());
    let ghost lsv = ls.deep_view();
    let mut i: usize = 0;
    while i < ls.len()
        invariant
            i <= ls@.len(),
            lsv == ls.deep_view(),
            lsv == lines(source@),
            type_of_lines(lsv, 0) == type_of_lines(lsv, i as int),
        decreases ls.len() - i,
    {
        proof {
            crate::text::lemma_chars_deep_view(&ls[i as int]);
        }
        assert(lsv[i as int] == ls@[i as int]@);
        let t = trim_chars(ls[i].as_slice());
        match type_of_line_exec(t.as_slice()) {
            Some(s) => {
                return s;
            },
            None => {},
        }
        i = i + 1;
    }
    "sequence".to_owned()
}

} // verus!
