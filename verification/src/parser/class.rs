//! Helpers of the class-diagram parser: quoting, implicit classes and the
//! arrow table.
use crate::ast::class::{ClassKind, ClassNode, RelationKind};
use crate::text::{chars_of, eq, eq_str, slice_of, string_of, trim, trim_chars};
use vstd::prelude::*;

verus! {

/// `s` trimmed, without the double quotes around it if it has them.
pub open spec fn spec_unquote_trimmed(s: Seq<char>) -> Seq<char> {
    let t = trim(s);
    if t.len() > 0 && t[0] == '"' && t.last() == '"' {
        t.subrange(1, t.len() - 1)
    } else {
        t
    }
}

/// See [`spec_unquote_trimmed`]. A lone `"` is no quoted text.
pub fn unquote(s: &str) -> (r: String)
    requires
        trim(s@) != seq!['"'],
    ensures
        r@ == spec_unquote_trimmed(s@),
{
    let c = chars_of(s);
    let t = trim_chars(c.as_slice());
    if t.len() > 0 && t[0] == '"' && t[t.len() - 1] == '"' {
        assert(t.len() >= 2) by {
            if t.len() == 1 {
                assert(t@ =~= seq!['"']);
            }
        }
        let inner = slice_of(t.as_slice(), 1, t.len() - 1);
        string_of(inner.as_slice())
    } else {
        string_of(t.as_slice())
    }
}

/// A class with only a name: kind `Class`, nothing else set.
pub open spec fn implicit_class(name: Seq<char>, node: ClassNode) -> bool {
    &&& node.name@ == name
    &&& node.alias is None
    &&& node.generics is None
    &&& node.kind == ClassKind::Class
    &&& node.stereotype is None
    &&& node.color is None
    &&& node.members@.len() == 0
    &&& node.namespace is None
}

pub open spec fn has_class(classes: Seq<ClassNode>, name: Seq<char>) -> bool {
    exists|i: int| 0 <= i < classes.len() && (#[trigger] classes[i]).name@ == name
}

/// Adds a bare class called `name` unless a class of that name exists.
pub fn ensure_class(classes: &mut Vec<ClassNode>, name: &str)
    ensures
        has_class(old(classes)@, name@) ==> final(classes)@ == old(classes)@,
        !has_class(old(classes)@, name@) ==> final(classes)@.len() == old(classes)@.len() + 1
            && final(classes)@.drop_last() == old(classes)@ && implicit_class(
            name@,
            final(classes)@.last(),
        ),
        has_class(final(classes)@, name@),
{
    let n = chars_of(name);
    let mut i: usize = 0;
    while i < classes.len()
        invariant
            i <= classes@.len(),
            n@ == name@,
            classes@ == old(classes)@,
            forall|j: int| 0 <= j < i ==> (#[trigger] classes@[j]).name@ != name@,
        decreases classes.len() - i,
    {
        let c = chars_of(classes[i].name.as_str());
        if eq(c.as_slice(), n.as_slice()) {
            return;
        }
        i = i + 1;
    }
    let ghost before = classes@;
    classes.push(
        ClassNode {
            name: string_of(n.as_slice()),
            alias: None,
            generics: None,
            kind: ClassKind::Class,
            stereotype: None,
            color: None,
            members: Vec::new(),
            namespace: None,
        },
    );
    assert(classes@.drop_last() =~= before);
    assert(classes@[classes@.len() - 1].name@ == name@);
}

/// The relation an arrow spells, and whether it points backwards (the
/// arrow head at the left end).
pub open spec fn spec_parse_arrow(s: Seq<char>) -> (RelationKind, bool) {
    if s == "--|>"@ || s == "-|>"@ {
        (RelationKind::Extension, false)
    } else if s == "<|--"@ || s == "<|-"@ {
        (RelationKind::Extension, true)
    } else if s == "..|>"@ || s == ".|>"@ {
        (RelationKind::Implementation, false)
    } else if s == "<|.."@ || s == "<|."@ {
        (RelationKind::Implementation, true)
    } else if s == "--*"@ || s == "-*"@ {
        (RelationKind::Composition, false)
    } else if s == "*--"@ || s == "*-"@ {
        (RelationKind::Composition, true)
    } else if s == "--o"@ || s == "-o"@ {
        (RelationKind::Aggregation, false)
    } else if s == "o--"@ || s == "o-"@ {
        (RelationKind::Aggregation, true)
    } else if s == "-->"@ || s == "->"@ {
        (RelationKind::Dependency, false)
    } else if s == "<--"@ || s == "<-"@ {
        (RelationKind::Dependency, true)
    } else if s == "..>"@ || s == ".>"@ {
        (RelationKind::DashedLink, false)
    } else if s == "<.."@ || s == "<."@ {
        (RelationKind::DashedLink, true)
    } else if s == ".."@ {
        (RelationKind::DashedLink, false)
    } else {
        (RelationKind::Association, false)
    }
}

/// See [`spec_parse_arrow`]; an unknown arrow is a plain association.
pub fn parse_arrow(s: &str) -> (r: (RelationKind, bool))
    ensures
        r == spec_parse_arrow(s@),
{
    let c = chars_of(s);
    let c = c.as_slice();
    if eq_str(c, "--|>") || eq_str(c, "-|>") {
        (RelationKind::Extension, false)
    } else if eq_str(c, "<|--") || eq_str(c, "<|-") {
        (RelationKind::Extension, true)
    } else if eq_str(c, "..|>") || eq_str(c, ".|>") {
        (RelationKind::Implementation, false)
    } else if eq_str(c, "<|..") || eq_str(c, "<|.") {
        (RelationKind::Implementation, true)
    } else if eq_str(c, "--*") || eq_str(c, "-*") {
        (RelationKind::Composition, false)
    } else if eq_str(c, "*--") || eq_str(c, "*-") {
        (RelationKind::Composition, true)
    } else if eq_str(c, "--o") || eq_str(c, "-o") {
        (RelationKind::Aggregation, false)
    } else if eq_str(c, "o--") || eq_str(c, "o-") {
        (RelationKind::Aggregation, true)
    } else if eq_str(c, "-->") || eq_str(c, "->") {
        (RelationKind::Dependency, false)
    } else if eq_str(c, "<--") || eq_str(c, "<-") {
        (RelationKind::Dependency, true)
    } else if eq_str(c, "..>") || eq_str(c, ".>") {
        (RelationKind::DashedLink, false)
    } else if eq_str(c, "<..") || eq_str(c, "<.") {
        (RelationKind::DashedLink, true)
    } else if eq_str(c, "..") {
        (RelationKind::DashedLink, false)
    } else {
        (RelationKind::Association, false)
    }
}

} // verus!
