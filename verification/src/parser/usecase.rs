//! Helpers of the use-case parser: delimiters and the node table.
use crate::ast::usecase::{NodeKind, UseCaseNode};
use crate::text::{chars_of, eq, slice_of, string_of, trim, trim_chars};
use vstd::prelude::*;

verus! {

/// `s` trimmed, one `open` removed from its start and one `close` from its
/// end where present, trimmed again: `( Login )` gives `Login`.
pub open spec fn spec_strip_delims(s: Seq<char>, open: char, close: char) -> Seq<char> {
    let t = trim(s);
    let a = if t.len() > 0 && t[0] == open {
        t.drop_first()
    } else {
        t
    };
    let b = if a.len() > 0 && a.last() == close {
        a.drop_last()
    } else {
        a
    };
    trim(b)
}

/// See [`spec_strip_delims`].
pub fn strip_delims(s: &str, open: char, close: char) -> (r: String)
    ensures
        r@ == spec_strip_delims(s@, open, close),
{
    let c = chars_of(s);
    let t = trim_chars(c.as_slice());
    let a = if t.len() > 0 && t[0] == open {
        slice_of(t.as_slice(), 1, t.len())
    } else {
        slice_of(t.as_slice(), 0, t.len())
    };
    let b = if a.len() > 0 && a[a.len() - 1] == close {
        slice_of(a.as_slice(), 0, a.len() - 1)
    } else {
        slice_of(a.as_slice(), 0, a.len())
    };
    proof {
        assert(t@.subrange(0, t@.len() as int) =~= t@);
        assert(a@.subrange(0, a@.len() as int) =~= a@);
    }
    let r = trim_chars(b.as_slice());
    string_of(r.as_slice())
}

/// The first index of a node called `name`.
pub open spec fn node_index(nodes: Seq<UseCaseNode>, name: Seq<char>, i: int) -> Option<int>
    decreases nodes.len() - i,
{
    if i < 0 || i >= nodes.len() {
        None
    } else if nodes[i].name@ == name {
        Some(i)
    } else {
        node_index(nodes, name, i + 1)
    }
}

fn find_node(nodes: &Vec<UseCaseNode>, name: &[char]) -> (r: Option<usize>)
    ensures
        match r {
            Some(i) => node_index(nodes@, name@, 0) == Some(i as int) && i < nodes@.len(),
            None => node_index(nodes@, name@, 0) is None,
        },
{
    let mut i: usize = 0;
    while i < nodes.len()
        invariant
            i <= nodes@.len(),
            node_index(nodes@, name@, 0) == node_index(nodes@, name@, i as int),
        decreases nodes.len() - i,
    {
        let c = chars_of(nodes[i].name.as_str());
        if eq(c.as_slice(), name) {
            return Some(i);
        }
        i = i + 1;
    }
    None
}

/// Adds `node`; if a node of that name exists, it only takes the label and
/// the stereotype of `node` where it has none of its own.
pub fn ensure_node(nodes: &mut Vec<UseCaseNode>, node: UseCaseNode)
    ensures
        match node_index(old(nodes)@, node.name@, 0) {
            Some(i) => final(nodes)@ == old(nodes)@.update(
                i,
                UseCaseNode {
                    label: if old(nodes)@[i].label is None {
                        node.label
                    } else {
                        old(nodes)@[i].label
                    },
                    stereotype: if old(nodes)@[i].stereotype is None {
                        node.stereotype
                    } else {
                        old(nodes)@[i].stereotype
                    },
                    ..old(nodes)@[i]
                },
            ),
            None => final(nodes)@ == old(nodes)@.push(node),
        },
{
    let n = chars_of(node.name.as_str());
    match find_node(nodes, n.as_slice()) {
        Some(i) => {
            let existing = &mut nodes[i];
            if existing.label.is_none() {
                existing.label = node.label;
            }
            if existing.stereotype.is_none() {
                existing.stereotype = node.stereotype;
            }
        },
        None => {
            nodes.push(node);
        },
    }
}

/// `new` is `nodes` after inferring a node called `name` of kind `kind`:
/// nothing happens for an empty name or a name already present, otherwise
/// a bare node is appended.
pub open spec fn inferred(nodes: Seq<UseCaseNode>, new: Seq<UseCaseNode>, name: Seq<char>, kind: NodeKind) -> bool {
    if name.len() == 0 || node_index(nodes, name, 0) is Some {
        new == nodes
    } else {
        &&& new.len() == nodes.len() + 1
        &&& new.drop_last() == nodes
        &&& new.last().name@ == name
        &&& new.last().label is None
        &&& new.last().kind == kind
        &&& new.last().stereotype is None
    }
}

/// Adds a bare node for a name met in an association, unless the name is
/// empty or already known (see [`inferred`]).
pub fn ensure_inferred(nodes: &mut Vec<UseCaseNode>, name: &str, kind: NodeKind)
    ensures
        inferred(old(nodes)@, final(nodes)@, name@, kind),
{
    let n = chars_of(name);
    if n.len() == 0 {
        return;
    }
    match find_node(nodes, n.as_slice()) {
        Some(_) => {},
        None => {
            let ghost before = nodes@;
            nodes.push(UseCaseNode { name: string_of(n.as_slice()), label: None, kind, stereotype: None });
            assert(nodes@.drop_last() =~= before);
        },
    }
}

proof fn lemma_node_index_found(nodes: Seq<UseCaseNode>, name: Seq<char>, i: int, j: int)
    requires
        0 <= i <= j < nodes.len(),
        nodes[j].name@ == name,
    ensures
        node_index(nodes, name, i) is Some,
    decreases j - i,
{
    if nodes[i].name@ != name {
        lemma_node_index_found(nodes, name, i + 1, j);
    }
}

/// Inferring the same node twice changes nothing the second time.
pub proof fn law_inferring_twice_is_inferring_once(
    nodes: Seq<UseCaseNode>,
    mid: Seq<UseCaseNode>,
    new: Seq<UseCaseNode>,
    name: Seq<char>,
    kind: NodeKind,
)
    requires
        inferred(nodes, mid, name, kind),
        inferred(mid, new, name, kind),
    ensures
        new == mid,
{
    if !(name.len() == 0 || node_index(nodes, name, 0) is Some) {
        lemma_node_index_found(mid, name, 0, mid.len() - 1);
    }
}

} // verus!
