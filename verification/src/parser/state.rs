//! Helpers of the state-diagram parser: stereotypes and implicit states.
use crate::ast::state::{StateDiagram, StateKind, StateNode, Transition};
use crate::text::{chars_of, eq, eq_str, string_of, to_lowercase, unicode_lowercase};
use vstd::prelude::*;

verus! {

/// The state kind a lowercased stereotype names.
pub open spec fn kind_of_lower_stereotype(lower: Seq<char>) -> Option<StateKind> {
    if lower == "choice"@ {
        Some(StateKind::Choice)
    } else if lower == "fork"@ {
        Some(StateKind::Fork)
    } else if lower == "join"@ {
        Some(StateKind::Join)
    } else {
        None
    }
}

/// The state kind of an already lowercased stereotype (see
/// [`kind_of_lower_stereotype`]).
pub fn kind_of_lowercase_stereotype(lower: &str) -> (r: Option<StateKind>)
    ensures
        r == kind_of_lower_stereotype(lower@),
{
    let c = chars_of(lower);
    if eq_str(c.as_slice(), "choice") {
        Some(StateKind::Choice)
    } else if eq_str(c.as_slice(), "fork") {
        Some(StateKind::Fork)
    } else if eq_str(c.as_slice(), "join") {
        Some(StateKind::Join)
    } else {
        None
    }
}

/// The state kind a stereotype names, in any letter case: `choice`,
/// `fork` or `join`.
pub fn stereotype_to_kind(stereo: &str) -> (r: Option<StateKind>)
    ensures
        r == kind_of_lower_stereotype(unicode_lowercase(stereo@)),
{
    let lower = to_lowercase(stereo);
    kind_of_lowercase_stereotype(lower.as_str())
}

pub open spec fn has_state(states: Seq<StateNode>, name: Seq<char>) -> bool {
    exists|i: int| 0 <= i < states.len() && (#[trigger] states[i]).name@ == name
}

/// A state met only as the end of a transition: `[*]` is the start (or
/// end) state, any other name a normal state; no label, empty inside.
pub open spec fn implicit_state(name: Seq<char>, node: StateNode) -> bool {
    &&& node.name@ == name
    &&& node.label is None
    &&& node.kind == (if name == "[*]"@ {
        StateKind::Start
    } else {
        StateKind::Normal
    })
    &&& node.body@.len() == 0
}

/// Adds an implicit state called `name` unless a state of that name exists.
pub fn ensure_state_by_name(states: &mut Vec<StateNode>, name: &str)
    ensures
        has_state(old(states)@, name@) ==> final(states)@ == old(states)@,
        !has_state(old(states)@, name@) ==> final(states)@.drop_last() == old(states)@
            && final(states)@.len() == old(states)@.len() + 1 && implicit_state(
            name@,
            final(states)@.last(),
        ),
        has_state(final(states)@, name@),
{
    let n = chars_of(name);
    let mut i: usize = 0;
    while i < states.len()
        invariant
            i <= states@.len(),
            n@ == name@,
            states@ == old(states)@,
            forall|j: int| 0 <= j < i ==> (#[trigger] states@[j]).name@ != name@,
        decreases states.len() - i,
    {
        let c = chars_of(states[i].name.as_str());
        if eq(c.as_slice(), n.as_slice()) {
            return;
        }
        i = i + 1;
    }
    let kind = if eq_str(n.as_slice(), "[*]") {
        StateKind::Start
    } else {
        StateKind::Normal
    };
    let ghost before = states@;
    states.push(StateNode { name: string_of(n.as_slice()), label: None, kind, body: Vec::new() });
    assert(states@.drop_last() =~= before);
    assert(states@[states@.len() - 1].name@ == name@);
}

/// `new` is `old` after making sure a state called `name` exists.
pub open spec fn ensured_state(old: Seq<StateNode>, new: Seq<StateNode>, name: Seq<char>) -> bool {
    if has_state(old, name) {
        new == old
    } else {
        new.drop_last() == old && new.len() == old.len() + 1 && implicit_state(name, new.last())
    }
}

/// Makes sure both ends of `t` are states, the source first.
pub fn ensure_states(diagram: &mut StateDiagram, t: &Transition)
    ensures
        exists|mid: Seq<StateNode>|
            ensured_state(old(diagram).states@, mid, t.from@) && ensured_state(
                mid,
                final(diagram).states@,
                t.to@,
            ),
        final(diagram).title == old(diagram).title,
        final(diagram).transitions == old(diagram).transitions,
        final(diagram).skinparams == old(diagram).skinparams,
{
    ensure_state_by_name(&mut diagram.states, t.from.as_str());
    let ghost mid = diagram.states@;
    ensure_state_by_name(&mut diagram.states, t.to.as_str());
    assert(ensured_state(mid, diagram.states@, t.to@));
}

/// The first index of a state called `name`.
pub open spec fn state_index(states: Seq<StateNode>, name: Seq<char>, i: int) -> Option<int>
    decreases states.len() - i,
{
    if i < 0 || i >= states.len() {
        None
    } else if states[i].name@ == name {
        Some(i)
    } else {
        state_index(states, name, i + 1)
    }
}

/// Adds the declared state `node`; if a state of that name exists, it takes
/// the body of `node`, and its label unless it already has one.
pub fn ensure_state_node(states: &mut Vec<StateNode>, node: StateNode)
    ensures
        match state_index(old(states)@, node.name@, 0) {
            Some(i) => final(states)@ == old(states)@.update(
                i,
                StateNode {
                    name: old(states)@[i].name,
                    label: if old(states)@[i].label is Some {
                        old(states)@[i].label
                    } else {
                        node.label
                    },
                    kind: old(states)@[i].kind,
                    body: node.body,
                },
            ),
            None => final(states)@ == old(states)@.push(node),
        },
{
    let n = chars_of(node.name.as_str());
    let mut i: usize = 0;
    while i < states.len()
        invariant
            i <= states@.len(),
            n@ == node.name@,
            states@ == old(states)@,
            state_index(states@, node.name@, 0) == state_index(states@, node.name@, i as int),
        decreases states.len() - i,
    {
        let c = chars_of(states[i].name.as_str());
        if eq(c.as_slice(), n.as_slice()) {
            let existing = &mut states[i];
            existing.body = node.body;
            if existing.label.is_none() {
                existing.label = node.label;
            }
            return;
        }
        i = i + 1;
    }
    states.push(node);
}

} // verus!
