//! State diagrams.
use vstd::prelude::*;

verus! {

#[derive(Debug, Default)]
pub struct StateDiagram {
    pub title: Option<String>,
    pub states: Vec<StateNode>,
    pub transitions: Vec<Transition>,
    pub skinparams: Vec<(String, String)>,
}

#[derive(Debug)]
pub struct StateNode {
    pub name: String,
    pub label: Option<String>,
    pub kind: StateKind,
    /// The inside of a composite state.
    pub body: Vec<StateElement>,
}

#[derive(Debug, Clone, Copy, PartialEq, Eq, Structural)]
pub enum StateKind {
    Normal,
    /// `[*]`: drawn the same whether used as source or target.
    Start,
    /// `<<choice>>`
    Choice,
    /// `<<fork>>`
    Fork,
    /// `<<join>>`
    Join,
}

#[derive(Debug)]
pub enum StateElement {
    SubState(StateNode),
    Transition(Transition),
    Divider,
    Note(StateNote),
}

#[derive(Debug, Clone)]
pub struct Transition {
    pub from: String,
    pub to: String,
    pub label: Option<String>,
}

#[derive(Debug, Clone)]
pub struct StateNote {
    pub position: NotePos,
    pub text: String,
}

#[derive(Debug, Clone, Copy, PartialEq, Eq, Structural)]
pub enum NotePos {
    Left,
    Right,
}

} // verus!
