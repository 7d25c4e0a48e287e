//! Activity diagrams: a tree of steps, branches and loops.
use vstd::prelude::*;

verus! {

/// One step of an activity flow.
#[derive(Debug)]
pub enum ActivityElement {
    Start,
    Stop,
    End,
    Action(Action),
    If(IfBlock),
    While(WhileBlock),
    Repeat(RepeatBlock),
    Fork(ForkBlock),
    Partition(Partition),
    Note(ActivityNote),
    /// `:label;` with no action: a named anchor.
    Label(String),
    /// `->` with an optional label.
    Arrow(Option<String>),
    Detach,
    Kill,
}

#[derive(Debug, Clone)]
pub struct Action {
    pub label: String,
    pub color: Option<String>,
}

#[derive(Debug)]
pub struct IfBlock {
    pub condition: String,
    pub then_label: Option<String>,
    pub then_body: Vec<ActivityElement>,
    pub elseif_branches: Vec<ElseIfBranch>,
    pub else_label: Option<String>,
    pub else_body: Vec<ActivityElement>,
}

#[derive(Debug)]
pub struct ElseIfBranch {
    pub condition: String,
    pub label: Option<String>,
    pub body: Vec<ActivityElement>,
}

#[derive(Debug)]
pub struct WhileBlock {
    pub condition: String,
    pub exit_label: Option<String>,
    pub body: Vec<ActivityElement>,
}

#[derive(Debug)]
pub struct RepeatBlock {
    pub body: Vec<ActivityElement>,
    pub condition: String,
    pub label: Option<String>,
}

#[derive(Debug)]
pub struct ForkBlock {
    pub branches: Vec<Vec<ActivityElement>>,
    /// `true` for fork/join, `false` for fork/end merge.
    pub join: bool,
}

#[derive(Debug)]
pub struct Partition {
    pub name: String,
    pub body: Vec<ActivityElement>,
}

#[derive(Debug, Clone)]
pub struct ActivityNote {
    pub text: String,
    pub position: NotePos,
}

#[derive(Debug, Clone, Copy, PartialEq, Eq, Structural)]
pub enum NotePos {
    Left,
    Right,
}

#[derive(Debug, Default)]
pub struct ActivityDiagram {
    pub title: Option<String>,
    pub elements: Vec<ActivityElement>,
}

} // verus!
