//! Sequence diagrams.
use vstd::prelude::*;

verus! {

#[derive(Debug, Clone, Copy, PartialEq, Eq, Structural)]
pub enum ParticipantKind {
    Participant,
    Actor,
    Boundary,
    Control,
    Entity,
    Database,
    Collections,
    Queue,
}

#[derive(Debug, Clone)]
pub struct Participant {
    pub name: String,
    pub alias: Option<String>,
    pub kind: ParticipantKind,
    pub color: Option<String>,
}

#[derive(Debug, Clone, Copy, PartialEq, Eq, Structural)]
pub enum ArrowStyle {
    /// `->`
    Solid,
    /// `-->`
    Dashed,
    /// `->>`
    SolidThick,
    /// `-->>`
    DashedThick,
    /// `->)` or `-\`
    SolidNoHead,
    /// `->x`
    Lost,
    /// `->>` pointing right
    Async,
}

#[derive(Debug, Clone)]
pub struct Message {
    pub from: String,
    pub to: String,
    pub label: String,
    pub arrow: ArrowStyle,
    pub activate: bool,
    pub deactivate: bool,
    pub return_msg: bool,
}

#[derive(Debug, Clone, Copy, PartialEq, Eq, Structural)]
pub enum NotePosition {
    Left,
    Right,
    Over,
}

#[derive(Debug, Clone)]
pub struct Note {
    pub position: NotePosition,
    pub participants: Vec<String>,
    pub lines: Vec<String>,
}

#[derive(Debug)]
pub struct GroupBlock {
    pub kind: String,
    pub label: String,
    pub sections: Vec<(Option<String>, Vec<SequenceElement>)>,
}

#[derive(Debug, Clone)]
pub struct Divider {
    pub label: String,
}

#[derive(Debug)]
pub enum SequenceElement {
    Message(Message),
    Note(Note),
    Group(GroupBlock),
    Divider(Divider),
    Activate(String),
    Deactivate(String),
    Delay(String),
    Space(u32),
    Autonumber(Option<u32>),
}

#[derive(Debug, Default)]
pub struct SequenceDiagram {
    pub title: Option<String>,
    pub participants: Vec<Participant>,
    pub elements: Vec<SequenceElement>,
    pub hide_footbox: bool,
    pub skinparams: Vec<(String, String)>,
}

impl SequenceDiagram {
    /// An empty diagram: no title, participants, elements or skin
    /// parameters, and the foot box shown.
    pub fn new() -> (d: Self)
        ensures
            d.title is None,
            d.participants@.len() == 0,
            d.elements@.len() == 0,
            !d.hide_footbox,
            d.skinparams@.len() == 0,
    {
        SequenceDiagram {
            title: None,
            participants: Vec::new(),
            elements: Vec::new(),
            hide_footbox: false,
            skinparams: Vec::new(),
        }
    }

    /// The participants in the order they appear (declared or first used).
    pub fn ordered_participants(&self) -> (r: Vec<&Participant>)
        ensures
            r@.len() == self.participants@.len(),
            forall|i: int| 0 <= i < r@.len() ==> *r@[i] == self.participants@[i],
    {
        let mut r: Vec<&Participant> = Vec::new();
        let mut i: usize = 0;
        while i < self.participants.len()
            invariant
                i <= self.participants@.len(),
                r@.len() == i,
                forall|j: int| 0 <= j < i ==> *r@[j] == self.participants@[j],
            decreases self.participants.len() - i,
        {
            r.push(&self.participants[i]);
            i = i + 1;
        }
        r
    }
}

} // verus!
