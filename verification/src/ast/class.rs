//! Class (and component / deployment) diagrams.
use vstd::prelude::*;

verus! {

#[derive(Debug, Clone, Copy, PartialEq, Eq, Structural)]
pub enum ClassKind {
    Class,
    Abstract,
    Interface,
    Enum,
    Annotation,
    /// `object Foo { ... }`: instance style, name underlined.
    Object,
    /// `component Foo`: box with two port tabs.
    Component,
    /// Deployment containers: laid out like classes, drawn as other shapes.
    Node,
    Cloud,
    Database,
    Folder,
    Frame,
    Rectangle,
    Artifact,
    Queue,
}

#[derive(Debug, Clone, Copy, PartialEq, Eq, Structural)]
pub enum Visibility {
    /// `+`
    Public,
    /// `-`
    Private,
    /// `#`
    Protected,
    /// `~`
    Package,
    /// No visibility marker.
    Unmarked,
}

#[derive(Debug, Clone)]
pub struct Member {
    pub visibility: Visibility,
    pub name: String,
    pub type_annotation: Option<String>,
    pub is_static: bool,
    pub is_abstract: bool,
    pub is_method: bool,
    pub params: Option<String>,
}

#[derive(Debug, Clone)]
pub struct ClassNode {
    pub name: String,
    /// Alias from `class "Foo" as F`: relations may name the node by either
    /// `name` or `alias`.
    pub alias: Option<String>,
    pub generics: Option<String>,
    pub kind: ClassKind,
    pub stereotype: Option<String>,
    pub color: Option<String>,
    pub members: Vec<Member>,
    pub namespace: Option<String>,
}

#[derive(Debug, Clone, Copy, PartialEq, Eq, Structural)]
pub enum NotePosition {
    Left,
    Right,
    Top,
    Bottom,
}

#[derive(Debug, Clone)]
pub struct ClassNote {
    pub position: NotePosition,
    pub target: String,
    pub lines: Vec<String>,
}

#[derive(Debug, Clone, Copy, PartialEq, Eq, Structural)]
pub enum RelationKind {
    Extension,
    Implementation,
    Composition,
    Aggregation,
    Association,
    Dependency,
    DashedLink,
    Realization,
}

#[derive(Debug, Clone)]
pub struct Relation {
    pub from: String,
    pub to: String,
    pub kind: RelationKind,
    pub from_label: Option<String>,
    pub to_label: Option<String>,
    pub label: Option<String>,
    pub reversed: bool,
}

/// A labelled rectangle drawn around a set of classes after layout; it does
/// not influence where the classes go.
#[derive(Debug, Clone)]
pub struct Boundary {
    pub alias: String,
    pub label: String,
    pub kind: String,
    pub members: Vec<String>,
}

#[derive(Debug, Clone, Default)]
pub struct ClassDiagram {
    pub title: Option<String>,
    pub classes: Vec<ClassNode>,
    pub relations: Vec<Relation>,
    pub notes: Vec<ClassNote>,
    pub hide_empty_members: bool,
    pub skinparams: Vec<(String, String)>,
    /// Set for diagrams that came from a C4 source: they read top-down from
    /// caller to callee, so rank propagation flips for dependency edges.
    pub c4_mode: bool,
    pub boundaries: Vec<Boundary>,
}

} // verus!
