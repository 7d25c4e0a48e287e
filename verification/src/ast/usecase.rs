//! Use-case diagrams.
use vstd::prelude::*;

verus! {

#[derive(Debug, Clone, Copy, PartialEq, Eq, Structural)]
pub enum NodeKind {
    /// Drawn as a stick figure.
    Actor,
    /// Drawn as an ellipse.
    UseCase,
}

#[derive(Debug, Clone)]
pub struct UseCaseNode {
    /// Identifier that associations refer to.
    pub name: String,
    /// Display text, where it differs from the name.
    pub label: Option<String>,
    pub kind: NodeKind,
    pub stereotype: Option<String>,
}

#[derive(Debug, Clone, Copy, PartialEq, Eq, Structural)]
pub enum AssocKind {
    /// `->`, `-->`, `--`
    Solid,
    /// `..>`, `..`
    Dashed,
}

#[derive(Debug, Clone)]
pub struct Association {
    pub from: String,
    pub to: String,
    pub label: Option<String>,
    pub kind: AssocKind,
}

#[derive(Debug, Clone, Default)]
pub struct UseCaseDiagram {
    pub title: Option<String>,
    pub nodes: Vec<UseCaseNode>,
    pub associations: Vec<Association>,
    pub skinparams: Vec<(String, String)>,
}

} // verus!
