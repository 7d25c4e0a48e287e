//! Activity layout: the node shapes and the edges between laid-out nodes.
use vstd::prelude::*;

verus! {

/// How a laid-out activity node is drawn.
#[derive(Debug, Clone, Copy, PartialEq, Eq, Structural)]
pub enum Shape {
    /// Filled circle.
    StartEnd,
    /// Rounded rectangle.
    Action,
    /// Diamond.
    Decision,
    /// Thick horizontal bar (fork or join).
    MergeBar,
    Note,
    Arrow,
}

/// An edge between two laid-out nodes, by their ids.
#[derive(Debug, Clone)]
pub struct LayoutEdge {
    pub from: usize,
    pub to: usize,
    pub label: Option<String>,
    pub dashed: bool,
}

} // verus!
