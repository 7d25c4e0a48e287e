//! Mind maps.
use vstd::prelude::*;

verus! {

#[derive(Debug, Clone, Copy, PartialEq, Eq, Structural)]
pub enum Side {
    /// The renderer picks the side that balances the map.
    Auto,
    /// `+` prefix: right of the root.
    Right,
    /// `-` prefix: left of the root.
    Left,
}

#[derive(Debug, Clone)]
pub struct MindMapNode {
    pub label: String,
    /// 1 is the root.
    pub depth: usize,
    pub side: Side,
    pub color: Option<String>,
}

#[derive(Debug, Clone, Default)]
pub struct MindMapDiagram {
    pub title: Option<String>,
    /// Flat list in source order; the tree follows from the depths.
    pub nodes: Vec<MindMapNode>,
    pub skinparams: Vec<(String, String)>,
}

} // verus!
