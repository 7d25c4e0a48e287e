//! The syntax trees produced by the diagram parsers.
pub mod activity;
pub mod class;
pub mod gantt;
pub mod mindmap;
pub mod sequence;
pub mod state;
pub mod timing;
pub mod usecase;

use vstd::prelude::*;
pub use class::ClassDiagram;
pub use sequence::SequenceDiagram;

verus! {

/// A parsed diagram of one of the kinds the front end dispatches on.
#[derive(Debug)]
pub enum DiagramAst {
    Sequence(SequenceDiagram),
    Class(ClassDiagram),
}

} // verus!
