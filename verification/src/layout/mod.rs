//! Layout logic that decides order and structure: crossing reduction, grid
//! columns, class and state ranks, use-case columns, mind-map branches,
//! Gantt start days, message order, and the structural types (node shapes,
//! edges) of laid-out diagrams. Coordinates are not computed here.
pub mod activity;
pub mod boundary;
pub mod class;
pub mod gantt;
pub mod mindmap;
pub mod state;
pub mod sugiyama;
pub mod usecase;
pub mod sequence;
