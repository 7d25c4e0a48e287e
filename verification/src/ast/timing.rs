//! Timing diagrams.
use vstd::prelude::*;

verus! {

#[derive(Debug, Clone, Copy, PartialEq, Eq, Structural)]
pub enum LaneKind {
    /// State label shown at each segment.
    Robust,
    /// Label once per state span.
    Concise,
    /// Pulse train.
    Clock,
    /// Two-level waveform.
    Binary,
}

#[derive(Debug, Clone)]
pub struct Lane {
    /// Identifier used by `is` statements.
    pub name: String,
    pub label: Option<String>,
    pub kind: LaneKind,
}

/// At time `time` lane `lane` enters state `state`.
#[derive(Debug, Clone)]
pub struct Event {
    pub time: u64,
    pub lane: String,
    pub state: String,
}

#[derive(Debug, Clone, Default)]
pub struct TimingDiagram {
    pub title: Option<String>,
    pub lanes: Vec<Lane>,
    pub events: Vec<Event>,
    pub skinparams: Vec<(String, String)>,
}

} // verus!
