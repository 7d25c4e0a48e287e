//! Gantt charts.
use vstd::prelude::*;

verus! {

#[derive(Debug, Clone)]
pub struct GanttTask {
    pub name: String,
    /// Length in days.
    pub duration: u32,
    pub milestone: bool,
    /// Start after the named task's end.
    pub depends_on: Option<String>,
    /// Explicit start day; wins over `depends_on`.
    pub fixed_start: Option<u32>,
}

#[derive(Debug, Clone, Default)]
pub struct GanttDiagram {
    pub title: Option<String>,
    pub tasks: Vec<GanttTask>,
    pub skinparams: Vec<(String, String)>,
}

impl GanttTask {
    /// A one-day task with no constraint on when it starts.
    pub fn new(name: String) -> (t: Self)
        ensures
            t.name == name,
            t.duration == 1,
            !t.milestone,
            t.depends_on is None,
            t.fixed_start is None,
    {
        GanttTask { name, duration: 1, milestone: false, depends_on: None, fixed_start: None }
    }
}

} // verus!
