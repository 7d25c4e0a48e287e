//! Helpers of the Gantt parser: task names and the task table.
use crate::ast::gantt::GanttTask;
use crate::text::{chars_of, eq, slice_of, string_of, trim, trim_chars};
use vstd::prelude::*;

verus! {

/// A task reference without its brackets: `[Design]` gives `Design`.
pub open spec fn spec_task_name(raw: Seq<char>) -> Seq<char> {
    let t = trim(raw);
    let a = if t.len() > 0 && t[0] == '[' {
        t.drop_first()
    } else {
        t
    };
    let b = if a.len() > 0 && a.last() == ']' {
        a.drop_last()
    } else {
        a
    };
    trim(b)
}

/// See [`spec_task_name`].
pub fn task_name(raw: &str) -> (r: String)
    ensures
        r@ == spec_task_name(raw@),
{
    let c = chars_of(raw);
    let t = trim_chars(c.as_slice());
    let a = if t.len() > 0 && t[0] == '[' {
        slice_of(t.as_slice(), 1, t.len())
    } else {
        slice_of(t.as_slice(), 0, t.len())
    };
    let b = if a.len() > 0 && a[a.len() - 1] == ']' {
        slice_of(a.as_slice(), 0, a.len() - 1)
    } else {
        slice_of(a.as_slice(), 0, a.len())
    };
    proof {
        assert(t@.subrange(0, t@.len() as int) =~= t@);
        assert(a@.subrange(0, a@.len() as int) =~= a@);
    }
    let r = trim_chars(b.as_slice());
    string_of(r.as_slice())
}

/// The first index of a task called `name`.
pub open spec fn task_index(tasks: Seq<GanttTask>, name: Seq<char>, i: int) -> Option<int>
    decreases tasks.len() - i,
{
    if i < 0 || i >= tasks.len() {
        None
    } else if tasks[i].name@ == name {
        Some(i)
    } else {
        task_index(tasks, name, i + 1)
    }
}

/// Applies `f` to the task called `name`, first adding a new one-day task
/// of that name when there is none.
pub fn update_task<F: FnOnce(GanttTask) -> GanttTask>(tasks: &mut Vec<GanttTask>, name: &str, f: F)
    requires
        forall|t: GanttTask| f.requires((t,)),
    ensures
        match task_index(old(tasks)@, name@, 0) {
            Some(i) => final(tasks)@.len() == old(tasks)@.len() && forall|j: int|
                0 <= j < old(tasks)@.len() && j != i ==> final(tasks)@[j] == old(tasks)@[j],
            None => final(tasks)@.len() == old(tasks)@.len() + 1 && final(tasks)@.drop_last() == old(
                tasks,
            )@,
        },
        match task_index(old(tasks)@, name@, 0) {
            Some(i) => f.ensures((old(tasks)@[i],), final(tasks)@[i]),
            None => exists|t: GanttTask|
                t.name@ == name@ && t.duration == 1 && !t.milestone && t.depends_on is None
                    && t.fixed_start is None && f.ensures((t,), final(tasks)@.last()),
        },
{
    let n = chars_of(name);
    let mut i: usize = 0;
    while i < tasks.len()
        invariant
            i <= tasks@.len(),
            n@ == name@,
            tasks@ == old(tasks)@,
            forall|t: GanttTask| f.requires((t,)),
            task_index(tasks@, name@, 0) == task_index(tasks@, name@, i as int),
        decreases tasks.len() - i,
    {
        let c = chars_of(tasks[i].name.as_str());
        if eq(c.as_slice(), n.as_slice()) {
            let mut current = GanttTask::new(String::new());
            std::mem::swap(&mut tasks[i], &mut current);
            let updated = f(current);
            tasks.set(i, updated);
            return;
        }
        i = i + 1;
    }
    let t = GanttTask::new(string_of(n.as_slice()));
    let updated = f(t);
    let ghost before = tasks@;
    tasks.push(updated);
    assert(tasks@.drop_last() =~= before);
}

} // verus!
