//! Gantt layout: the day each task starts, the last day of the chart, and
//! the spacing of the day axis.
use crate::ast::gantt::GanttTask;
use crate::text::{chars_of, eq};
use vstd::prelude::*;

verus! {

/// The start days that are known outright, over the first `k` tasks: a
/// fixed start day, or day 0 for a task that depends on nothing; a later
/// task with the same name overrides an earlier one.
pub open spec fn initial_starts(ts: Seq<GanttTask>, k: int) -> Map<Seq<char>, int>
    decreases k,
{
    if k <= 0 {
        Map::empty()
    } else {
        let m = initial_starts(ts, k - 1);
        let t = ts[k - 1];
        match t.fixed_start {
            Some(s) => m.insert(t.name@, s as int),
            None => if t.depends_on is None {
                m.insert(t.name@, 0)
            } else {
                m
            },
        }
    }
}

/// The first task, from position `j` on, named `name`.
pub open spec fn first_named(ts: Seq<GanttTask>, name: Seq<char>, j: int) -> Option<int>
    decreases ts.len() - j,
{
    if j < 0 || j >= ts.len() {
        None
    } else if ts[j].name@ == name {
        Some(j)
    } else {
        first_named(ts, name, j + 1)
    }
}

/// One pass over the first `k` tasks, from the start days `m`: a task with
/// no start day yet that depends on a task (the first of that name) that
/// has one starts when that task ends. The start days found during a pass
/// are seen by the tasks after them; the flag says whether any was found.
pub open spec fn pass_prefix(ts: Seq<GanttTask>, m: Map<Seq<char>, int>, k: int) -> (Map<Seq<char>, int>, bool)
    decreases k,
{
    if k <= 0 {
        (m, false)
    } else {
        let (cur, progress) = pass_prefix(ts, m, k - 1);
        let t = ts[k - 1];
        if cur.contains_key(t.name@) {
            (cur, progress)
        } else {
            match t.depends_on {
                None => (cur, progress),
                Some(dep) => match first_named(ts, dep@, 0) {
                    None => (cur, progress),
                    Some(j) => if cur.contains_key(ts[j].name@) {
                        (cur.insert(t.name@, cur[ts[j].name@] + ts[j].duration), true)
                    } else {
                        (cur, progress)
                    },
                },
            }
        }
    }
}

/// At most `n` passes, stopping after one that finds nothing.
pub open spec fn passes(ts: Seq<GanttTask>, m: Map<Seq<char>, int>, n: nat) -> Map<Seq<char>, int>
    decreases n,
{
    if n == 0 {
        m
    } else {
        let (next, progress) = pass_prefix(ts, m, ts.len() as int);
        if progress {
            passes(ts, next, (n - 1) as nat)
        } else {
            next
        }
    }
}

/// The start day of task `i`: the known start days, then at most eight
/// passes resolving dependencies; a task still without one (a cycle, or a
/// dependency on no task) starts on day 0.
pub open spec fn spec_task_start(ts: Seq<GanttTask>, i: int) -> int {
    let m = passes(ts, initial_starts(ts, ts.len() as int), 8);
    if m.contains_key(ts[i].name@) {
        m[ts[i].name@]
    } else {
        0
    }
}

/// The start days held per task: each task holds the start day of its name.
pub open spec fn holds(ts: Seq<GanttTask>, vals: Seq<Option<u64>>, m: Map<Seq<char>, int>) -> bool {
    &&& vals.len() == ts.len()
    &&& forall|i: int|
        0 <= i < ts.len() ==> (#[trigger] vals[i] is Some) == m.contains_key(ts[i].name@) && (
        vals[i] is Some ==> vals[i]->0 == m[ts[i].name@])
}

/// How many tasks hold a start day.
pub open spec fn known_count(vals: Seq<Option<u64>>) -> nat
    decreases vals.len(),
{
    if vals.len() == 0 {
        0
    } else {
        known_count(vals.drop_last()) + if vals.last() is Some {
            1nat
        } else {
            0nat
        }
    }
}

proof fn lemma_known_count_bounds(vals: Seq<Option<u64>>)
    ensures
        known_count(vals) <= vals.len(),
    decreases vals.len(),
{
    if vals.len() > 0 {
        lemma_known_count_bounds(vals.drop_last());
    }
}

proof fn lemma_known_count_grows(a: Seq<Option<u64>>, b: Seq<Option<u64>>, k: int)
    requires
        a.len() == b.len(),
        forall|i: int| 0 <= i < a.len() && (#[trigger] a[i]) is Some ==> b[i] is Some,
    ensures
        known_count(a) <= known_count(b),
        0 <= k < a.len() && a[k] is None && b[k] is Some ==> known_count(a) + 1 <= known_count(b),
    decreases a.len(),
{
    if a.len() > 0 {
        let a0 = a.drop_last();
        let b0 = b.drop_last();
        assert forall|i: int| 0 <= i < a0.len() && (#[trigger] a0[i]) is Some implies b0[i] is Some by {
            assert(a[i] == a0[i] && b[i] == b0[i]);
        }
        lemma_known_count_grows(a0, b0, k);
        if k < a.len() - 1 && 0 <= k {
            assert(a[k] == a0[k] && b[k] == b0[k]);
        }
        assert(a[a.len() - 1] == a.last());
    }
}

fn same_text(a: &String, b: &String) -> (r: bool)
    ensures
        r == (a@ == b@),
{
    let x = chars_of(a.as_str());
    let y = chars_of(b.as_str());
    eq(x.as_slice(), y.as_slice())
}

/// Sets the start day of every task named as task `k` to `v`.
fn set_named(vals: &mut Vec<Option<u64>>, ts: &[GanttTask], k: usize, v: u64)
    requires
        old(vals)@.len() == ts@.len(),
        k < ts@.len(),
    ensures
        final(vals)@.len() == ts@.len(),
        forall|i: int|
            0 <= i < ts@.len() ==> #[trigger] final(vals)@[i] == if ts@[i].name@ == ts@[k as int].name@ {
                Some(v)
            } else {
                old(vals)@[i]
            },
{
    let mut i: usize = 0;
    while i < ts.len()
        invariant
            i <= ts@.len(),
            k < ts@.len(),
            vals@.len() == ts@.len(),
            forall|a: int|
                0 <= a < ts@.len() ==> #[trigger] vals@[a] == if a < i && ts@[a].name@ == ts@[k as int].name@ {
                    Some(v)
                } else {
                    old(vals)@[a]
                },
        decreases ts.len() - i,
    {
        if same_text(&ts[i].name, &ts[k].name) {
            vals.set(i, Some(v));
        }
        i = i + 1;
    }
}

fn find_first_named(ts: &[GanttTask], name: &String) -> (r: Option<usize>)
    ensures
        match r {
            Some(j) => first_named(ts@, name@, 0) == Some(j as int) && j < ts@.len(),
            None => first_named(ts@, name@, 0) is None,
        },
{
    let mut j: usize = 0;
    while j < ts.len()
        invariant
            j <= ts@.len(),
            first_named(ts@, name@, 0) == first_named(ts@, name@, j as int),
        decreases ts.len() - j,
    {
        if same_text(&ts[j].name, name) {
            return Some(j);
        }
        j = j + 1;
    }
    None
}

/// The start day of every task (see [`spec_task_start`]). Every start day,
/// and every end day, fits in a `u64` for fewer than 2^32 - 1 tasks.
pub fn task_starts(tasks: &[GanttTask]) -> (s: Vec<u64>)
    requires
        tasks@.len() < 0xffff_ffff,
    ensures
        s@.len() == tasks@.len(),
        forall|i: int| 0 <= i < tasks@.len() ==> #[trigger] s@[i] == spec_task_start(tasks@, i),
        forall|i: int| 0 <= i < tasks@.len() ==> #[trigger] s@[i] + tasks@[i].duration <= u64::MAX,
{
    let n = tasks.len();
    let ghost ts = tasks@;
    let ghost U: int = 0xffff_ffff;
    let mut vals: Vec<Option<u64>> = Vec::new();
    let mut k: usize = 0;
    while k < n
        invariant
            k <= n,
            n == ts.len(),
            vals@.len() == k,
            forall|i: int| 0 <= i < k ==> (#[trigger] vals@[i]) is None,
        decreases n - k,
    {
        vals.push(None);
        k = k + 1;
    }
    // The start days known outright.
    let mut k: usize = 0;
    while k < n
        invariant
            k <= n,
            n == ts.len(),
            ts == tasks@,
            U == 0xffff_ffff,
            holds(ts, vals@, initial_starts(ts, k as int)),
            forall|i: int| 0 <= i < n && (#[trigger] vals@[i]) is Some ==> vals@[i]->0 <= U,
        decreases n - k,
    {
        let ghost m = initial_starts(ts, k as int);
        match tasks[k].fixed_start {
            Some(st) => {
                set_named(&mut vals, tasks, k, st as u64);
                proof {
                    assert(initial_starts(ts, k + 1) == m.insert(ts[k as int].name@, st as int));
                }
            },
            None => {
                if tasks[k].depends_on.is_none() {
                    set_named(&mut vals, tasks, k, 0);
                }
            },
        }
        k = k + 1;
    }
    // Up to eight passes over the dependencies.
    let ghost m0 = initial_starts(ts, n as int);
    let mut round: usize = 0;
    let mut done = false;
    while round < 8 && !done
        invariant
            round <= 8,
            n == ts.len(),
            ts == tasks@,
            U == 0xffff_ffff,
            n < 0xffff_ffff,
            exists|m: Map<Seq<char>, int>|
                #[trigger] holds(ts, vals@, m) && passes(ts, m0, 8) == (if done {
                    m
                } else {
                    passes(ts, m, (8 - round) as nat)
                }),
            forall|i: int|
                0 <= i < n && (#[trigger] vals@[i]) is Some ==> vals@[i]->0 <= (1 + known_count(vals@)) * U,
        decreases 8 - round,
    {
        let ghost m = choose|m: Map<Seq<char>, int>|
            #[trigger] holds(ts, vals@, m) && passes(ts, m0, 8) == (if done {
                m
            } else {
                passes(ts, m, (8 - round) as nat)
            });
        let mut progress = false;
        let mut k: usize = 0;
        while k < n
            invariant
                k <= n,
                n == ts.len(),
                ts == tasks@,
                U == 0xffff_ffff,
                n < 0xffff_ffff,
                holds(ts, vals@, pass_prefix(ts, m, k as int).0),
                progress == pass_prefix(ts, m, k as int).1,
                forall|i: int|
                    0 <= i < n && (#[trigger] vals@[i]) is Some ==> vals@[i]->0 <= (1 + known_count(vals@)) * U,
            decreases n - k,
        {
            let ghost cur = pass_prefix(ts, m, k as int).0;
            if vals[k].is_none() {
                match &tasks[k].depends_on {
                    None => {},
                    Some(dep) => {
                        match find_first_named(tasks, dep) {
                            None => {},
                            Some(j) => {
                                match vals[j] {
                                    Some(ds) => {
                                        let ghost before = vals@;
                                        proof {
                                            lemma_known_count_bounds(before);
                                            assert(ds <= (1 + known_count(before)) * U);
                                            assert((1 + known_count(before)) * U <= (1 + n) * U) by (nonlinear_arith)
                                                requires known_count(before) <= n, U > 0;
                                            assert((1 + n) * U + U <= u64::MAX) by (nonlinear_arith)
                                                requires n < 0xffff_ffff, U == 0xffff_ffff;
                                        }
                                        let v = ds + tasks[j].duration as u64;
                                        set_named(&mut vals, tasks, k, v);
                                        progress = true;
                                        proof {
                                            let nm = cur.insert(ts[k as int].name@, cur[ts[j as int].name@] + ts[j as int].duration);
                                            assert(holds(ts, vals@, nm));
                                            assert forall|i: int| 0 <= i < n && (#[trigger] before[i]) is Some implies vals@[i] is Some by {}
                                            lemma_known_count_grows(before, vals@, k as int);
                                            assert forall|i: int| 0 <= i < n && (#[trigger] vals@[i]) is Some implies vals@[i]->0
                                                <= (1 + known_count(vals@)) * U by {
                                                if ts[i].name@ != ts[k as int].name@ {
                                                    assert(before[i] == vals@[i]);
                                                }
                                            }
                                        }
                                    },
                                    None => {},
                                }
                            },
                        }
                    },
                }
            }
            k = k + 1;
        }
        proof {
            let (next, pr) = pass_prefix(ts, m, n as int);
            if !done {
                if pr {
                    assert(passes(ts, m, (8 - round) as nat) == passes(ts, next, (8 - round - 1) as nat));
                } else {
                    assert(passes(ts, m, (8 - round) as nat) == next);
                }
            }
            assert(holds(ts, vals@, next));
        }
        if !progress {
            done = true;
        }
        round = round + 1;
    }
    // What is still unknown starts on day 0.
    let ghost mf = passes(ts, m0, 8);
    proof {
        if !done {
            let m = choose|m: Map<Seq<char>, int>|
                #[trigger] holds(ts, vals@, m) && passes(ts, m0, 8) == passes(ts, m, (8 - round) as nat);
            assert(round == 8);
        }
        assert(holds(ts, vals@, mf));
        lemma_known_count_bounds(vals@);
    }
    let mut s: Vec<u64> = Vec::new();
    let mut k: usize = 0;
    while k < n
        invariant
            k <= n,
            n == ts.len(),
            ts == tasks@,
            U == 0xffff_ffff,
            n < 0xffff_ffff,
            mf == passes(ts, m0, 8),
            m0 == initial_starts(ts, n as int),
            holds(ts, vals@, mf),
            known_count(vals@) <= n,
            forall|i: int|
                0 <= i < n && (#[trigger] vals@[i]) is Some ==> vals@[i]->0 <= (1 + known_count(vals@)) * U,
            s@.len() == k,
            forall|i: int| 0 <= i < k ==> #[trigger] s@[i] == spec_task_start(ts, i),
            forall|i: int| 0 <= i < k ==> #[trigger] s@[i] + ts[i].duration <= u64::MAX,
        decreases n - k,
    {
        let v: u64 = match vals[k] {
            Some(x) => x,
            None => 0,
        };
        proof {
            assert((1 + known_count(vals@)) * U <= (1 + n) * U) by (nonlinear_arith)
                requires known_count(vals@) <= n, U > 0;
            assert((1 + n) * U + U <= u64::MAX) by (nonlinear_arith)
                requires n < 0xffff_ffff, U == 0xffff_ffff;
        }
        s.push(v);
        k = k + 1;
    }
    s
}

/// The last day of the chart: the latest end of a task (its start day plus
/// its duration), and at least 1.
pub open spec fn spec_max_end(ts: Seq<GanttTask>, starts: Seq<u64>, k: int) -> int
    decreases k,
{
    if k <= 0 {
        1
    } else {
        let prev = spec_max_end(ts, starts, k - 1);
        let e = starts[k - 1] + ts[k - 1].duration;
        if e > prev {
            e
        } else {
            prev
        }
    }
}

/// See [`spec_max_end`].
pub fn max_end(tasks: &[GanttTask], starts: &[u64]) -> (e: u64)
    requires
        starts@.len() == tasks@.len(),
        forall|i: int| 0 <= i < tasks@.len() ==> #[trigger] starts@[i] + tasks@[i].duration <= u64::MAX,
    ensures
        e == spec_max_end(tasks@, starts@, tasks@.len() as int),
        e >= 1,
        forall|i: int| 0 <= i < tasks@.len() ==> e >= #[trigger] starts@[i] + tasks@[i].duration,
        e == 1 || exists|i: int| 0 <= i < tasks@.len() && e == #[trigger] starts@[i] + tasks@[i].duration,
{
    let mut e: u64 = 1;
    let mut k: usize = 0;
    while k < tasks.len()
        invariant
            k <= tasks@.len(),
            starts@.len() == tasks@.len(),
            forall|i: int| 0 <= i < tasks@.len() ==> #[trigger] starts@[i] + tasks@[i].duration <= u64::MAX,
            e == spec_max_end(tasks@, starts@, k as int),
            e >= 1,
            forall|i: int| 0 <= i < k ==> e >= #[trigger] starts@[i] + tasks@[i].duration,
            e == 1 || exists|i: int| 0 <= i < k && e == #[trigger] starts@[i] + tasks@[i].duration,
        decreases tasks.len() - k,
    {
        let end = starts[k] + tasks[k].duration as u64;
        if end > e {
            e = end;
        }
        k = k + 1;
    }
    e
}

/// The spacing of the day axis: every day up to 10 days, every 5 days up
/// to 30, else every 10.
pub fn axis_step(max_end: u64) -> (s: u64)
    ensures
        s == (if max_end <= 10 {
            1u64
        } else if max_end <= 30 {
            5u64
        } else {
            10u64
        }),
{
    if max_end <= 10 {
        1
    } else if max_end <= 30 {
        5
    } else {
        10
    }
}

/// The days the axis is labelled at: 0 and every step after it, up to the
/// last day of the chart.
pub fn axis_days(max_end: u64) -> (r: Vec<u64>)
    requires
        max_end <= u64::MAX - 10,
    ensures
        r@.len() > 0,
        forall|k: int| 0 <= k < r@.len() ==> #[trigger] r@[k] == k * axis_step_of(max_end),
        r@.last() <= max_end < r@.last() + axis_step_of(max_end),
{
    let step = axis_step(max_end);
    let mut r: Vec<u64> = Vec::new();
    let mut d: u64 = 0;
    while d <= max_end
        invariant
            step == axis_step_of(max_end),
            max_end <= u64::MAX - 10,
            d == r@.len() * step,
            forall|k: int| 0 <= k < r@.len() ==> #[trigger] r@[k] == k * step,
            r@.len() > 0 ==> r@.last() <= max_end && d == r@.last() + step,
            r@.len() == 0 ==> d == 0,
            d <= max_end + step,
        decreases max_end + step - d,
    {
        r.push(d);
        proof {
            assert(r@.len() * step == (r@.len() - 1) * step + step) by (nonlinear_arith);
        }
        d = d + step;
    }
    r
}

pub open spec fn axis_step_of(max_end: u64) -> u64 {
    if max_end <= 10 {
        1
    } else if max_end <= 30 {
        5
    } else {
        10
    }
}

} // verus!
