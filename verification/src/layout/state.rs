//! State layout: the rank of every state, found by a search from `[*]`, the
//! layers the ranks give, and the edges between laid-out states.
use crate::ast::state::{StateDiagram, StateKind, StateNode, Transition};
use crate::layout::sugiyama::{nested, reorder_barycentric, spec_reorder_barycentric};
use crate::text::{chars_of, eq, eq_str};
use vstd::prelude::*;

verus! {

/// A transition between two laid-out states, by name.
#[derive(Debug, Clone)]
pub struct StateLayoutEdge {
    pub from: String,
    pub to: String,
    pub label: Option<String>,
}

/// Ranks by state name, as a table in which the last entry of a name holds
/// its rank.
pub open spec fn rank_index(a: Seq<(Seq<char>, int)>, key: Seq<char>, k: int) -> Option<int>
    decreases k,
{
    if k <= 0 {
        None
    } else if a[k - 1].0 == key {
        Some(k - 1)
    } else {
        rank_index(a, key, k - 1)
    }
}

pub open spec fn rank_of(a: Seq<(Seq<char>, int)>, key: Seq<char>) -> Option<int> {
    match rank_index(a, key, a.len() as int) {
        Some(i) => Some(a[i].1),
        None => None,
    }
}

pub open spec fn set_rank(a: Seq<(Seq<char>, int)>, key: Seq<char>, v: int) -> Seq<(Seq<char>, int)> {
    match rank_index(a, key, a.len() as int) {
        Some(i) => a.update(i, (key, v)),
        None => a.push((key, v)),
    }
}

/// The transitions out of `[*]`, among the first `k`: each target gets rank
/// 0 unless it has a rank already, and joins the search queue when its rank
/// is 0.
pub open spec fn seed(ts: Seq<Transition>, k: int) -> (Seq<(Seq<char>, int)>, Seq<Seq<char>>)
    decreases k,
{
    if k <= 0 {
        (seq![], seq![])
    } else {
        let (a, q) = seed(ts, k - 1);
        let t = ts[k - 1];
        if t.from@ == "[*]"@ {
            let a2 = if rank_index(a, t.to@, a.len() as int) is None {
                a.push((t.to@, 0))
            } else {
                a
            };
            if rank_of(a2, t.to@) == Some(0int) {
                (a2, q.push(t.to@))
            } else {
                (a2, q)
            }
        } else {
            (a, q)
        }
    }
}

/// Visiting state `name` of rank `cur`, over the first `k` transitions:
/// every transition out of it to a state other than `[*]` raises the
/// target's rank to `cur + 1` when it has none or a rank not above `cur`,
/// and queues the target.
pub open spec fn visit(
    ts: Seq<Transition>,
    name: Seq<char>,
    cur: int,
    a: Seq<(Seq<char>, int)>,
    q: Seq<Seq<char>>,
    k: int,
) -> (Seq<(Seq<char>, int)>, Seq<Seq<char>>)
    decreases k,
{
    if k <= 0 {
        (a, q)
    } else {
        let (a1, q1) = visit(ts, name, cur, a, q, k - 1);
        let t = ts[k - 1];
        if t.from@ == name && t.to@ != "[*]"@ {
            let a2 = match rank_of(a1, t.to@) {
                Some(v) => if v <= cur {
                    set_rank(a1, t.to@, cur + 1)
                } else {
                    a1
                },
                None => set_rank(a1, t.to@, cur + 1),
            };
            (a2, q1.push(t.to@))
        } else {
            (a1, q1)
        }
    }
}

/// How many of the first `k` transitions lead to a state not yet visited.
pub open spec fn unvisited_count(ts: Seq<Transition>, visited: Seq<Seq<char>>, k: int) -> nat
    decreases k,
{
    if k <= 0 {
        0
    } else {
        unvisited_count(ts, visited, k - 1) + if visited.contains(ts[k - 1].to@) {
            0nat
        } else {
            1nat
        }
    }
}

pub open spec fn is_target(ts: Seq<Transition>, name: Seq<char>) -> bool {
    exists|j: int| 0 <= j < ts.len() && (#[trigger] ts[j]).to@ == name
}

pub proof fn lemma_unvisited_shrinks(ts: Seq<Transition>, visited: Seq<Seq<char>>, name: Seq<char>, k: int)
    requires
        0 <= k <= ts.len(),
    ensures
        unvisited_count(ts, visited.push(name), k) <= unvisited_count(ts, visited, k),
        !visited.contains(name) && (exists|j: int| 0 <= j < k && (#[trigger] ts[j]).to@ == name)
            ==> unvisited_count(ts, visited.push(name), k) < unvisited_count(ts, visited, k),
        unvisited_count(ts, visited, k) <= k,
    decreases k,
{
    if k > 0 {
        lemma_unvisited_shrinks(ts, visited, name, k - 1);
        let v2 = visited.push(name);
        if visited.contains(ts[k - 1].to@) {
            let i = choose|i: int| 0 <= i < visited.len() && visited[i] == ts[k - 1].to@;
            assert(v2[i] == ts[k - 1].to@);
        }
        if ts[k - 1].to@ == name {
            assert(v2[visited.len() as int] == name);
        }
    }
}

/// The breadth-first search from the queue `q`: each state is visited once,
/// in queue order (see [`visit`]); its rank is its rank when visited, or 0.
pub open spec fn search(
    ts: Seq<Transition>,
    q: Seq<Seq<char>>,
    visited: Seq<Seq<char>>,
    a: Seq<(Seq<char>, int)>,
) -> Seq<(Seq<char>, int)>
    decreases unvisited_count(ts, visited, ts.len() as int), q.len(),
{
    if q.len() == 0 {
        a
    } else {
        let name = q[0];
        if visited.contains(name) {
            search(ts, q.drop_first(), visited, a)
        } else if !is_target(ts, name) {
            // Only targets of transitions are ever queued.
            a
        } else {
            let cur = match rank_of(a, name) {
                Some(v) => v,
                None => 0,
            };
            let (a2, q2) = visit(ts, name, cur, a, q.drop_first(), ts.len() as int);
            proof {
                lemma_unvisited_shrinks(ts, visited, name, ts.len() as int);
            }
            search(ts, q2, visited.push(name), a2)
        }
    }
}

/// The largest rank in the table, or 0.
pub open spec fn max_rank(a: Seq<(Seq<char>, int)>) -> int
    decreases a.len(),
{
    if a.len() == 0 {
        0
    } else {
        let m = max_rank(a.drop_last());
        if a.last().1 > m {
            a.last().1
        } else {
            m
        }
    }
}

/// The states, among the first `k`, that the search left without a rank
/// (other than `[*]`) get ranks from `next` on, in order.
pub open spec fn fill_ranks(ss: Seq<StateNode>, a: Seq<(Seq<char>, int)>, next: int, k: int) -> (
    Seq<(Seq<char>, int)>,
    int,
)
    decreases k,
{
    if k <= 0 {
        (a, next)
    } else {
        let (a1, n1) = fill_ranks(ss, a, next, k - 1);
        let s = ss[k - 1];
        if s.name@ != "[*]"@ && rank_index(a1, s.name@, a1.len() as int) is None {
            (a1.push((s.name@, n1)), n1 + 1)
        } else {
            (a1, n1)
        }
    }
}

/// The rank of every state name: the search from the targets of `[*]`,
/// then the states it did not reach, one rank after another past the
/// largest rank found.
pub open spec fn spec_state_ranks(d: StateDiagram) -> Seq<(Seq<char>, int)> {
    let ts = d.transitions@;
    let (a0, q0) = seed(ts, ts.len() as int);
    let a = search(ts, q0, seq![], a0);
    fill_ranks(d.states@, a, max_rank(a) + 1, d.states@.len() as int).0
}

/// The layer of state `i`: 0 for `[*]` and start states, else one past its
/// rank (0 without one), and at most the last of `count` layers.
pub open spec fn layer_of(s: StateNode, a: Seq<(Seq<char>, int)>, count: int) -> int {
    if s.name@ == "[*]"@ || s.kind == StateKind::Start {
        0
    } else {
        let r = match rank_of(a, s.name@) {
            Some(v) => v,
            None => 0,
        };
        if r + 1 < count - 1 {
            r + 1
        } else {
            count - 1
        }
    }
}

/// The first `k` states, by position, in their layers.
pub open spec fn group(ss: Seq<StateNode>, a: Seq<(Seq<char>, int)>, count: int, k: int) -> Seq<Seq<usize>>
    decreases k,
{
    if k <= 0 {
        Seq::new(count as nat, |i: int| Seq::<usize>::empty())
    } else {
        let g = group(ss, a, count, k - 1);
        let li = layer_of(ss[k - 1], a, count);
        g.update(li, g[li].push((k - 1) as usize))
    }
}

/// The last state, among the first `k`, with the name `name`.
pub open spec fn last_state_named(ss: Seq<StateNode>, name: Seq<char>, k: int) -> Option<int>
    decreases k,
{
    if k <= 0 {
        None
    } else if ss[k - 1].name@ == name {
        Some(k - 1)
    } else {
        last_state_named(ss, name, k - 1)
    }
}

/// The transitions among the first `k` whose ends are both states, as
/// pairs of state positions.
pub open spec fn state_edges(ss: Seq<StateNode>, ts: Seq<Transition>, k: int) -> Seq<(usize, usize)>
    decreases k,
{
    if k <= 0 {
        seq![]
    } else {
        let prev = state_edges(ss, ts, k - 1);
        match (
            last_state_named(ss, ts[k - 1].from@, ss.len() as int),
            last_state_named(ss, ts[k - 1].to@, ss.len() as int),
        ) {
            (Some(i), Some(j)) => prev.push((i as usize, j as usize)),
            _ => prev,
        }
    }
}

/// The layers of a state diagram: states grouped by rank into one more
/// layer than the largest rank plus one (see [`layer_of`]), then six sweeps
/// of crossing reduction over every transition between states.
pub open spec fn spec_state_layers(d: StateDiagram) -> Seq<Seq<usize>> {
    let a = spec_state_ranks(d);
    let ss = d.states@;
    spec_reorder_barycentric(
        group(ss, a, max_rank(a) + 2, ss.len() as int),
        state_edges(ss, d.transitions@, d.transitions@.len() as int),
        6,
    )
}

/// The view of a rank table.
pub open spec fn rview(a: Seq<(Vec<char>, usize)>) -> Seq<(Seq<char>, int)> {
    a.map_values(|p: (Vec<char>, usize)| (p.0@, p.1 as int))
}

/// The views of a list of names.
pub open spec fn nview(v: Seq<Vec<char>>) -> Seq<Seq<char>> {
    v.map_values(|x: Vec<char>| x@)
}

pub open spec fn opt_at(o: Option<usize>) -> Option<int> {
    match o {
        Some(p) => Some(p as int),
        None => None,
    }
}

fn find_rank(a: &Vec<(Vec<char>, usize)>, key: &[char]) -> (r: Option<usize>)
    ensures
        opt_at(r) == rank_index(rview(a@), key@, a@.len() as int),
        r matches Some(i) ==> i < a@.len(),
{
    let mut k: usize = a.len();
    while k > 0
        invariant
            k <= a@.len(),
            rank_index(rview(a@), key@, k as int) == rank_index(rview(a@), key@, a@.len() as int),
        decreases k,
    {
        if eq(a[k - 1].0.as_slice(), key) {
            assert(rview(a@)[k - 1].0 == key@);
            return Some(k - 1);
        }
        assert(rview(a@)[k - 1].0 == a@[k - 1].0@);
        k = k - 1;
    }
    None
}

fn get_rank(a: &Vec<(Vec<char>, usize)>, key: &[char]) -> (r: Option<usize>)
    ensures
        opt_at(r) == rank_of(rview(a@), key@),
{
    match find_rank(a, key) {
        Some(i) => Some(a[i].1),
        None => None,
    }
}

fn copy_chars(s: &[char]) -> (r: Vec<char>)
    ensures
        r@ == s@,
{
    let mut r: Vec<char> = Vec::new();
    let mut i: usize = 0;
    while i < s.len()
        invariant
            i <= s@.len(),
            r@ =~= s@.take(i as int),
        decreases s.len() - i,
    {
        r.push(s[i]);
        i = i + 1;
    }
    assert(s@.take(s@.len() as int) =~= s@);
    r
}

fn put_rank(a: &mut Vec<(Vec<char>, usize)>, key: &[char], v: usize)
    ensures
        rview(final(a)@) == set_rank(rview(old(a)@), key@, v as int),
{
    let k = copy_chars(key);
    match find_rank(a, key) {
        Some(i) => {
            let ghost before = a@;
            a.set(i, (k, v));
            assert(rview(a@) =~= rview(before).update(i as int, (key@, v as int)));
        },
        None => {
            let ghost before = a@;
            a.push((k, v));
            assert(rview(a@) =~= rview(before).push((key@, v as int)));
        },
    }
}

fn has_name(v: &Vec<Vec<char>>, name: &[char]) -> (r: bool)
    ensures
        r == nview(v@).contains(name@),
{
    let mut i: usize = 0;
    while i < v.len()
        invariant
            i <= v@.len(),
            forall|k: int| 0 <= k < i ==> (#[trigger] nview(v@)[k]) != name@,
        decreases v.len() - i,
    {
        if eq(v[i].as_slice(), name) {
            assert(nview(v@)[i as int] == name@);
            return true;
        }
        assert(nview(v@)[i as int] == v@[i as int]@);
        i = i + 1;
    }
    false
}

/// Every rank in the table is at most `b`, and none is negative.
pub open spec fn ranks_below(a: Seq<(Seq<char>, int)>, b: int) -> bool {
    forall|i: int| 0 <= i < a.len() ==> 0 <= (#[trigger] a[i]).1 <= b
}

proof fn lemma_rank_of_bounded(a: Seq<(Seq<char>, int)>, key: Seq<char>, b: int, k: int)
    requires
        ranks_below(a, b),
        0 <= k <= a.len(),
    ensures
        rank_index(a, key, k) matches Some(i) ==> 0 <= i < k && a[i].0 == key,
    decreases k,
{
    if k > 0 && a[k - 1].0 != key {
        lemma_rank_of_bounded(a, key, b, k - 1);
    }
}

proof fn lemma_set_rank_bounded(a: Seq<(Seq<char>, int)>, key: Seq<char>, v: int, b: int)
    requires
        ranks_below(a, b),
        0 <= v <= b,
    ensures
        ranks_below(set_rank(a, key, v), b),
{
    lemma_rank_of_bounded(a, key, b, a.len() as int);
    let s = set_rank(a, key, v);
    assert forall|i: int| 0 <= i < s.len() implies 0 <= (#[trigger] s[i]).1 <= b by {
        if i < a.len() {
            assert(s[i] == a[i] || s[i] == (key, v));
        }
    }
}

proof fn lemma_max_rank(a: Seq<(Seq<char>, int)>, b: int)
    requires
        ranks_below(a, b),
        b >= 0,
    ensures
        0 <= max_rank(a) <= b,
    decreases a.len(),
{
    if a.len() > 0 {
        assert(ranks_below(a.drop_last(), b)) by {
            assert forall|i: int| 0 <= i < a.drop_last().len() implies 0 <= (#[trigger] a.drop_last()[i]).1 <= b by {
                assert(a.drop_last()[i] == a[i]);
            }
        }
        lemma_max_rank(a.drop_last(), b);
        assert(a.last() == a[a.len() - 1]);
    }
}

/// The rank of every state name (see [`spec_state_ranks`]); every rank is
/// at most the number of transitions and states.
fn state_rank_table(d: &StateDiagram) -> (a: Vec<(Vec<char>, usize)>)
    requires
        d.transitions@.len() + d.states@.len() + 3 < usize::MAX,
    ensures
        rview(a@) == spec_state_ranks(*d),
        ranks_below(rview(a@), (d.transitions@.len() + d.states@.len() + 1) as int),
{
    let ts = &d.transitions;
    let ghost tv = ts@;
    let n = ts.len();
    // Seeds.
    let mut a: Vec<(Vec<char>, usize)> = Vec::new();
    let mut queue: Vec<Vec<char>> = Vec::new();
    let mut k: usize = 0;
    assert(rview(a@) =~= seq![]);
    assert(nview(queue@) =~= seq![]);
    while k < n
        invariant
            k <= n,
            n == tv.len(),
            tv == ts@,
            (rview(a@), nview(queue@)) == seed(tv, k as int),
            ranks_below(rview(a@), 0),
            forall|i: int| 0 <= i < queue@.len() ==> is_target(tv, #[trigger] nview(queue@)[i]),
        decreases n - k,
    {
        let from = chars_of(ts[k].from.as_str());
        if eq_str(from.as_slice(), "[*]") {
            let to = chars_of(ts[k].to.as_str());
            if find_rank(&a, to.as_slice()).is_none() {
                let ghost before = a@;
                a.push((copy_chars(to.as_slice()), 0));
                assert(rview(a@) =~= rview(before).push((to@, 0)));
            }
            let r = get_rank(&a, to.as_slice());
            if r == Some(0usize) {
                let ghost qb = queue@;
                queue.push(to);
                assert(nview(queue@) =~= nview(qb).push(ts@[k as int].to@));
                assert(is_target(tv, tv[k as int].to@));
                assert forall|i: int| 0 <= i < queue@.len() implies is_target(tv, #[trigger] nview(queue@)[i]) by {
                    if i < qb.len() {
                        assert(nview(queue@)[i] == nview(qb)[i]);
                    }
                }
            }
            proof {
                assert forall|i: int| 0 <= i < rview(a@).len() implies 0 <= (#[trigger] rview(a@)[i]).1 <= 0 by {}
            }
        }
        k = k + 1;
    }
    // Search.
    let mut visited: Vec<Vec<char>> = Vec::new();
    let mut head: usize = 0;
    let ghost total = search(tv, nview(queue@), seq![], rview(a@));
    assert(nview(queue@).skip(0) =~= nview(queue@));
    assert(nview(visited@) =~= seq![]);
    proof {
        lemma_unvisited_shrinks(tv, nview(visited@), seq![], n as int);
        assert forall|i: int| 0 <= i < rview(a@).len() implies 0 <= (#[trigger] rview(a@)[i]).1 <= 0 by {}
    }
    while head < queue.len()
        invariant
            n == tv.len(),
            tv == ts@,
            head <= queue@.len(),
            search(tv, nview(queue@).skip(head as int), nview(visited@), rview(a@)) == total,
            forall|i: int| 0 <= i < queue@.len() ==> is_target(tv, #[trigger] nview(queue@)[i]),
            ranks_below(rview(a@), visited@.len() as int),
            visited@.len() + unvisited_count(tv, nview(visited@), n as int) <= n,
        decreases unvisited_count(tv, nview(visited@), n as int), queue@.len() - head,
    {
        let ghost q = nview(queue@).skip(head as int);
        let name = copy_chars(queue[head].as_slice());
        assert(q[0] == nview(queue@)[head as int]);
        assert(q.drop_first() =~= nview(queue@).skip(head + 1));
        let ghost vv0 = nview(visited@);
        let ghost a0 = rview(a@);
        head = head + 1;
        if has_name(&visited, name.as_slice()) {
        } else {
            assert(is_target(tv, name@));
            let cur: usize = match get_rank(&a, name.as_slice()) {
                Some(v) => v,
                None => 0,
            };
            proof {
                if rank_of(a0, name@) is Some {
                    lemma_rank_of_bounded(a0, name@, visited@.len() as int, a0.len() as int);
                }
                lemma_unvisited_shrinks(tv, vv0, name@, n as int);
            }
            let ghost qstart = nview(queue@).skip(head as int);
            let ghost vlen = visited@.len();
            let mut t: usize = 0;
            while t < n
                invariant
                    t <= n,
                    n == tv.len(),
                    tv == ts@,
                    head <= queue@.len(),
                    cur <= vlen,
                    vlen < n,
                    (rview(a@), nview(queue@).skip(head as int)) == visit(tv, name@, cur as int, a0, qstart, t as int),
                    forall|i: int| 0 <= i < queue@.len() ==> is_target(tv, #[trigger] nview(queue@)[i]),
                    ranks_below(rview(a@), (vlen + 1) as int),
                decreases n - t,
            {
                let from = chars_of(ts[t].from.as_str());
                let to = chars_of(ts[t].to.as_str());
                if eq(from.as_slice(), name.as_slice()) && !eq_str(to.as_slice(), "[*]") {
                    let ghost a1 = rview(a@);
                    match get_rank(&a, to.as_slice()) {
                        Some(v) => {
                            if v <= cur {
                                put_rank(&mut a, to.as_slice(), cur + 1);
                                proof { lemma_set_rank_bounded(a1, to@, cur + 1, (vlen + 1) as int); }
                            }
                        },
                        None => {
                            put_rank(&mut a, to.as_slice(), cur + 1);
                            proof { lemma_set_rank_bounded(a1, to@, cur + 1, (vlen + 1) as int); }
                        },
                    }
                    let ghost qb = queue@;
                    queue.push(to);
                    assert(nview(queue@).skip(head as int) =~= nview(qb).skip(head as int).push(tv[t as int].to@));
                    assert(is_target(tv, tv[t as int].to@));
                    assert forall|i: int| 0 <= i < queue@.len() implies is_target(tv, #[trigger] nview(queue@)[i]) by {
                        if i < qb.len() {
                            assert(nview(queue@)[i] == nview(qb)[i]);
                        }
                    }
                }
                t = t + 1;
            }
            let ghost vb = visited@;
            visited.push(name);
            assert(nview(visited@) =~= vv0.push(name@));
        }
    }
    proof {
        assert(nview(queue@).skip(head as int).len() == 0);
        lemma_unvisited_shrinks(tv, nview(visited@), seq![], n as int);
    }
    // The states the search did not reach.
    let ghost searched = rview(a@);
    let mut m: usize = 0;
    let mut i: usize = 0;
    while i < a.len()
        invariant
            i <= a@.len(),
            searched == rview(a@),
            ranks_below(searched, n as int),
            n < usize::MAX - 3,
            m == max_rank(searched.take(i as int)),
            m <= n,
        decreases a.len() - i,
    {
        assert(searched.take(i + 1).drop_last() =~= searched.take(i as int));
        assert(searched[i as int].1 == a@[i as int].1);
        if a[i].1 > m {
            m = a[i].1;
        }
        i = i + 1;
    }
    assert(searched.take(a@.len() as int) =~= searched);
    let ss = &d.states;
    let mut next: usize = m + 1;
    let mut k: usize = 0;
    proof {
        assert forall|j: int| 0 <= j < searched.len() implies 0 <= (#[trigger] searched[j]).1 <= n + ss@.len() + 1 by {}
    }
    while k < ss.len()
        invariant
            k <= ss@.len(),
            n + ss@.len() + 3 < usize::MAX,
            (rview(a@), next as int) == fill_ranks(ss@, searched, max_rank(searched) + 1, k as int),
            next <= n + k + 1,
            ranks_below(rview(a@), (n + ss@.len() + 1) as int),
        decreases ss.len() - k,
    {
        let name = chars_of(ss[k].name.as_str());
        if !eq_str(name.as_slice(), "[*]") && find_rank(&a, name.as_slice()).is_none() {
            let ghost before = rview(a@);
            a.push((name, next));
            assert(rview(a@) =~= before.push((ss@[k as int].name@, next as int)));
            next = next + 1;
        }
        k = k + 1;
    }
    a
}

/// The layers of a state diagram (see [`spec_state_layers`]).
pub fn state_layers(d: &StateDiagram) -> (l: Vec<Vec<usize>>)
    requires
        d.transitions@.len() + d.states@.len() + 3 < usize::MAX,
    ensures
        nested(l@) == spec_state_layers(*d),
{
    let a = state_rank_table(d);
    let ghost av = rview(a@);
    let bound: usize = d.transitions.len() + d.states.len() + 1;
    let mut m: usize = 0;
    let mut i: usize = 0;
    while i < a.len()
        invariant
            i <= a@.len(),
            av == rview(a@),
            ranks_below(av, bound as int),
            bound + 2 < usize::MAX,
            m == max_rank(av.take(i as int)),
            m <= bound,
        decreases a.len() - i,
    {
        assert(av.take(i + 1).drop_last() =~= av.take(i as int));
        assert(av[i as int].1 == a@[i as int].1);
        if a[i].1 > m {
            m = a[i].1;
        }
        i = i + 1;
    }
    assert(av.take(a@.len() as int) =~= av);
    let count: usize = m + 2;
    let ss = &d.states;
    let mut layers: Vec<Vec<usize>> = Vec::new();
    let mut k: usize = 0;
    while k < count
        invariant
            k <= count,
            layers@.len() == k,
            forall|j: int| 0 <= j < k ==> (#[trigger] layers@[j])@.len() == 0,
        decreases count - k,
    {
        layers.push(Vec::new());
        k = k + 1;
    }
    assert forall|j: int| 0 <= j < count implies #[trigger] nested(layers@)[j] =~= Seq::<usize>::empty() by {
        assert(nested(layers@)[j] == layers@[j]@);
    }
    assert(nested(layers@) =~= group(ss@, av, count as int, 0));
    let mut k: usize = 0;
    while k < ss.len()
        invariant
            k <= ss@.len(),
            av == rview(a@),
            count == max_rank(av) + 2,
            ranks_below(av, bound as int),
            bound + 2 < usize::MAX,
            layers@.len() == count,
            nested(layers@) == group(ss@, av, count as int, k as int),
        decreases ss.len() - k,
    {
        let name = chars_of(ss[k].name.as_str());
        let li: usize = if eq_str(name.as_slice(), "[*]") || ss[k].kind == StateKind::Start {
            0
        } else {
            let r: usize = match get_rank(&a, name.as_slice()) {
                Some(v) => v,
                None => 0,
            };
            proof {
                if rank_of(av, name@) is Some {
                    lemma_rank_of_bounded(av, name@, bound as int, av.len() as int);
                }
            }
            if r + 1 < count - 1 {
                r + 1
            } else {
                count - 1
            }
        };
        assert(li as int == layer_of(ss@[k as int], av, count as int));
        let mut v: Vec<usize> = Vec::new();
        let mut j: usize = 0;
        while j < layers[li].len()
            invariant
                li < layers@.len(),
                j <= layers@[li as int]@.len(),
                v@ =~= layers@[li as int]@.take(j as int),
            decreases layers@[li as int]@.len() - j,
        {
            v.push(layers[li][j]);
            j = j + 1;
        }
        assert(layers@[li as int]@.take(layers@[li as int]@.len() as int) =~= layers@[li as int]@);
        v.push(k);
        let ghost before = nested(layers@);
        layers.set(li, v);
        assert(nested(layers@) =~= before.update(li as int, before[li as int].push(k)));
        k = k + 1;
    }
    // Edges between states, by position.
    let ts = &d.transitions;
    let mut edges: Vec<(usize, usize)> = Vec::new();
    let mut k: usize = 0;
    while k < ts.len()
        invariant
            k <= ts@.len(),
            edges@ == state_edges(ss@, ts@, k as int),
        decreases ts.len() - k,
    {
        let fi = find_state(ss, &ts[k].from);
        let ti = find_state(ss, &ts[k].to);
        match (fi, ti) {
            (Some(i), Some(j)) => edges.push((i, j)),
            _ => {},
        }
        k = k + 1;
    }
    reorder_barycentric(&mut layers, edges.as_slice(), 6);
    layers
}

fn find_state(ss: &Vec<StateNode>, name: &String) -> (r: Option<usize>)
    ensures
        opt_at(r) == last_state_named(ss@, name@, ss@.len() as int),
{
    let c = chars_of(name.as_str());
    let mut k: usize = ss.len();
    while k > 0
        invariant
            k <= ss@.len(),
            c@ == name@,
            last_state_named(ss@, name@, k as int) == last_state_named(ss@, name@, ss@.len() as int),
        decreases k,
    {
        let d = chars_of(ss[k - 1].name.as_str());
        if eq(d.as_slice(), c.as_slice()) {
            return Some(k - 1);
        }
        k = k - 1;
    }
    None
}

} // verus!
