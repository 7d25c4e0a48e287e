//! Use-case layout: the edges between laid-out nodes and the barycentric
//! ordering of the two columns (actors and use cases).
use crate::ast::usecase::{Association, NodeKind, UseCaseDiagram, UseCaseNode};
use crate::layout::sugiyama::{bary_sort_layer, bary_sorted, law_bary_sort_rearranges, nested};
use crate::text::{chars_of, eq};
use vstd::prelude::*;

verus! {

/// An association between two laid-out nodes, by name.
#[derive(Debug, Clone)]
pub struct UseCaseLayoutEdge {
    pub from: String,
    pub to: String,
    pub label: Option<String>,
    pub dashed: bool,
}

/// The neighbour lists of the nodes of `column`, from the adjacency `adj`.
pub open spec fn column_neighbours(column: Seq<usize>, adj: Seq<Seq<usize>>) -> Seq<Seq<usize>> {
    Seq::new(column.len(), |i: int| adj[column[i] as int])
}

/// Sorts `column` by the mean row, in `other`, of each node's neighbours;
/// a node with no neighbour there keeps its row as its mean, and ties keep
/// their order (see [`bary_sorted`]).
pub fn sort_by_barycenter(column: &mut Vec<usize>, other: &[usize], adj: &Vec<Vec<usize>>)
    requires
        forall|i: int| 0 <= i < old(column)@.len() ==> old(column)@[i] < adj@.len(),
    ensures
        final(column)@ == bary_sorted(old(column)@, column_neighbours(old(column)@, nested(adj@)), other@),
{
    let mut nbrs: Vec<Vec<usize>> = Vec::new();
    let mut i: usize = 0;
    while i < column.len()
        invariant
            i <= column@.len(),
            column@ == old(column)@,
            forall|k: int| 0 <= k < column@.len() ==> column@[k] < adj@.len(),
            nested(nbrs@) =~= column_neighbours(column@, nested(adj@)).take(i as int),
        decreases column.len() - i,
    {
        let list = &adj[column[i]];
        let mut copy: Vec<usize> = Vec::new();
        let mut j: usize = 0;
        while j < list.len()
            invariant
                j <= list@.len(),
                copy@ =~= list@.take(j as int),
            decreases list.len() - j,
        {
            copy.push(list[j]);
            j = j + 1;
        }
        assert(list@.take(list@.len() as int) =~= list@);
        let ghost before = nbrs@;
        nbrs.push(copy);
        assert(nested(nbrs@) =~= nested(before).push(copy@));
        i = i + 1;
    }
    assert(nested(nbrs@) =~= column_neighbours(column@, nested(adj@)));
    let sorted = bary_sort_layer(column.as_slice(), &nbrs, other);
    *column = sorted;
}


/// The positions, among the first `k` nodes, of those of the given kind, in
/// order.
pub open spec fn column_of(nodes: Seq<UseCaseNode>, kind: NodeKind, k: int) -> Seq<usize>
    decreases k,
{
    if k <= 0 {
        seq![]
    } else if nodes[k - 1].kind == kind {
        column_of(nodes, kind, k - 1).push((k - 1) as usize)
    } else {
        column_of(nodes, kind, k - 1)
    }
}

/// The last node, among the first `k`, with the name `name`: names are
/// looked up in a table where a later node with the same name wins.
pub open spec fn last_named(nodes: Seq<UseCaseNode>, name: Seq<char>, k: int) -> Option<int>
    decreases k,
{
    if k <= 0 {
        None
    } else if nodes[k - 1].name@ == name {
        Some(k - 1)
    } else {
        last_named(nodes, name, k - 1)
    }
}

/// The cross-column neighbours of every node through the first `k`
/// associations: an association between an actor and a use case makes each
/// a neighbour of the other; one whose ends are not both nodes, or are of
/// one kind, counts for nothing.
pub open spec fn cross_adjacency(nodes: Seq<UseCaseNode>, assocs: Seq<Association>, k: int) -> Seq<
    Seq<usize>,
>
    decreases k,
{
    if k <= 0 {
        Seq::new(nodes.len(), |i: int| Seq::<usize>::empty())
    } else {
        let adj = cross_adjacency(nodes, assocs, k - 1);
        let a = assocs[k - 1];
        match (last_named(nodes, a.from@, nodes.len() as int), last_named(nodes, a.to@, nodes.len() as int)) {
            (Some(i), Some(j)) => if nodes[i].kind != nodes[j].kind {
                let adj1 = adj.update(i, adj[i].push(j as usize));
                adj1.update(j, adj1[j].push(i as usize))
            } else {
                adj
            },
            _ => adj,
        }
    }
}

/// `n` alternating sweeps: the use cases sorted by the barycentres of their
/// actors, then the actors by those of their use cases.
pub open spec fn column_sweeps(left: Seq<usize>, right: Seq<usize>, adj: Seq<Seq<usize>>, n: nat) -> (
    Seq<usize>,
    Seq<usize>,
)
    decreases n,
{
    if n == 0 {
        (left, right)
    } else {
        let (l, r) = column_sweeps(left, right, adj, (n - 1) as nat);
        let r2 = bary_sorted(r, column_neighbours(r, adj), l);
        let l2 = bary_sorted(l, column_neighbours(l, adj), r2);
        (l2, r2)
    }
}

/// The two columns of a use-case diagram after `n` sweeps: actors on the
/// left and use cases on the right, each starting in source order.
pub open spec fn spec_use_case_columns(d: UseCaseDiagram, n: nat) -> (Seq<usize>, Seq<usize>) {
    let nodes = d.nodes@;
    column_sweeps(
        column_of(nodes, NodeKind::Actor, nodes.len() as int),
        column_of(nodes, NodeKind::UseCase, nodes.len() as int),
        cross_adjacency(nodes, d.associations@, d.associations@.len() as int),
        n,
    )
}

fn find_last_named(nodes: &Vec<UseCaseNode>, name: &String) -> (r: Option<usize>)
    ensures
        opt_pos(r) == last_named(nodes@, name@, nodes@.len() as int),
        r matches Some(i) ==> i < nodes@.len(),
{
    let c = chars_of(name.as_str());
    let mut k: usize = nodes.len();
    while k > 0
        invariant
            k <= nodes@.len(),
            c@ == name@,
            last_named(nodes@, name@, k as int) == last_named(nodes@, name@, nodes@.len() as int),
        decreases k,
    {
        let d = chars_of(nodes[k - 1].name.as_str());
        if eq(d.as_slice(), c.as_slice()) {
            return Some(k - 1);
        }
        k = k - 1;
    }
    None
}

pub open spec fn opt_pos(o: Option<usize>) -> Option<int> {
    match o {
        Some(p) => Some(p as int),
        None => None,
    }
}

fn push_at(adj: &mut Vec<Vec<usize>>, i: usize, x: usize)
    requires
        i < old(adj)@.len(),
    ensures
        final(adj)@.len() == old(adj)@.len(),
        nested(final(adj)@) == nested(old(adj)@).update(i as int, old(adj)@[i as int]@.push(x)),
{
    let mut v: Vec<usize> = Vec::new();
    let mut j: usize = 0;
    while j < adj[i].len()
        invariant
            i < adj@.len(),
            adj@ == old(adj)@,
            j <= adj@[i as int]@.len(),
            v@ =~= adj@[i as int]@.take(j as int),
        decreases adj@[i as int]@.len() - j,
    {
        v.push(adj[i][j]);
        j = j + 1;
    }
    assert(adj@[i as int]@.take(adj@[i as int]@.len() as int) =~= adj@[i as int]@);
    v.push(x);
    let ghost before = adj@;
    adj.set(i, v);
    assert(nested(adj@) =~= nested(before).update(i as int, before[i as int]@.push(x)));
}

proof fn lemma_sorted_stays_below(layer: Seq<usize>, nbrs: Seq<Seq<usize>>, r: Seq<usize>, n: nat)
    requires
        nbrs.len() == layer.len(),
        forall|i: int| 0 <= i < layer.len() ==> layer[i] < n,
    ensures
        bary_sorted(layer, nbrs, r).len() == layer.len(),
        forall|i: int| 0 <= i < bary_sorted(layer, nbrs, r).len() ==> bary_sorted(layer, nbrs, r)[i] < n,
{
    broadcast use vstd::seq_lib::group_to_multiset_ensures;

    law_bary_sort_rearranges(layer, nbrs, r);
    let s = bary_sorted(layer, nbrs, r);
    vstd::seq_lib::to_multiset_len(s);
    vstd::seq_lib::to_multiset_len(layer);
    assert forall|i: int| 0 <= i < s.len() implies s[i] < n by {
        assert(s.to_multiset().contains(s[i]));
        assert(layer.to_multiset().contains(s[i]));
        assert(layer.contains(s[i]));
    }
}

/// The two columns of `d` after `sweeps` alternating sweeps (see
/// [`spec_use_case_columns`]): actors, then use cases, by node position.
pub fn use_case_columns(d: &UseCaseDiagram, sweeps: usize) -> (r: (Vec<usize>, Vec<usize>))
    ensures
        (r.0@, r.1@) == spec_use_case_columns(*d, sweeps as nat),
{
    let n = d.nodes.len();
    let mut left: Vec<usize> = Vec::new();
    let mut right: Vec<usize> = Vec::new();
    let mut k: usize = 0;
    while k < n
        invariant
            k <= n,
            n == d.nodes@.len(),
            left@ == column_of(d.nodes@, NodeKind::Actor, k as int),
            right@ == column_of(d.nodes@, NodeKind::UseCase, k as int),
            forall|i: int| 0 <= i < left@.len() ==> left@[i] < n,
            forall|i: int| 0 <= i < right@.len() ==> right@[i] < n,
        decreases n - k,
    {
        match d.nodes[k].kind {
            NodeKind::Actor => left.push(k),
            NodeKind::UseCase => right.push(k),
        }
        k = k + 1;
    }
    let mut adj: Vec<Vec<usize>> = Vec::new();
    let mut k: usize = 0;
    while k < n
        invariant
            k <= n,
            n == d.nodes@.len(),
            adj@.len() == k,
            forall|i: int| 0 <= i < k ==> (#[trigger] adj@[i])@.len() == 0,
        decreases n - k,
    {
        adj.push(Vec::new());
        k = k + 1;
    }
    assert forall|i: int| 0 <= i < n implies #[trigger] nested(adj@)[i] =~= Seq::<usize>::empty() by {
        assert(nested(adj@)[i] == adj@[i]@);
    }
    assert(nested(adj@) =~= cross_adjacency(d.nodes@, d.associations@, 0));
    let mut a: usize = 0;
    while a < d.associations.len()
        invariant
            a <= d.associations@.len(),
            n == d.nodes@.len(),
            adj@.len() == n,
            nested(adj@) == cross_adjacency(d.nodes@, d.associations@, a as int),
        decreases d.associations.len() - a,
    {
        let assoc = &d.associations[a];
        let fi = find_last_named(&d.nodes, &assoc.from);
        let ti = find_last_named(&d.nodes, &assoc.to);
        match (fi, ti) {
            (Some(i), Some(j)) => {
                if d.nodes[i].kind != d.nodes[j].kind {
                    push_at(&mut adj, i, j);
                    push_at(&mut adj, j, i);
                }
            },
            _ => {},
        }
        a = a + 1;
    }
    let ghost adjv = nested(adj@);
    let mut s: usize = 0;
    while s < sweeps
        invariant
            s <= sweeps,
            n == d.nodes@.len(),
            adj@.len() == n,
            nested(adj@) == adjv,
            adjv == cross_adjacency(d.nodes@, d.associations@, d.associations@.len() as int),
            (left@, right@) == column_sweeps(
                column_of(d.nodes@, NodeKind::Actor, n as int),
                column_of(d.nodes@, NodeKind::UseCase, n as int),
                adjv,
                s as nat,
            ),
            forall|i: int| 0 <= i < left@.len() ==> left@[i] < n,
            forall|i: int| 0 <= i < right@.len() ==> right@[i] < n,
        decreases sweeps - s,
    {
        proof {
            lemma_sorted_stays_below(right@, column_neighbours(right@, adjv), left@, n as nat);
        }
        sort_by_barycenter(&mut right, left.as_slice(), &adj);
        proof {
            lemma_sorted_stays_below(left@, column_neighbours(left@, adjv), right@, n as nat);
        }
        sort_by_barycenter(&mut left, right.as_slice(), &adj);
        s = s + 1;
    }
    (left, right)
}

} // verus!
