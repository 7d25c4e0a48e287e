//! Layout steps shared by the layered (Sugiyama-style) diagram layouts:
//! crossing reduction by barycentres and placement on a column grid.
//!
//! Barycentres are compared exactly, as fractions, so the orders computed
//! here do not depend on rounding.
use vstd::prelude::*;
use std::collections::HashMap;
use vstd::multiset::Multiset;
use vstd::relations::{sorted_by, total_ordering};

verus! {

// ---------------------------------------------------------------------------
// Barycentres
// ---------------------------------------------------------------------------

/// Position of the last occurrence of `x` in `r`.
pub open spec fn last_pos(r: Seq<usize>, x: usize) -> Option<int>
    decreases r.len(),
{
    if r.len() == 0 {
        None
    } else if r.last() == x {
        Some(r.len() - 1)
    } else {
        last_pos(r.drop_last(), x)
    }
}

/// Sum of the positions in `r` of the neighbours `ns` that occur there.
pub open spec fn placed_sum(ns: Seq<usize>, r: Seq<usize>) -> int
    decreases ns.len(),
{
    if ns.len() == 0 {
        0
    } else {
        placed_sum(ns.drop_last(), r) + match last_pos(r, ns.last()) {
            Some(p) => p,
            None => 0,
        }
    }
}

/// How many of the neighbours `ns` occur in `r`.
pub open spec fn placed_count(ns: Seq<usize>, r: Seq<usize>) -> int
    decreases ns.len(),
{
    if ns.len() == 0 {
        0
    } else {
        placed_count(ns.drop_last(), r) + if last_pos(r, ns.last()) is Some {
            1int
        } else {
            0int
        }
    }
}

/// The barycentre of the node at position `i`, as a fraction
/// `(numerator, denominator)`: the mean position in `r` of its neighbours
/// `nbrs[i]`, or `i` itself when none of them is in `r`.
pub open spec fn bary_key(nbrs: Seq<Seq<usize>>, r: Seq<usize>, i: int) -> (int, int) {
    if 0 <= i < nbrs.len() && placed_count(nbrs[i], r) > 0 {
        (placed_sum(nbrs[i], r), placed_count(nbrs[i], r))
    } else {
        (i, 1)
    }
}

/// Position `i` goes before position `j`: a smaller barycentre, or an equal
/// one and an earlier position.
pub open spec fn bary_leq(nbrs: Seq<Seq<usize>>, r: Seq<usize>) -> spec_fn(int, int) -> bool {
    |i: int, j: int|
        {
            let a = bary_key(nbrs, r, i);
            let b = bary_key(nbrs, r, j);
            a.0 * b.1 < b.0 * a.1 || (a.0 * b.1 == b.0 * a.1 && i <= j)
        }
}

pub open spec fn positions(n: nat) -> Seq<int> {
    Seq::new(n, |i: int| i)
}

/// The order of the positions of a layer once sorted by barycentre.
pub open spec fn bary_order(nbrs: Seq<Seq<usize>>, r: Seq<usize>) -> Seq<int> {
    positions(nbrs.len()).sort_by(bary_leq(nbrs, r))
}

/// `layer` sorted by the barycentres of its nodes' neighbours `nbrs` in the
/// reference layer `r`, ties kept in their current order.
pub open spec fn bary_sorted(layer: Seq<usize>, nbrs: Seq<Seq<usize>>, r: Seq<usize>) -> Seq<usize> {
    bary_order(nbrs, r).map_values(|p: int| layer[p])
}

proof fn lemma_last_pos(r: Seq<usize>, x: usize)
    ensures
        last_pos(r, x) is Some ==> ({
            let p = last_pos(r, x)->0;
            &&& 0 <= p < r.len()
            &&& r[p] == x
            &&& forall|q: int| p < q < r.len() ==> r[q] != x
        }),
        last_pos(r, x) is None ==> forall|q: int| 0 <= q < r.len() ==> r[q] != x,
    decreases r.len(),
{
    if r.len() > 0 {
        let d = r.drop_last();
        lemma_last_pos(d, x);
        assert forall|q: int| 0 <= q < r.len() - 1 implies r[q] == #[trigger] d[q] by {}
        if r.last() != x {
            if last_pos(d, x) is Some {
                let p = last_pos(d, x)->0;
                assert forall|q: int| p < q < r.len() implies r[q] != x by {
                    if q < r.len() - 1 {
                        assert(d[q] != x);
                    }
                }
            } else {
                assert forall|q: int| 0 <= q < r.len() implies r[q] != x by {
                    if q < r.len() - 1 {
                        assert(d[q] != x);
                    }
                }
            }
        }
    }
}

proof fn lemma_placed_count_nonneg(ns: Seq<usize>, r: Seq<usize>)
    ensures
        0 <= placed_count(ns, r) <= ns.len(),
        0 <= placed_sum(ns, r),
    decreases ns.len(),
{
    if ns.len() > 0 {
        lemma_placed_count_nonneg(ns.drop_last(), r);
        lemma_last_pos(r, ns.last());
    }
}

proof fn lemma_cross_transitive(a0: int, a1: int, b0: int, b1: int, c0: int, c1: int)
    requires
        a1 > 0,
        b1 > 0,
        c1 > 0,
        a0 * b1 <= b0 * a1,
        b0 * c1 <= c0 * b1,
    ensures
        a0 * c1 <= c0 * a1,
        (a0 * b1 < b0 * a1 || b0 * c1 < c0 * b1) ==> a0 * c1 < c0 * a1,
{
    assert(a0 * b1 * c1 <= b0 * a1 * c1) by (nonlinear_arith)
        requires
            a0 * b1 <= b0 * a1,
            c1 > 0,
    ;
    assert(b0 * c1 * a1 <= c0 * b1 * a1) by (nonlinear_arith)
        requires
            b0 * c1 <= c0 * b1,
            a1 > 0,
    ;
    assert(a0 * c1 * b1 <= c0 * a1 * b1) by (nonlinear_arith)
        requires
            a0 * b1 * c1 <= b0 * a1 * c1,
            b0 * c1 * a1 <= c0 * b1 * a1,
    ;
    assert(a0 * c1 <= c0 * a1) by (nonlinear_arith)
        requires
            a0 * c1 * b1 <= c0 * a1 * b1,
            b1 > 0,
    ;
    if a0 * b1 < b0 * a1 || b0 * c1 < c0 * b1 {
        assert(a0 * c1 * b1 < c0 * a1 * b1) by (nonlinear_arith)
            requires
                a0 * b1 <= b0 * a1,
                b0 * c1 <= c0 * b1,
                a0 * b1 < b0 * a1 || b0 * c1 < c0 * b1,
                a1 > 0,
                b1 > 0,
                c1 > 0,
        ;
        assert(a0 * c1 < c0 * a1) by (nonlinear_arith)
            requires
                a0 * c1 * b1 < c0 * a1 * b1,
                b1 > 0,
        ;
    }
}

proof fn lemma_bary_leq_total(nbrs: Seq<Seq<usize>>, r: Seq<usize>)
    ensures
        total_ordering(bary_leq(nbrs, r)),
{
    let leq = bary_leq(nbrs, r);
    assert forall|i: int| #[trigger] bary_key(nbrs, r, i).1 > 0 by {
        if 0 <= i < nbrs.len() {
            lemma_placed_count_nonneg(nbrs[i], r);
        }
    }
    assert forall|x: int, y: int, z: int| #[trigger] leq(x, y) && #[trigger] leq(y, z) implies leq(
        x,
        z,
    ) by {
        let a = bary_key(nbrs, r, x);
        let b = bary_key(nbrs, r, y);
        let c = bary_key(nbrs, r, z);
        assert(a.1 > 0 && b.1 > 0 && c.1 > 0);
        lemma_cross_transitive(a.0, a.1, b.0, b.1, c.0, c.1);
    }
    assert forall|x: int, y: int| #[trigger] leq(x, y) && #[trigger] leq(y, x) implies x == y by {
        let a = bary_key(nbrs, r, x);
        let b = bary_key(nbrs, r, y);
    }
    assert forall|x: int, y: int| #[trigger] leq(x, y) || #[trigger] leq(y, x) by {
        let a = bary_key(nbrs, r, x);
        let b = bary_key(nbrs, r, y);
    }
    assert forall|x: int| #[trigger] leq(x, x) by {}
}

/// Rearranging a sequence rearranges its image under any map.
pub proof fn lemma_multiset_map<A, B>(a: Seq<A>, b: Seq<A>, f: spec_fn(A) -> B)
    requires
        a.to_multiset() == b.to_multiset(),
    ensures
        a.map_values(f).to_multiset() == b.map_values(f).to_multiset(),
    decreases a.len(),
{
    broadcast use vstd::seq_lib::group_to_multiset_ensures;
    broadcast use vstd::multiset::group_multiset_axioms;

    if a.len() == 0 {
        assert(b.to_multiset().len() == 0);
        assert(b.len() == 0);
        assert(a.map_values(f) =~= Seq::<B>::empty());
        assert(b.map_values(f) =~= Seq::<B>::empty());
    } else {
        let x = a[0];
        assert(a.to_multiset().contains(x)) by {
            assert(a.contains(x));
        }
        assert(b.contains(x));
        let i = choose|i: int| 0 <= i < b.len() && b[i] == x;
        let a1 = a.drop_first();
        let b1 = b.remove(i);
        assert(a =~= seq![x] + a1);
        assert(a1.to_multiset() =~= a.to_multiset().remove(x)) by {
            vstd::seq_lib::lemma_multiset_commutative(seq![x], a1);
            assert(seq![x].to_multiset() =~= Multiset::singleton(x)) by {
                assert(seq![x] =~= Seq::<A>::empty().push(x));
            }
        }
        assert(b1.to_multiset() =~= b.to_multiset().remove(x));
        lemma_multiset_map(a1, b1, f);
        assert(a.map_values(f) =~= seq![f(x)] + a1.map_values(f));
        assert(b.map_values(f) =~= b1.map_values(f).insert(i, f(x)));
        vstd::seq_lib::lemma_multiset_commutative(seq![f(x)], a1.map_values(f));
        assert(seq![f(x)].to_multiset() =~= Multiset::singleton(f(x))) by {
            assert(seq![f(x)] =~= Seq::<B>::empty().push(f(x)));
        }
    }
}

/// Sorting a layer by barycentre only moves its nodes: it holds the same
/// nodes, each as often as before.
pub proof fn law_bary_sort_rearranges(layer: Seq<usize>, nbrs: Seq<Seq<usize>>, r: Seq<usize>)
    requires
        nbrs.len() == layer.len(),
    ensures
        bary_sorted(layer, nbrs, r).to_multiset() == layer.to_multiset(),
{
    lemma_bary_leq_total(nbrs, r);
    positions(nbrs.len()).lemma_sort_by_ensures(bary_leq(nbrs, r));
    let f = |p: int| layer[p];
    lemma_multiset_map(bary_order(nbrs, r), positions(nbrs.len()), f);
    assert(positions(nbrs.len()).map_values(f) =~= layer);
}

/// A layer none of whose nodes has a neighbour in the reference layer keeps
/// its order: every node's barycentre is its own position.
pub proof fn law_orphan_layer_keeps_its_order(layer: Seq<usize>, nbrs: Seq<Seq<usize>>, r: Seq<usize>)
    requires
        nbrs.len() == layer.len(),
        forall|i: int| 0 <= i < nbrs.len() ==> placed_count(#[trigger] nbrs[i], r) == 0,
    ensures
        bary_sorted(layer, nbrs, r) == layer,
{
    let leq = bary_leq(nbrs, r);
    let ps = positions(nbrs.len());
    lemma_bary_leq_total(nbrs, r);
    assert(sorted_by(ps, leq)) by {
        assert forall|i: int, j: int| 0 <= i < j < ps.len() implies #[trigger] leq(ps[i], ps[j]) by {
            assert(bary_key(nbrs, r, i) == (i, 1int));
            assert(bary_key(nbrs, r, j) == (j, 1int));
        }
    }
    ps.lemma_sort_by_ensures(leq);
    vstd::seq_lib::lemma_sorted_unique(ps, ps.sort_by(leq), leq);
    assert(bary_sorted(layer, nbrs, r) =~= layer);
}

// ---------------------------------------------------------------------------
// Sorting a layer by barycentre
// ---------------------------------------------------------------------------

pub open spec fn nested(v: Seq<Vec<usize>>) -> Seq<Seq<usize>> {
    v.map_values(|x: Vec<usize>| x@)
}

/// Position of the last occurrence of `x` in `r`.
fn last_position(r: &[usize], x: usize) -> (res: Option<usize>)
    ensures
        match res {
            Some(p) => last_pos(r@, x) == Some(p as int),
            None => last_pos(r@, x) is None,
        },
{
    let mut j: usize = r.len();
    assert(r@.take(j as int) =~= r@);
    while j > 0
        invariant
            j <= r@.len(),
            last_pos(r@, x) == last_pos(r@.take(j as int), x),
        decreases j,
    {
        assert(r@.take(j as int).drop_last() =~= r@.take(j - 1));
        if r[j - 1] == x {
            return Some(j - 1);
        }
        j = j - 1;
    }
    None
}

/// Sum and count of the positions in `r` of the neighbours `ns`.
fn placed_sum_count(ns: &[usize], r: &[usize]) -> (res: (u128, u128))
    ensures
        res.0 == placed_sum(ns@, r@),
        res.1 == placed_count(ns@, r@),
        res.1 <= ns@.len(),
{
    let mut sum: u128 = 0;
    let mut count: u128 = 0;
    let mut k: usize = 0;
    while k < ns.len()
        invariant
            k <= ns@.len(),
            sum == placed_sum(ns@.take(k as int), r@),
            count == placed_count(ns@.take(k as int), r@),
            count <= k,
            sum <= k * 0x1_0000_0000_0000_0000u128,
        decreases ns.len() - k,
    {
        assert(ns@.take(k + 1).drop_last() =~= ns@.take(k as int));
        match last_position(r, ns[k]) {
            Some(p) => {
                sum = sum + p as u128;
                count = count + 1;
            },
            None => {},
        }
        k = k + 1;
    }
    assert(ns@.take(k as int) =~= ns@);
    (sum, count)
}

/// Exact barycentre of each position, as `(numerator, denominator)`.
fn bary_keys(nbrs: &Vec<Vec<usize>>, r: &[usize]) -> (keys: Vec<(u128, u128)>)
    ensures
        keys@.len() == nbrs@.len(),
        forall|i: int|
            0 <= i < keys@.len() ==> keys@[i].0 == bary_key(nested(nbrs@), r@, i).0 && keys@[i].1
                == bary_key(nested(nbrs@), r@, i).1 && 0 < keys@[i].1 <= u64::MAX,
{
    let mut keys: Vec<(u128, u128)> = Vec::new();
    let mut i: usize = 0;
    while i < nbrs.len()
        invariant
            i <= nbrs@.len(),
            keys@.len() == i,
            forall|j: int|
                0 <= j < i ==> keys@[j].0 == bary_key(nested(nbrs@), r@, j).0 && keys@[j].1
                    == bary_key(nested(nbrs@), r@, j).1 && 0 < keys@[j].1 <= u64::MAX,
        decreases nbrs.len() - i,
    {
        let (sum, count) = placed_sum_count(nbrs[i].as_slice(), r);
        assert(nested(nbrs@)[i as int] == nbrs@[i as int]@);
        assert(nbrs[i as int]@.len() == nbrs[i as int].len());
        let ghost key = bary_key(nested(nbrs@), r@, i as int);
        if count == 0 {
            keys.push((i as u128, 1));
        } else {
            keys.push((sum, count));
        }
        assert(keys@[i as int].0 == key.0 && keys@[i as int].1 == key.1 && 0 < keys@[i as int].1
            <= u64::MAX);
        i = i + 1;
    }
    keys
}

proof fn lemma_cross_by_parts(a0: int, a1: int, b0: int, b1: int)
    requires
        a1 > 0,
        b1 > 0,
        a0 >= 0,
        b0 >= 0,
    ensures
        ({
            let (qa, ra, qb, rb) = (a0 / a1, a0 % a1, b0 / b1, b0 % b1);
            &&& (a0 * b1 < b0 * a1) == (qa < qb || (qa == qb && ra * b1 < rb * a1))
            &&& (a0 * b1 == b0 * a1) == (qa == qb && ra * b1 == rb * a1)
        }),
{
    let (qa, ra, qb, rb) = (a0 / a1, a0 % a1, b0 / b1, b0 % b1);
    assert(a0 == qa * a1 + ra && 0 <= ra < a1) by (nonlinear_arith)
        requires
            a1 > 0,
            qa == a0 / a1,
            ra == a0 % a1,
    ;
    assert(b0 == qb * b1 + rb && 0 <= rb < b1) by (nonlinear_arith)
        requires
            b1 > 0,
            qb == b0 / b1,
            rb == b0 % b1,
    ;
    assert(a0 * b1 - b0 * a1 == (qa - qb) * a1 * b1 + (ra * b1 - rb * a1)) by (nonlinear_arith)
        requires
            a0 == qa * a1 + ra,
            b0 == qb * b1 + rb,
    ;
    assert(ra * b1 - rb * a1 < a1 * b1 && rb * a1 - ra * b1 < a1 * b1) by (nonlinear_arith)
        requires
            0 <= ra < a1,
            0 <= rb < b1,
    ;
    if qa < qb {
        assert((qa - qb) * a1 * b1 <= -(a1 * b1)) by (nonlinear_arith)
            requires
                qa < qb,
                a1 > 0,
                b1 > 0,
        ;
    } else if qa > qb {
        assert((qa - qb) * a1 * b1 >= a1 * b1) by (nonlinear_arith)
            requires
                qa > qb,
                a1 > 0,
                b1 > 0,
        ;
    } else {
        assert((qa - qb) * a1 * b1 == 0) by (nonlinear_arith)
            requires
                qa == qb,
        ;
    }
}

/// Whether key `a` at position `i` goes before key `b` at position `j`.
fn key_leq(a: (u128, u128), i: usize, b: (u128, u128), j: usize) -> (res: bool)
    requires
        0 < a.1 <= u64::MAX,
        0 < b.1 <= u64::MAX,
    ensures
        res == (a.0 * b.1 < b.0 * a.1 || (a.0 * b.1 == b.0 * a.1 && i <= j)),
{
    proof {
        lemma_cross_by_parts(a.0 as int, a.1 as int, b.0 as int, b.1 as int);
    }
    let qa = a.0 / a.1;
    let ra = a.0 % a.1;
    let qb = b.0 / b.1;
    let rb = b.0 % b.1;
    if qa != qb {
        return qa < qb;
    }
    assert(ra * b.1 <= u64::MAX * u64::MAX) by (nonlinear_arith)
        requires
            ra < a.1 <= u64::MAX,
            b.1 <= u64::MAX,
    ;
    assert(rb * a.1 <= u64::MAX * u64::MAX) by (nonlinear_arith)
        requires
            rb < b.1 <= u64::MAX,
            a.1 <= u64::MAX,
    ;
    let x = ra * b.1;
    let y = rb * a.1;
    x < y || (x == y && i <= j)
}

pub open spec fn ints(s: Seq<usize>) -> Seq<int> {
    s.map_values(|x: usize| x as int)
}

proof fn lemma_insert_sorted(g: Seq<int>, p: int, k: int, leq: spec_fn(int, int) -> bool)
    requires
        total_ordering(leq),
        sorted_by(g, leq),
        0 <= p <= g.len(),
        forall|j: int| 0 <= j < p ==> #[trigger] leq(g[j], k),
        p < g.len() ==> !leq(g[p], k),
    ensures
        sorted_by(g.insert(p, k), leq),
{
    let h = g.insert(p, k);
    if p < g.len() {
        assert(leq(k, g[p]));
    }
    assert forall|a: int, b: int| 0 <= a < b < h.len() implies #[trigger] leq(h[a], h[b]) by {
        if b < p {
            assert(leq(g[a], g[b]));
        } else if b == p {
            assert(leq(g[a], k));
        } else if a < p {
            assert(leq(g[a], g[b - 1]));
        } else if a == p {
            if b - 1 > p {
                assert(leq(g[p], g[b - 1]));
            }
        } else {
            assert(leq(g[a - 1], g[b - 1]));
        }
    }
}

/// `layer` sorted by barycentre (see [`bary_sorted`]).
pub(crate) fn bary_sort_layer(layer: &[usize], nbrs: &Vec<Vec<usize>>, r: &[usize]) -> (out: Vec<usize>)
    requires
        nbrs@.len() == layer@.len(),
    ensures
        out@ == bary_sorted(layer@, nested(nbrs@), r@),
{
    broadcast use vstd::seq_lib::group_to_multiset_ensures;

    let keys = bary_keys(nbrs, r);
    let ghost nb = nested(nbrs@);
    let ghost leq = bary_leq(nb, r@);
    proof {
        lemma_bary_leq_total(nb, r@);
    }
    let n = layer.len();
    let mut sorted: Vec<usize> = Vec::new();
    let mut k: usize = 0;
    assert(positions(n as nat).take(0) =~= Seq::<int>::empty());
    while k < n
        invariant
            k <= n,
            n == layer@.len(),
            n == nbrs@.len(),
            nb == nested(nbrs@),
            leq == bary_leq(nb, r@),
            total_ordering(leq),
            keys@.len() == n,
            forall|i: int|
                0 <= i < n ==> keys@[i].0 == bary_key(nb, r@, i).0 && keys@[i].1 == bary_key(
                    nb,
                    r@,
                    i,
                ).1 && 0 < keys@[i].1 <= u64::MAX,
            sorted_by(ints(sorted@), leq),
            ints(sorted@).to_multiset() == positions(n as nat).take(k as int).to_multiset(),
            forall|j: int| 0 <= j < sorted@.len() ==> sorted@[j] < k,
            sorted@.len() == k,
        decreases n - k,
    {
        let ghost g = ints(sorted@);
        let mut p: usize = 0;
        while p < sorted.len() && key_leq(keys[sorted[p]], sorted[p], keys[k], k)
            invariant
                p <= sorted@.len(),
                k < n,
                g == ints(sorted@),
                leq == bary_leq(nb, r@),
                keys@.len() == n,
                forall|j: int| 0 <= j < sorted@.len() ==> sorted@[j] < k,
                forall|i: int|
                    0 <= i < n ==> keys@[i].0 == bary_key(nb, r@, i).0 && keys@[i].1 == bary_key(
                        nb,
                        r@,
                        i,
                    ).1 && 0 < keys@[i].1 <= u64::MAX,
                forall|j: int| 0 <= j < p ==> #[trigger] leq(g[j], k as int),
            decreases sorted.len() - p,
        {
            p = p + 1;
        }
        proof {
            lemma_insert_sorted(g, p as int, k as int, leq);
        }
        sorted.insert(p, k);
        proof {
            assert(ints(sorted@) =~= g.insert(p as int, k as int));
            assert(positions(n as nat).take(k + 1) =~= positions(n as nat).take(k as int).push(
                k as int,
            ));
            vstd::seq_lib::to_multiset_insert(g, p as int, k as int);
            vstd::seq_lib::to_multiset_build(positions(n as nat).take(k as int), k as int);
        }
        k = k + 1;
    }
    proof {
        let g = ints(sorted@);
        assert(positions(n as nat).take(n as int) =~= positions(n as nat));
        positions(n as nat).lemma_sort_by_ensures(leq);
        vstd::seq_lib::lemma_sorted_unique(g, bary_order(nb, r@), leq);
    }
    let mut out: Vec<usize> = Vec::new();
    let mut j: usize = 0;
    while j < n
        invariant
            j <= n,
            n == layer@.len(),
            sorted@.len() == n,
            forall|i: int| 0 <= i < n ==> sorted@[i] < n,
            ints(sorted@) == bary_order(nb, r@),
            out@ =~= bary_sorted(layer@, nb, r@).take(j as int),
        decreases n - j,
    {
        assert(ints(sorted@)[j as int] == sorted@[j as int] as int);
        out.push(layer[sorted[j]]);
        j = j + 1;
    }
    out
}

// ---------------------------------------------------------------------------
// Crossing reduction
// ---------------------------------------------------------------------------

/// Index of the last layer that holds `x`.
pub open spec fn layer_index(ls: Seq<Seq<usize>>, x: usize) -> Option<int>
    decreases ls.len(),
{
    if ls.len() == 0 {
        None
    } else if ls.last().contains(x) {
        Some(ls.len() - 1)
    } else {
        layer_index(ls.drop_last(), x)
    }
}

/// The neighbours of `x` in the layer just above it (`upward`) or just below
/// it, through the edges that join adjacent layers, in edge order. Layers
/// are those of `ls`; an edge whose ends are not both in a layer is ignored.
pub open spec fn adjacent_neighbours(
    ls: Seq<Seq<usize>>,
    edges: Seq<(usize, usize)>,
    x: usize,
    upward: bool,
) -> Seq<usize>
    decreases edges.len(),
{
    if edges.len() == 0 {
        seq![]
    } else {
        let prev = adjacent_neighbours(ls, edges.drop_last(), x, upward);
        let a = edges.last().0;
        let b = edges.last().1;
        match (layer_index(ls, a), layer_index(ls, b)) {
            (Some(la), Some(lb)) => {
                if la + 1 == lb {
                    if upward && b == x {
                        prev.push(a)
                    } else if !upward && a == x {
                        prev.push(b)
                    } else {
                        prev
                    }
                } else if lb + 1 == la {
                    if upward && a == x {
                        prev.push(b)
                    } else if !upward && b == x {
                        prev.push(a)
                    } else {
                        prev
                    }
                } else {
                    prev
                }
            },
            _ => prev,
        }
    }
}

/// The neighbour lists of the nodes of `layer`, position by position.
pub open spec fn neighbour_lists(
    ls: Seq<Seq<usize>>,
    edges: Seq<(usize, usize)>,
    layer: Seq<usize>,
    upward: bool,
) -> Seq<Seq<usize>> {
    Seq::new(layer.len(), |i: int| adjacent_neighbours(ls, edges, layer[i], upward))
}

/// Layer `li` of `cur` sorted by the barycentres of its neighbours in the
/// layer above (`upward`) or below; adjacency is that of `base`.
pub open spec fn reorder_step(
    cur: Seq<Seq<usize>>,
    base: Seq<Seq<usize>>,
    edges: Seq<(usize, usize)>,
    li: int,
    upward: bool,
) -> Seq<Seq<usize>> {
    let reference = if upward {
        cur[li - 1]
    } else {
        cur[li + 1]
    };
    cur.update(li, bary_sorted(cur[li], neighbour_lists(base, edges, cur[li], upward), reference))
}

/// The top-down half of a sweep, over layers `1..k`.
pub open spec fn down_pass(
    cur: Seq<Seq<usize>>,
    base: Seq<Seq<usize>>,
    edges: Seq<(usize, usize)>,
    k: int,
) -> Seq<Seq<usize>>
    decreases k,
{
    if k <= 1 {
        cur
    } else {
        reorder_step(down_pass(cur, base, edges, k - 1), base, edges, k - 1, true)
    }
}

/// The bottom-up half of a sweep, over the `m` layers below the last one,
/// from the bottom.
pub open spec fn up_pass(
    cur: Seq<Seq<usize>>,
    base: Seq<Seq<usize>>,
    edges: Seq<(usize, usize)>,
    m: int,
) -> Seq<Seq<usize>>
    decreases m,
{
    if m <= 0 {
        cur
    } else {
        reorder_step(up_pass(cur, base, edges, m - 1), base, edges, cur.len() - 1 - m, false)
    }
}

pub open spec fn sweep(cur: Seq<Seq<usize>>, base: Seq<Seq<usize>>, edges: Seq<(usize, usize)>) -> Seq<
    Seq<usize>,
> {
    up_pass(down_pass(cur, base, edges, cur.len() as int), base, edges, cur.len() - 1)
}

pub open spec fn sweep_n(
    cur: Seq<Seq<usize>>,
    base: Seq<Seq<usize>>,
    edges: Seq<(usize, usize)>,
    n: nat,
) -> Seq<Seq<usize>>
    decreases n,
{
    if n == 0 {
        cur
    } else {
        sweep(sweep_n(cur, base, edges, (n - 1) as nat), base, edges)
    }
}

/// The layers after `n` sweeps of barycentric crossing reduction; with
/// fewer than two layers or no edge, the layers as they are.
pub open spec fn spec_reorder_barycentric(
    ls: Seq<Seq<usize>>,
    edges: Seq<(usize, usize)>,
    n: nat,
) -> Seq<Seq<usize>> {
    if ls.len() < 2 || edges.len() == 0 {
        ls
    } else {
        sweep_n(ls, ls, edges, n)
    }
}

fn contains_node(v: &[usize], x: usize) -> (r: bool)
    ensures
        r == v@.contains(x),
{
    let mut j: usize = 0;
    while j < v.len()
        invariant
            j <= v@.len(),
            forall|q: int| 0 <= q < j ==> v@[q] != x,
        decreases v.len() - j,
    {
        if v[j] == x {
            return true;
        }
        j = j + 1;
    }
    false
}

fn find_layer(ls: &Vec<Vec<usize>>, x: usize) -> (r: Option<usize>)
    ensures
        match r {
            Some(li) => layer_index(nested(ls@), x) == Some(li as int),
            None => layer_index(nested(ls@), x) is None,
        },
{
    let ghost full = nested(ls@);
    let mut j: usize = ls.len();
    assert(full.take(j as int) =~= full);
    while j > 0
        invariant
            j <= ls@.len(),
            full == nested(ls@),
            layer_index(full, x) == layer_index(full.take(j as int), x),
        decreases j,
    {
        assert(full.take(j as int).drop_last() =~= full.take(j - 1));
        assert(full.take(j as int).last() == ls@[j - 1]@);
        if contains_node(ls[j - 1].as_slice(), x) {
            return Some(j - 1);
        }
        j = j - 1;
    }
    None
}

/// The layers of both ends of each edge.
fn edge_layers(ls: &Vec<Vec<usize>>, edges: &[(usize, usize)]) -> (r: Vec<(Option<usize>, Option<usize>)>)
    ensures
        r@.len() == edges@.len(),
        forall|k: int|
            0 <= k < r@.len() ==> opt_int(r@[k].0) == layer_index(nested(ls@), edges@[k].0)
                && opt_int(r@[k].1) == layer_index(nested(ls@), edges@[k].1),
{
    let mut r: Vec<(Option<usize>, Option<usize>)> = Vec::new();
    let mut k: usize = 0;
    while k < edges.len()
        invariant
            k <= edges@.len(),
            r@.len() == k,
            forall|q: int|
                0 <= q < k ==> opt_int(r@[q].0) == layer_index(nested(ls@), edges@[q].0)
                    && opt_int(r@[q].1) == layer_index(nested(ls@), edges@[q].1),
        decreases edges.len() - k,
    {
        let (a, b) = edges[k];
        let la = find_layer(ls, a);
        let lb = find_layer(ls, b);
        r.push((la, lb));
        k = k + 1;
    }
    r
}

pub open spec fn opt_int(o: Option<usize>) -> Option<int> {
    match o {
        Some(v) => Some(v as int),
        None => None,
    }
}

fn neighbours_of(
    x: usize,
    edges: &[(usize, usize)],
    el: &Vec<(Option<usize>, Option<usize>)>,
    upward: bool,
    Ghost(base): Ghost<Seq<Seq<usize>>>,
) -> (r: Vec<usize>)
    requires
        el@.len() == edges@.len(),
        forall|k: int|
            0 <= k < el@.len() ==> opt_int(el@[k].0) == layer_index(base, edges@[k].0) && opt_int(
                el@[k].1,
            ) == layer_index(base, edges@[k].1),
    ensures
        r@ == adjacent_neighbours(base, edges@, x, upward),
{
    let mut r: Vec<usize> = Vec::new();
    let mut k: usize = 0;
    while k < edges.len()
        invariant
            k <= edges@.len(),
            el@.len() == edges@.len(),
            forall|q: int|
                0 <= q < el@.len() ==> opt_int(el@[q].0) == layer_index(base, edges@[q].0)
                    && opt_int(el@[q].1) == layer_index(base, edges@[q].1),
            r@ == adjacent_neighbours(base, edges@.take(k as int), x, upward),
        decreases edges.len() - k,
    {
        assert(edges@.take(k + 1).drop_last() =~= edges@.take(k as int));
        let (a, b) = edges[k];
        match el[k] {
            (Some(la), Some(lb)) => {
                if la < usize::MAX && la + 1 == lb {
                    if upward && b == x {
                        r.push(a);
                    } else if !upward && a == x {
                        r.push(b);
                    }
                } else if lb < usize::MAX && lb + 1 == la {
                    if upward && a == x {
                        r.push(b);
                    } else if !upward && b == x {
                        r.push(a);
                    }
                }
            },
            _ => {},
        }
        k = k + 1;
    }
    assert(edges@.take(k as int) =~= edges@);
    r
}

fn layer_neighbours(
    layer: &[usize],
    edges: &[(usize, usize)],
    el: &Vec<(Option<usize>, Option<usize>)>,
    upward: bool,
    Ghost(base): Ghost<Seq<Seq<usize>>>,
) -> (r: Vec<Vec<usize>>)
    requires
        el@.len() == edges@.len(),
        forall|k: int|
            0 <= k < el@.len() ==> opt_int(el@[k].0) == layer_index(base, edges@[k].0) && opt_int(
                el@[k].1,
            ) == layer_index(base, edges@[k].1),
    ensures
        nested(r@) == neighbour_lists(base, edges@, layer@, upward),
{
    let mut r: Vec<Vec<usize>> = Vec::new();
    let mut i: usize = 0;
    while i < layer.len()
        invariant
            i <= layer@.len(),
            el@.len() == edges@.len(),
            forall|k: int|
                0 <= k < el@.len() ==> opt_int(el@[k].0) == layer_index(base, edges@[k].0)
                    && opt_int(el@[k].1) == layer_index(base, edges@[k].1),
            nested(r@) =~= neighbour_lists(base, edges@, layer@, upward).take(i as int),
        decreases layer.len() - i,
    {
        let ns = neighbours_of(layer[i], edges, el, upward, Ghost(base));
        let ghost before = r@;
        r.push(ns);
        assert(nested(r@) =~= nested(before).push(ns@));
        i = i + 1;
    }
    r
}

fn copy_layers(ls: &Vec<Vec<usize>>) -> (r: Vec<Vec<usize>>)
    ensures
        nested(r@) == nested(ls@),
{
    let mut r: Vec<Vec<usize>> = Vec::new();
    let mut i: usize = 0;
    while i < ls.len()
        invariant
            i <= ls@.len(),
            nested(r@) =~= nested(ls@).take(i as int),
        decreases ls.len() - i,
    {
        let mut c: Vec<usize> = Vec::new();
        let mut j: usize = 0;
        while j < ls[i].len()
            invariant
                i < ls@.len(),
                j <= ls@[i as int]@.len(),
                c@ =~= ls@[i as int]@.take(j as int),
            decreases ls[i as int]@.len() - j,
        {
            c.push(ls[i][j]);
            j = j + 1;
        }
        assert(ls@[i as int]@.take(ls@[i as int]@.len() as int) =~= ls@[i as int]@);
        let ghost before = r@;
        r.push(c);
        assert(nested(r@) =~= nested(before).push(c@));
        i = i + 1;
    }
    r
}

/// Reduces edge crossings between adjacent layers: each of `sweeps` sweeps
/// sorts every layer but the first by the barycentres of its nodes'
/// neighbours in the layer above, then every layer but the last, from the
/// bottom, by their neighbours in the layer below (see
/// [`spec_reorder_barycentric`]). A node with no neighbour there keeps its
/// position as its barycentre, and ties keep their order. Only edges between
/// adjacent layers count.
pub fn reorder_barycentric(layers: &mut Vec<Vec<usize>>, edges: &[(usize, usize)], sweeps: usize)
    ensures
        nested(final(layers)@) == spec_reorder_barycentric(
            nested(old(layers)@),
            edges@,
            sweeps as nat,
        ),
{
    if layers.len() < 2 || edges.len() == 0 {
        return ;
    }
    let base = copy_layers(layers);
    let ghost b = nested(base@);
    let el = edge_layers(&base, edges);
    let n = layers.len();
    let mut s: usize = 0;
    while s < sweeps
        invariant
            s <= sweeps,
            n == layers@.len(),
            n >= 2,
            b == nested(old(layers)@),
            el@.len() == edges@.len(),
            forall|k: int|
                0 <= k < el@.len() ==> opt_int(el@[k].0) == layer_index(b, edges@[k].0) && opt_int(
                    el@[k].1,
                ) == layer_index(b, edges@[k].1),
            nested(layers@) == sweep_n(b, b, edges@, s as nat),
        decreases sweeps - s,
    {
        let ghost start = nested(layers@);
        let mut li: usize = 1;
        while li < n
            invariant
                1 <= li <= n,
                n == layers@.len(),
                n == start.len(),
                el@.len() == edges@.len(),
                forall|k: int|
                    0 <= k < el@.len() ==> opt_int(el@[k].0) == layer_index(b, edges@[k].0)
                        && opt_int(el@[k].1) == layer_index(b, edges@[k].1),
                nested(layers@) == down_pass(start, b, edges@, li as int),
            decreases n - li,
        {
            let ghost cur = nested(layers@);
            let nb = layer_neighbours(layers[li].as_slice(), edges, &el, true, Ghost(b));
            assert(nested(nb@).len() == nb@.len());
            let sorted = bary_sort_layer(layers[li].as_slice(), &nb, layers[li - 1].as_slice());
            layers.set(li, sorted);
            assert(nested(layers@) =~= reorder_step(cur, b, edges@, li as int, true));
            li = li + 1;
        }
        let ghost mid = nested(layers@);
        let mut m: usize = 1;
        while m < n
            invariant
                1 <= m <= n,
                n == layers@.len(),
                n == mid.len(),
                el@.len() == edges@.len(),
                forall|k: int|
                    0 <= k < el@.len() ==> opt_int(el@[k].0) == layer_index(b, edges@[k].0)
                        && opt_int(el@[k].1) == layer_index(b, edges@[k].1),
                nested(layers@) == up_pass(mid, b, edges@, m - 1),
            decreases n - m,
        {
            let ghost cur = nested(layers@);
            let li = n - 1 - m;
            let nb = layer_neighbours(layers[li].as_slice(), edges, &el, false, Ghost(b));
            assert(nested(nb@).len() == nb@.len());
            let sorted = bary_sort_layer(layers[li].as_slice(), &nb, layers[li + 1].as_slice());
            layers.set(li, sorted);
            assert(nested(layers@) =~= reorder_step(cur, b, edges@, li as int, false));
            m = m + 1;
        }
        s = s + 1;
    }
}

/// The same number of layers, each holding the same nodes as before.
pub open spec fn same_layer_contents(a: Seq<Seq<usize>>, b: Seq<Seq<usize>>) -> bool {
    a.len() == b.len() && forall|i: int|
        0 <= i < a.len() ==> (#[trigger] a[i]).to_multiset() == b[i].to_multiset()
}

proof fn lemma_step_rearranges(
    cur: Seq<Seq<usize>>,
    base: Seq<Seq<usize>>,
    edges: Seq<(usize, usize)>,
    li: int,
    upward: bool,
)
    requires
        0 <= li < cur.len(),
    ensures
        same_layer_contents(reorder_step(cur, base, edges, li, upward), cur),
{
    let reference = if upward {
        cur[li - 1]
    } else {
        cur[li + 1]
    };
    law_bary_sort_rearranges(cur[li], neighbour_lists(base, edges, cur[li], upward), reference);
}

proof fn lemma_down_pass_rearranges(
    cur: Seq<Seq<usize>>,
    base: Seq<Seq<usize>>,
    edges: Seq<(usize, usize)>,
    k: int,
)
    requires
        k <= cur.len(),
    ensures
        same_layer_contents(down_pass(cur, base, edges, k), cur),
    decreases k,
{
    if k > 1 {
        lemma_down_pass_rearranges(cur, base, edges, k - 1);
        lemma_step_rearranges(down_pass(cur, base, edges, k - 1), base, edges, k - 1, true);
    }
}

proof fn lemma_up_pass_rearranges(
    cur: Seq<Seq<usize>>,
    base: Seq<Seq<usize>>,
    edges: Seq<(usize, usize)>,
    m: int,
)
    requires
        m < cur.len(),
    ensures
        same_layer_contents(up_pass(cur, base, edges, m), cur),
    decreases m,
{
    if m > 0 {
        lemma_up_pass_rearranges(cur, base, edges, m - 1);
        lemma_step_rearranges(up_pass(cur, base, edges, m - 1), base, edges, cur.len() - 1 - m, false);
    }
}

proof fn lemma_sweeps_rearrange(
    cur: Seq<Seq<usize>>,
    base: Seq<Seq<usize>>,
    edges: Seq<(usize, usize)>,
    n: nat,
)
    ensures
        same_layer_contents(sweep_n(cur, base, edges, n), cur),
    decreases n,
{
    if n > 0 {
        let prev = sweep_n(cur, base, edges, (n - 1) as nat);
        lemma_sweeps_rearrange(cur, base, edges, (n - 1) as nat);
        if prev.len() > 0 {
            lemma_down_pass_rearranges(prev, base, edges, prev.len() as int);
            let d = down_pass(prev, base, edges, prev.len() as int);
            lemma_up_pass_rearranges(d, base, edges, prev.len() - 1);
        }
    }
}

/// Crossing reduction only reorders nodes within their layers: the result
/// has as many layers, each with the same nodes, each as often as before.
pub proof fn law_reorder_keeps_layer_contents(
    ls: Seq<Seq<usize>>,
    edges: Seq<(usize, usize)>,
    n: nat,
)
    ensures
        same_layer_contents(spec_reorder_barycentric(ls, edges, n), ls),
{
    if !(ls.len() < 2 || edges.len() == 0) {
        lemma_sweeps_rearrange(ls, ls, edges, n);
    }
}

/// The edge joins no two adjacent layers of `ls`: one of its ends is in no
/// layer, or their layers are further apart than one.
pub open spec fn joins_no_adjacent_layers(ls: Seq<Seq<usize>>, e: (usize, usize)) -> bool {
    match (layer_index(ls, e.0), layer_index(ls, e.1)) {
        (Some(la), Some(lb)) => la + 1 != lb && lb + 1 != la,
        _ => true,
    }
}

proof fn lemma_ignored_edges_add_no_neighbour(
    ls: Seq<Seq<usize>>,
    es: Seq<(usize, usize)>,
    fs: Seq<(usize, usize)>,
    x: usize,
    upward: bool,
)
    requires
        forall|j: int| 0 <= j < fs.len() ==> joins_no_adjacent_layers(ls, #[trigger] fs[j]),
    ensures
        adjacent_neighbours(ls, es + fs, x, upward) == adjacent_neighbours(ls, es, x, upward),
    decreases fs.len(),
{
    if fs.len() == 0 {
        assert(es + fs =~= es);
    } else {
        let f0 = fs.drop_last();
        assert forall|j: int| 0 <= j < f0.len() implies joins_no_adjacent_layers(ls, #[trigger] f0[j]) by {
            assert(f0[j] == fs[j]);
        }
        lemma_ignored_edges_add_no_neighbour(ls, es, f0, x, upward);
        assert((es + fs).drop_last() =~= es + f0);
        assert((es + fs).last() == fs.last());
        assert(joins_no_adjacent_layers(ls, fs[fs.len() - 1]));
    }
}

proof fn lemma_ignored_edges_same_lists(
    base: Seq<Seq<usize>>,
    es: Seq<(usize, usize)>,
    fs: Seq<(usize, usize)>,
)
    requires
        forall|j: int| 0 <= j < fs.len() ==> joins_no_adjacent_layers(base, #[trigger] fs[j]),
    ensures
        forall|layer: Seq<usize>, upward: bool|
            #[trigger] neighbour_lists(base, es + fs, layer, upward) == neighbour_lists(
                base,
                es,
                layer,
                upward,
            ),
{
    assert forall|layer: Seq<usize>, upward: bool|
        #[trigger] neighbour_lists(base, es + fs, layer, upward) == neighbour_lists(base, es, layer, upward) by {
        assert forall|i: int| 0 <= i < layer.len() implies adjacent_neighbours(base, es + fs, layer[i], upward)
            == adjacent_neighbours(base, es, layer[i], upward) by {
            lemma_ignored_edges_add_no_neighbour(base, es, fs, layer[i], upward);
        }
        assert(neighbour_lists(base, es + fs, layer, upward) =~= neighbour_lists(base, es, layer, upward));
    }
}

proof fn lemma_ignored_edges_same_sweeps(
    cur: Seq<Seq<usize>>,
    base: Seq<Seq<usize>>,
    es: Seq<(usize, usize)>,
    fs: Seq<(usize, usize)>,
    n: nat,
)
    requires
        forall|j: int| 0 <= j < fs.len() ==> joins_no_adjacent_layers(base, #[trigger] fs[j]),
    ensures
        sweep_n(cur, base, es + fs, n) == sweep_n(cur, base, es, n),
    decreases n,
{
    lemma_ignored_edges_same_lists(base, es, fs);
    if n > 0 {
        lemma_ignored_edges_same_sweeps(cur, base, es, fs, (n - 1) as nat);
        let c = sweep_n(cur, base, es, (n - 1) as nat);
        lemma_same_down_pass(c, base, es, fs, c.len() as int);
        lemma_same_up_pass(down_pass(c, base, es, c.len() as int), base, es, fs, c.len() - 1);
    }
}

proof fn lemma_same_down_pass(
    cur: Seq<Seq<usize>>,
    base: Seq<Seq<usize>>,
    es: Seq<(usize, usize)>,
    fs: Seq<(usize, usize)>,
    k: int,
)
    requires
        forall|layer: Seq<usize>, upward: bool|
            #[trigger] neighbour_lists(base, es + fs, layer, upward) == neighbour_lists(
                base,
                es,
                layer,
                upward,
            ),
    ensures
        down_pass(cur, base, es + fs, k) == down_pass(cur, base, es, k),
    decreases k,
{
    if k > 1 {
        lemma_same_down_pass(cur, base, es, fs, k - 1);
        let c = down_pass(cur, base, es, k - 1);
        assert(neighbour_lists(base, es + fs, c[k - 1], true) == neighbour_lists(base, es, c[k - 1], true));
    }
}

proof fn lemma_same_up_pass(
    cur: Seq<Seq<usize>>,
    base: Seq<Seq<usize>>,
    es: Seq<(usize, usize)>,
    fs: Seq<(usize, usize)>,
    m: int,
)
    requires
        forall|layer: Seq<usize>, upward: bool|
            #[trigger] neighbour_lists(base, es + fs, layer, upward) == neighbour_lists(
                base,
                es,
                layer,
                upward,
            ),
    ensures
        up_pass(cur, base, es + fs, m) == up_pass(cur, base, es, m),
    decreases m,
{
    if m > 0 {
        lemma_same_up_pass(cur, base, es, fs, m - 1);
        let c = up_pass(cur, base, es, m - 1);
        let li = cur.len() - 1 - m;
        assert(neighbour_lists(base, es + fs, c[li], false) == neighbour_lists(base, es, c[li], false));
    }
}

proof fn lemma_step_without_edges(cur: Seq<Seq<usize>>, base: Seq<Seq<usize>>, li: int, upward: bool)
    requires
        0 <= li < cur.len(),
    ensures
        reorder_step(cur, base, Seq::empty(), li, upward) == cur,
{
    let reference = if upward {
        cur[li - 1]
    } else {
        cur[li + 1]
    };
    let nl = neighbour_lists(base, Seq::empty(), cur[li], upward);
    assert forall|i: int| 0 <= i < nl.len() implies placed_count(#[trigger] nl[i], reference) == 0 by {
        assert(nl[i] == adjacent_neighbours(base, Seq::empty(), cur[li][i], upward));
    }
    law_orphan_layer_keeps_its_order(cur[li], nl, reference);
    assert(cur.update(li, cur[li]) =~= cur);
}

proof fn lemma_down_pass_without_edges(cur: Seq<Seq<usize>>, base: Seq<Seq<usize>>, k: int)
    requires
        k <= cur.len(),
    ensures
        down_pass(cur, base, Seq::empty(), k) == cur,
    decreases k,
{
    if k > 1 {
        lemma_down_pass_without_edges(cur, base, k - 1);
        lemma_step_without_edges(cur, base, k - 1, true);
    }
}

proof fn lemma_up_pass_without_edges(cur: Seq<Seq<usize>>, base: Seq<Seq<usize>>, m: int)
    requires
        m < cur.len(),
    ensures
        up_pass(cur, base, Seq::empty(), m) == cur,
    decreases m,
{
    if m > 0 {
        lemma_up_pass_without_edges(cur, base, m - 1);
        lemma_step_without_edges(cur, base, cur.len() - 1 - m, false);
    }
}

proof fn lemma_sweeps_without_edges(cur: Seq<Seq<usize>>, base: Seq<Seq<usize>>, n: nat)
    ensures
        sweep_n(cur, base, Seq::empty(), n) == cur,
    decreases n,
{
    if n > 0 {
        lemma_sweeps_without_edges(cur, base, (n - 1) as nat);
        lemma_down_pass_without_edges(cur, base, cur.len() as int);
        lemma_up_pass_without_edges(cur, base, cur.len() - 1);
    }
}

/// Only edges between adjacent layers steer the ordering: adding edges each
/// of which has an end in no layer, or joins layers that are not adjacent,
/// leaves the result of crossing reduction as it is.
pub proof fn law_non_adjacent_edges_change_nothing(
    ls: Seq<Seq<usize>>,
    es: Seq<(usize, usize)>,
    fs: Seq<(usize, usize)>,
    n: nat,
)
    requires
        forall|j: int| 0 <= j < fs.len() ==> joins_no_adjacent_layers(ls, #[trigger] fs[j]),
    ensures
        spec_reorder_barycentric(ls, es + fs, n) == spec_reorder_barycentric(ls, es, n),
{
    if ls.len() >= 2 {
        lemma_ignored_edges_same_sweeps(ls, ls, es, fs, n);
        if es.len() == 0 {
            lemma_sweeps_without_edges(ls, ls, n);
            assert(Seq::<(usize, usize)>::empty() == es);
        }
    }
}

// ---------------------------------------------------------------------------
// Grid columns
// ---------------------------------------------------------------------------

/// The columns, in `col`, of those of `ns` that have one, in order.
pub open spec fn known_columns(ns: Seq<usize>, col: Map<usize, usize>) -> Seq<usize>
    decreases ns.len(),
{
    if ns.len() == 0 {
        seq![]
    } else if col.contains_key(ns.last()) {
        known_columns(ns.drop_last(), col).push(col[ns.last()])
    } else {
        known_columns(ns.drop_last(), col)
    }
}

pub open spec fn usize_leq() -> spec_fn(usize, usize) -> bool {
    |a: usize, b: usize| a <= b
}

/// The median of the columns of `ns` (the lower one of an even count), or
/// `None` when none of them has a column yet.
pub open spec fn spec_median_column(ns: Seq<usize>, col: Map<usize, usize>) -> Option<usize> {
    let cs = known_columns(ns, col);
    if cs.len() == 0 {
        None
    } else {
        Some(cs.sort_by(usize_leq())[((cs.len() - 1) / 2) as int])
    }
}

/// The top layer packed from column 0.
pub open spec fn top_columns(top: Seq<usize>) -> Map<usize, usize>
    decreases top.len(),
{
    if top.len() == 0 {
        Map::empty()
    } else {
        top_columns(top.drop_last()).insert(top.last(), (top.len() - 1) as usize)
    }
}

/// Placing the nodes of `layer` from the left: each at the median column of
/// its neighbours above, or further right when that column is taken; the
/// map after the placement and the first free column.
pub open spec fn place_layer(
    col: Map<usize, usize>,
    layer: Seq<usize>,
    ls: Seq<Seq<usize>>,
    edges: Seq<(usize, usize)>,
) -> (Map<usize, usize>, int)
    decreases layer.len(),
{
    if layer.len() == 0 {
        (col, 0)
    } else {
        let prev = place_layer(col, layer.drop_last(), ls, edges);
        let n = layer.last();
        let target = match spec_median_column(adjacent_neighbours(ls, edges, n, true), prev.0) {
            Some(t) => t as int,
            None => prev.1,
        };
        let placed = if target >= prev.1 {
            target
        } else {
            prev.1
        };
        (prev.0.insert(n, placed as usize), placed + 1)
    }
}

/// The columns after placing layers `1..k` below the top one.
pub open spec fn place_layers(
    col: Map<usize, usize>,
    ls: Seq<Seq<usize>>,
    edges: Seq<(usize, usize)>,
    k: int,
) -> Map<usize, usize>
    decreases k,
{
    if k <= 1 {
        col
    } else {
        place_layer(place_layers(col, ls, edges, k - 1), ls[k - 1], ls, edges).0
    }
}

/// The column of every node: the top layer packed from 0, every other
/// layer placed under the median of its nodes' parents (see
/// [`place_layer`]).
pub open spec fn spec_assign_grid_columns(ls: Seq<Seq<usize>>, edges: Seq<(usize, usize)>) -> Map<
    usize,
    usize,
> {
    if ls.len() == 0 {
        Map::empty()
    } else {
        place_layers(top_columns(ls[0]), ls, edges, ls.len() as int)
    }
}

/// How many nodes the layers hold in all.
pub open spec fn node_count(ls: Seq<Seq<usize>>) -> nat
    decreases ls.len(),
{
    if ls.len() == 0 {
        0
    } else {
        node_count(ls.drop_last()) + ls.last().len()
    }
}

/// Median column of `nodes` in the partly filled `col` (see
/// [`spec_median_column`]).
fn median_column(nodes: &[usize], col: &HashMap<usize, usize>) -> (r: Option<usize>)
    ensures
        r == spec_median_column(nodes@, col@),
{
    broadcast use vstd::std_specs::hash::group_hash_axioms;
    broadcast use vstd::seq_lib::group_to_multiset_ensures;

    let mut cols: Vec<usize> = Vec::new();
    let mut k: usize = 0;
    while k < nodes.len()
        invariant
            k <= nodes@.len(),
            cols@ == known_columns(nodes@.take(k as int), col@),
        decreases nodes.len() - k,
    {
        assert(nodes@.take(k + 1).drop_last() =~= nodes@.take(k as int));
        match col.get(&nodes[k]) {
            Some(c) => cols.push(*c),
            None => {},
        }
        k = k + 1;
    }
    assert(nodes@.take(k as int) =~= nodes@);
    if cols.len() == 0 {
        return None;
    }
    let ghost cs = cols@;
    let ghost leq = usize_leq();
    let mut sorted: Vec<usize> = Vec::new();
    let mut i: usize = 0;
    while i < cols.len()
        invariant
            i <= cols@.len(),
            cs == cols@,
            leq == usize_leq(),
            sorted_by(sorted@, leq),
            sorted@.to_multiset() == cs.take(i as int).to_multiset(),
        decreases cols.len() - i,
    {
        let x = cols[i];
        let mut p: usize = 0;
        while p < sorted.len() && sorted[p] <= x
            invariant
                p <= sorted@.len(),
                forall|j: int| 0 <= j < p ==> sorted@[j] <= x,
            decreases sorted.len() - p,
        {
            p = p + 1;
        }
        let ghost before = sorted@;
        sorted.insert(p, x);
        proof {
            assert forall|a: int, b: int| 0 <= a < b < sorted@.len() implies #[trigger] leq(
                sorted@[a],
                sorted@[b],
            ) by {
                if b < p {
                    assert(leq(before[a], before[b]));
                } else if b == p {
                } else if a < p {
                    assert(leq(before[a], before[b - 1]));
                } else if a == p {
                    assert(leq(before[p as int], before[b - 1]) || b - 1 == p);
                } else {
                    assert(leq(before[a - 1], before[b - 1]));
                }
            }
            vstd::seq_lib::to_multiset_insert(before, p as int, x);
            assert(cs.take(i + 1) =~= cs.take(i as int).push(x));
            vstd::seq_lib::to_multiset_build(cs.take(i as int), x);
        }
        i = i + 1;
    }
    proof {
        assert(cs.take(cs.len() as int) =~= cs);
        assert(vstd::relations::total_ordering(leq));
        cs.lemma_sort_by_ensures(leq);
        vstd::seq_lib::lemma_sorted_unique(sorted@, cs.sort_by(leq), leq);
        vstd::seq_lib::to_multiset_len(sorted@);
        vstd::seq_lib::to_multiset_len(cs);
        assert(sorted@.len() == cs.len());
    }
    Some(sorted[(sorted.len() - 1) / 2])
}

proof fn lemma_known_columns_bounded(ns: Seq<usize>, col: Map<usize, usize>, bound: int)
    requires
        forall|key: usize| col.contains_key(key) ==> col[key] < bound,
    ensures
        forall|j: int| 0 <= j < known_columns(ns, col).len() ==> known_columns(ns, col)[j] < bound,
    decreases ns.len(),
{
    if ns.len() > 0 {
        lemma_known_columns_bounded(ns.drop_last(), col, bound);
        let prev = known_columns(ns.drop_last(), col);
        if col.contains_key(ns.last()) {
            assert(col[ns.last()] < bound);
            assert forall|j: int| 0 <= j < prev.len() + 1 implies #[trigger] prev.push(
                col[ns.last()],
            )[j] < bound by {
                if j < prev.len() {
                    assert(prev[j] < bound);
                }
            }
        }
    }
}

proof fn lemma_median_bounded(ns: Seq<usize>, col: Map<usize, usize>, bound: int)
    requires
        forall|key: usize| col.contains_key(key) ==> col[key] < bound,
        spec_median_column(ns, col) is Some,
    ensures
        spec_median_column(ns, col)->0 < bound,
{
    let cs = known_columns(ns, col);
    lemma_known_columns_bounded(ns, col, bound);
    let leq = usize_leq();
    assert(vstd::relations::total_ordering(leq));
    cs.lemma_sort_by_ensures(leq);
    let sorted = cs.sort_by(leq);
    vstd::seq_lib::to_multiset_len(sorted);
    vstd::seq_lib::to_multiset_len(cs);
    let m = sorted[((cs.len() - 1) / 2) as int];
    assert(sorted.contains(m));
    assert(cs.contains(m));
}

proof fn lemma_node_count_take(ls: Seq<Seq<usize>>, i: int)
    requires
        0 <= i < ls.len(),
    ensures
        node_count(ls.take(i + 1)) == node_count(ls.take(i)) + ls[i].len(),
        node_count(ls.take(i + 1)) <= node_count(ls),
    decreases ls.len(),
{
    assert(ls.take(i + 1).drop_last() =~= ls.take(i));
    if i + 1 < ls.len() {
        lemma_node_count_take(ls.drop_last(), i);
        assert(ls.drop_last().take(i + 1) =~= ls.take(i + 1));
        assert(ls.drop_last().take(i) =~= ls.take(i));
    } else {
        assert(ls.take(i + 1) =~= ls);
    }
}

/// Places every node on an integer column grid: the top layer is packed
/// from column 0; each later layer, from the left, puts every node at the
/// median column of its parents in the layer above, or just right of the
/// node before when that column is taken or it has no placed parent (see
/// [`spec_assign_grid_columns`]). Only edges between adjacent layers count.
pub fn assign_grid_columns(layers: &Vec<Vec<usize>>, edges: &[(usize, usize)]) -> (col: HashMap<
    usize,
    usize,
>)
    requires
        node_count(nested(layers@)) < usize::MAX,
    ensures
        col@ == spec_assign_grid_columns(nested(layers@), edges@),
{
    broadcast use vstd::std_specs::hash::group_hash_axioms;

    let mut col: HashMap<usize, usize> = HashMap::new();
    if layers.len() == 0 {
        return col;
    }
    let ghost ls = nested(layers@);
    let top = &layers[0];
    let mut i: usize = 0;
    proof {
        lemma_node_count_take(ls, 0);
        assert(ls.take(0) =~= Seq::<Seq<usize>>::empty());
        assert(ls[0] == top@);
    }
    while i < top.len()
        invariant
            i <= top@.len(),
            ls == nested(layers@),
            ls.len() > 0,
            top@ == ls[0],
            col@ == top_columns(top@.take(i as int)),
            forall|key: usize| col@.contains_key(key) ==> col@[key] < i,
        decreases top.len() - i,
    {
        assert(top@.take(i + 1).drop_last() =~= top@.take(i as int));
        col.insert(top[i], i);
        i = i + 1;
    }
    assert(top@.take(top@.len() as int) =~= top@);
    let el = edge_layers(layers, edges);
    let mut li: usize = 1;
    while li < layers.len()
        invariant
            1 <= li <= layers@.len(),
            ls == nested(layers@),
            node_count(ls) < usize::MAX,
            el@.len() == edges@.len(),
            forall|k: int|
                0 <= k < el@.len() ==> opt_int(el@[k].0) == layer_index(ls, edges@[k].0) && opt_int(
                    el@[k].1,
                ) == layer_index(ls, edges@[k].1),
            col@ == place_layers(top_columns(ls[0]), ls, edges@, li as int),
            forall|key: usize| col@.contains_key(key) ==> col@[key] < node_count(ls.take(li as int)),
        decreases layers.len() - li,
    {
        proof {
            lemma_node_count_take(ls, li as int);
        }
        let layer = &layers[li];
        let ghost c0 = col@;
        let ghost base_count = node_count(ls.take(li as int));
        let mut next: usize = 0;
        let mut k: usize = 0;
        assert(layer@.take(0) =~= Seq::<usize>::empty());
        while k < layer.len()
            invariant
                k <= layer@.len(),
                layer@ == ls[li as int],
                ls == nested(layers@),
                base_count + layer@.len() <= node_count(ls),
                node_count(ls) < usize::MAX,
                el@.len() == edges@.len(),
                forall|q: int|
                    0 <= q < el@.len() ==> opt_int(el@[q].0) == layer_index(ls, edges@[q].0)
                        && opt_int(el@[q].1) == layer_index(ls, edges@[q].1),
                (col@, next as int) == place_layer(c0, layer@.take(k as int), ls, edges@),
                forall|key: usize| col@.contains_key(key) ==> col@[key] < base_count + k,
                next <= base_count + k,
            decreases layer.len() - k,
        {
            assert(layer@.take(k + 1).drop_last() =~= layer@.take(k as int));
            let n = layer[k];
            let preds = neighbours_of(n, edges, &el, true, Ghost(ls));
            let m = median_column(preds.as_slice(), &col);
            proof {
                if m is Some {
                    lemma_median_bounded(preds@, col@, base_count + k);
                }
            }
            let target = match m {
                Some(t) => t,
                None => next,
            };
            let placed = if target >= next {
                target
            } else {
                next
            };
            col.insert(n, placed);
            next = placed + 1;
            k = k + 1;
        }
        assert(layer@.take(layer@.len() as int) =~= layer@);
        li = li + 1;
    }
    col
}

proof fn lemma_place_layer_facts(
    col: Map<usize, usize>,
    layer: Seq<usize>,
    ls: Seq<Seq<usize>>,
    edges: Seq<(usize, usize)>,
)
    ensures
        ({
            let m = place_layer(col, layer, ls, edges).0;
            &&& forall|key: usize| col.contains_key(key) ==> m.contains_key(key)
            &&& forall|key: usize| !layer.contains(key) ==> m.contains_key(key) == col.contains_key(key)
                && m[key] == col[key]
            &&& forall|j: int| 0 <= j < layer.len() ==> m.contains_key(#[trigger] layer[j])
        }),
    decreases layer.len(),
{
    if layer.len() > 0 {
        let d = layer.drop_last();
        lemma_place_layer_facts(col, d, ls, edges);
        let n = layer.last();
        let prev = place_layer(col, d, ls, edges);
        let m = place_layer(col, layer, ls, edges).0;
        assert forall|j: int| 0 <= j < layer.len() - 1 implies layer[j] == #[trigger] d[j] by {}
        assert forall|key: usize| !layer.contains(key) implies !d.contains(key) && key != n by {
            if d.contains(key) {
                let j = choose|j: int| 0 <= j < d.len() && d[j] == key;
                assert(layer[j] == key);
            }
            assert(layer[layer.len() - 1] == n);
        }
        assert forall|key: usize| !layer.contains(key) implies m.contains_key(key)
            == col.contains_key(key) && m[key] == col[key] by {
            assert(!d.contains(key) && key != n);
        }
        assert forall|j: int| 0 <= j < layer.len() implies m.contains_key(#[trigger] layer[j]) by {
            if j < layer.len() - 1 {
                assert(prev.0.contains_key(d[j]));
            }
        }
    }
}

proof fn lemma_place_layer_order(
    col: Map<usize, usize>,
    layer: Seq<usize>,
    ls: Seq<Seq<usize>>,
    edges: Seq<(usize, usize)>,
    bound: int,
)
    requires
        bound >= 0,
        bound + layer.len() < usize::MAX,
        forall|key: usize| col.contains_key(key) ==> col[key] < bound,
    ensures
        ({
            let (m, next) = place_layer(col, layer, ls, edges);
            &&& 0 <= next <= bound + layer.len()
            &&& forall|key: usize| m.contains_key(key) ==> m[key] < bound + layer.len()
            &&& layer.no_duplicates() ==> forall|j: int|
                0 <= j < layer.len() ==> m[#[trigger] layer[j]] < next
            &&& layer.no_duplicates() ==> forall|i: int, j: int|
                0 <= i < j < layer.len() ==> m[#[trigger] layer[i]] < m[#[trigger] layer[j]]
        }),
    decreases layer.len(),
{
    if layer.len() > 0 {
        let d = layer.drop_last();
        lemma_place_layer_order(col, d, ls, edges, bound);
        let n = layer.last();
        let prev = place_layer(col, d, ls, edges);
        let (m, next) = place_layer(col, layer, ls, edges);
        let med = spec_median_column(adjacent_neighbours(ls, edges, n, true), prev.0);
        if med is Some {
            lemma_median_bounded(adjacent_neighbours(ls, edges, n, true), prev.0, bound + d.len());
        }
        let placed = next - 1;
        assert(prev.1 <= placed <= bound + d.len());
        assert(m == prev.0.insert(n, placed as usize));
        assert(m[n] == placed);
        assert forall|j: int| 0 <= j < layer.len() - 1 implies layer[j] == #[trigger] d[j] by {}
        if layer.no_duplicates() {
            assert(d.no_duplicates()) by {
                assert forall|i: int, j: int| 0 <= i < d.len() && 0 <= j < d.len() && i != j implies d[i]
                    != d[j] by {
                    assert(layer[i] != layer[j]);
                }
            }
            assert forall|j: int| 0 <= j < d.len() implies d[j] != n by {
                assert(layer[j] != layer[layer.len() - 1]);
            }
            assert forall|j: int| 0 <= j < layer.len() implies m[#[trigger] layer[j]] < next by {
                if j < layer.len() - 1 {
                    assert(d[j] != n);
                    assert(prev.0[d[j]] < prev.1);
                }
            }
            assert forall|i: int, j: int| 0 <= i < j < layer.len() implies m[#[trigger] layer[i]]
                < m[#[trigger] layer[j]] by {
                assert(d[i] != n);
                assert(m[layer[i]] == prev.0[d[i]]);
                if j < layer.len() - 1 {
                    assert(d[j] != n);
                    assert(prev.0[d[i]] < prev.0[d[j]]);
                } else {
                    assert(prev.0[d[i]] < prev.1);
                }
            }
        }
    }
}

proof fn lemma_place_layers_bounded(
    col: Map<usize, usize>,
    ls: Seq<Seq<usize>>,
    edges: Seq<(usize, usize)>,
    k: int,
)
    requires
        1 <= k <= ls.len(),
        node_count(ls) < usize::MAX,
        forall|key: usize| col.contains_key(key) ==> col[key] < node_count(ls.take(1)),
    ensures
        forall|key: usize|
            place_layers(col, ls, edges, k).contains_key(key) ==> place_layers(col, ls, edges, k)[key]
                < node_count(ls.take(k)),
    decreases k,
{
    if k > 1 {
        lemma_place_layers_bounded(col, ls, edges, k - 1);
        lemma_node_count_take(ls, k - 1);
        lemma_place_layer_order(
            place_layers(col, ls, edges, k - 1),
            ls[k - 1],
            ls,
            edges,
            node_count(ls.take(k - 1)) as int,
        );
    }
}

proof fn lemma_place_layers_keeps(
    col: Map<usize, usize>,
    ls: Seq<Seq<usize>>,
    edges: Seq<(usize, usize)>,
    k: int,
    key: usize,
)
    requires
        k <= ls.len(),
        forall|li: int| 1 <= li < k ==> !(#[trigger] ls[li]).contains(key),
    ensures
        place_layers(col, ls, edges, k).contains_key(key) == col.contains_key(key),
        place_layers(col, ls, edges, k)[key] == col[key],
    decreases k,
{
    if k > 1 {
        lemma_place_layers_keeps(col, ls, edges, k - 1, key);
        assert(!ls[k - 1].contains(key));
        lemma_place_layer_facts(place_layers(col, ls, edges, k - 1), ls[k - 1], ls, edges);
    }
}

proof fn lemma_place_layers_dom(
    col: Map<usize, usize>,
    ls: Seq<Seq<usize>>,
    edges: Seq<(usize, usize)>,
    k: int,
)
    requires
        k <= ls.len(),
    ensures
        forall|key: usize| col.contains_key(key) ==> place_layers(col, ls, edges, k).contains_key(
            key,
        ),
        forall|li: int, j: int|
            1 <= li < k && 0 <= j < ls[li].len() ==> place_layers(col, ls, edges, k).contains_key(
                #[trigger] ls[li][j],
            ),
    decreases k,
{
    if k > 1 {
        lemma_place_layers_dom(col, ls, edges, k - 1);
        lemma_place_layer_facts(place_layers(col, ls, edges, k - 1), ls[k - 1], ls, edges);
    }
}

proof fn lemma_top_columns(top: Seq<usize>)
    requires
        top.len() <= usize::MAX,
    ensures
        forall|key: usize| top_columns(top).contains_key(key) ==> top_columns(top)[key] < top.len(),
        forall|j: int| 0 <= j < top.len() ==> top_columns(top).contains_key(#[trigger] top[j]),
        top.no_duplicates() ==> forall|j: int|
            0 <= j < top.len() ==> top_columns(top)[#[trigger] top[j]] == j,
    decreases top.len(),
{
    if top.len() > 0 {
        let d = top.drop_last();
        lemma_top_columns(d);
        let n = top.last();
        assert(top_columns(top) == top_columns(d).insert(n, (top.len() - 1) as usize));
        assert((top.len() - 1) as usize == top.len() - 1);
        assert forall|j: int| 0 <= j < top.len() implies top_columns(top).contains_key(
            #[trigger] top[j],
        ) by {
            if j < top.len() - 1 {
                assert(top[j] == d[j]);
                assert(top_columns(d).contains_key(d[j]));
            }
        }
        if top.no_duplicates() {
            assert(d.no_duplicates()) by {
                assert forall|i: int, j: int| 0 <= i < d.len() && 0 <= j < d.len() && i != j implies d[i]
                    != d[j] by {
                    assert(top[i] != top[j]);
                }
            }
            assert forall|j: int| 0 <= j < top.len() implies top_columns(top)[#[trigger] top[j]]
                == j by {
                if j < top.len() - 1 {
                    assert(top[j] == d[j]);
                    assert(top[j] != top[top.len() - 1]);
                    assert(top_columns(d)[d[j]] == j);
                }
            }
        }
    }
}

proof fn lemma_top_bounded(ls: Seq<Seq<usize>>)
    requires
        ls.len() > 0,
        node_count(ls) < usize::MAX,
    ensures
        ls[0].len() <= usize::MAX,
        forall|key: usize| top_columns(ls[0]).contains_key(key) ==> top_columns(ls[0])[key] < node_count(ls.take(1)),
{
    lemma_node_count_take(ls, 0);
    assert(ls.take(0) =~= Seq::<Seq<usize>>::empty());
    lemma_top_columns(ls[0]);
}

/// Every node of every layer gets a column.
pub proof fn law_every_node_has_a_column(ls: Seq<Seq<usize>>, edges: Seq<(usize, usize)>)
    requires
        node_count(ls) < usize::MAX,
    ensures
        forall|li: int, j: int|
            0 <= li < ls.len() && 0 <= j < ls[li].len() ==> spec_assign_grid_columns(
                ls,
                edges,
            ).contains_key(#[trigger] ls[li][j]),
{
    if ls.len() > 0 {
        lemma_top_bounded(ls);
        lemma_top_columns(ls[0]);
        lemma_place_layers_dom(top_columns(ls[0]), ls, edges, ls.len() as int);
        assert forall|li: int, j: int|
            0 <= li < ls.len() && 0 <= j < ls[li].len() implies spec_assign_grid_columns(
                ls,
                edges,
            ).contains_key(#[trigger] ls[li][j]) by {
            if li == 0 {
                assert(top_columns(ls[0]).contains_key(ls[0][j]));
            }
        }
    }
}

/// The top layer is packed from column 0: its `j`-th node gets column `j`,
/// when no node occurs twice in it or again further down.
pub proof fn law_top_layer_is_packed(ls: Seq<Seq<usize>>, edges: Seq<(usize, usize)>, j: int)
    requires
        node_count(ls) < usize::MAX,
        ls.len() > 0,
        ls[0].no_duplicates(),
        forall|li: int, x: usize|
            1 <= li < ls.len() && ls[0].contains(x) ==> !(#[trigger] ls[li].contains(x)),
        0 <= j < ls[0].len(),
    ensures
        spec_assign_grid_columns(ls, edges)[ls[0][j]] == j,
{
    lemma_top_bounded(ls);
    lemma_top_columns(ls[0]);
    assert(ls[0].contains(ls[0][j]));
    lemma_place_layers_keeps(top_columns(ls[0]), ls, edges, ls.len() as int, ls[0][j]);
}

/// Below the top, the columns of a layer grow strictly from left to right,
/// so no two of its nodes share a column, when no node occurs twice in it
/// or again further down.
pub proof fn law_layer_columns_increase(
    ls: Seq<Seq<usize>>,
    edges: Seq<(usize, usize)>,
    li: int,
    i: int,
    j: int,
)
    requires
        node_count(ls) < usize::MAX,
        1 <= li < ls.len(),
        ls[li].no_duplicates(),
        forall|l2: int, x: usize|
            li < l2 < ls.len() && ls[li].contains(x) ==> !(#[trigger] ls[l2].contains(x)),
        0 <= i < j < ls[li].len(),
    ensures
        spec_assign_grid_columns(ls, edges)[ls[li][i]] < spec_assign_grid_columns(ls, edges)[ls[li][j]],
{
    let top = top_columns(ls[0]);
    lemma_top_bounded(ls);
    let before = place_layers(top, ls, edges, li);
    let after = place_layers(top, ls, edges, li + 1);
    assert(after == place_layer(before, ls[li], ls, edges).0);
    lemma_place_layers_bounded(top, ls, edges, li);
    lemma_node_count_take(ls, li);
    lemma_place_layer_order(before, ls[li], ls, edges, node_count(ls.take(li)) as int);
    assert(after[ls[li][i]] < after[ls[li][j]]);
    assert forall|l2: int| li + 1 <= l2 < ls.len() implies !(#[trigger] ls[l2]).contains(ls[li][i]) by {
        assert(ls[li].contains(ls[li][i]));
    }
    assert forall|l2: int| li + 1 <= l2 < ls.len() implies !(#[trigger] ls[l2]).contains(ls[li][j]) by {
        assert(ls[li].contains(ls[li][j]));
    }
    lemma_place_layers_tail(top, ls, edges, li + 1, ls[li][i]);
    lemma_place_layers_tail(top, ls, edges, li + 1, ls[li][j]);
}

/// No node occurs twice in the layers, within one layer or across two.
pub open spec fn each_node_once(ls: Seq<Seq<usize>>) -> bool {
    forall|l1: int, i1: int, l2: int, i2: int|
        #![trigger ls[l1][i1], ls[l2][i2]]
        0 <= l1 < ls.len() && 0 <= l2 < ls.len() && 0 <= i1 < ls[l1].len() && 0 <= i2 < ls[l2].len()
            && (l1 != l2 || i1 != i2) ==> ls[l1][i1] != ls[l2][i2]
}

proof fn lemma_layer_index_of_member(ls: Seq<Seq<usize>>, li: int, x: usize)
    requires
        0 <= li < ls.len(),
        ls[li].contains(x),
        forall|l2: int| 0 <= l2 < ls.len() && l2 != li ==> !(#[trigger] ls[l2]).contains(x),
    ensures
        layer_index(ls, x) == Some(li),
    decreases ls.len(),
{
    if li < ls.len() - 1 {
        assert(!ls[ls.len() - 1].contains(x));
        let d = ls.drop_last();
        assert forall|l2: int| 0 <= l2 < d.len() && l2 != li implies !(#[trigger] d[l2]).contains(x) by {
            assert(d[l2] == ls[l2]);
        }
        lemma_layer_index_of_member(d, li, x);
    }
}

proof fn lemma_layer_index_contains(ls: Seq<Seq<usize>>, x: usize)
    ensures
        layer_index(ls, x) matches Some(l) ==> 0 <= l < ls.len() && ls[l].contains(x),
    decreases ls.len(),
{
    if ls.len() > 0 && !ls.last().contains(x) {
        lemma_layer_index_contains(ls.drop_last(), x);
    }
}

proof fn lemma_upward_neighbours_one_layer_up(
    ls: Seq<Seq<usize>>,
    edges: Seq<(usize, usize)>,
    x: usize,
    k: int,
)
    requires
        0 <= k < adjacent_neighbours(ls, edges, x, true).len(),
    ensures
        ({
            let p = adjacent_neighbours(ls, edges, x, true)[k];
            layer_index(ls, p) matches Some(lp) && layer_index(ls, x) == Some(lp + 1)
        }),
    decreases edges.len(),
{
    let prev = adjacent_neighbours(ls, edges.drop_last(), x, true);
    if k < prev.len() {
        lemma_upward_neighbours_one_layer_up(ls, edges.drop_last(), x, k);
    }
}

proof fn lemma_known_columns_agree(ns: Seq<usize>, m1: Map<usize, usize>, m2: Map<usize, usize>)
    requires
        forall|k: int|
            0 <= k < ns.len() ==> m1.contains_key(#[trigger] ns[k]) == m2.contains_key(ns[k])
                && (m1.contains_key(ns[k]) ==> m1[ns[k]] == m2[ns[k]]),
    ensures
        known_columns(ns, m1) == known_columns(ns, m2),
    decreases ns.len(),
{
    if ns.len() > 0 {
        let d = ns.drop_last();
        assert forall|k: int| 0 <= k < d.len() implies m1.contains_key(#[trigger] d[k]) == m2.contains_key(d[k])
            && (m1.contains_key(d[k]) ==> m1[d[k]] == m2[d[k]]) by {
            assert(d[k] == ns[k]);
        }
        lemma_known_columns_agree(d, m1, m2);
        assert(ns.last() == ns[ns.len() - 1]);
    }
}

/// Placing a layer agrees, on a node that the rest of the layer does not
/// hold again, with placing the layer up to that node.
proof fn lemma_place_layer_prefix(
    col: Map<usize, usize>,
    layer: Seq<usize>,
    ls: Seq<Seq<usize>>,
    edges: Seq<(usize, usize)>,
    k: int,
    key: usize,
)
    requires
        0 <= k <= layer.len(),
        !layer.skip(k).contains(key),
    ensures
        place_layer(col, layer, ls, edges).0.contains_key(key) == place_layer(col, layer.take(k), ls, edges).0.contains_key(key),
        place_layer(col, layer, ls, edges).0[key] == place_layer(col, layer.take(k), ls, edges).0[key],
    decreases layer.len() - k,
{
    if k < layer.len() {
        let d = layer.drop_last();
        assert(d.take(k) =~= layer.take(k));
        assert(layer.last() == layer.skip(k)[layer.len() - 1 - k]);
        assert forall|x: usize| d.skip(k).contains(x) implies layer.skip(k).contains(x) by {
            let i = choose|i: int| 0 <= i < d.skip(k).len() && d.skip(k)[i] == x;
            assert(layer.skip(k)[i] == x);
        }
        lemma_place_layer_prefix(col, d, ls, edges, k, key);
    } else {
        assert(layer.take(k) =~= layer);
    }
}

/// Every node below the top layer sits at the median column of its parents
/// in the layer just above (the lower median of an even count), unless
/// that column is left of the node before it in its layer, in which case
/// it sits just right of that node; a node without a placed parent sits
/// just right of the node before it, or at column 0 when it comes first.
/// This holds when no node occurs twice in the layers.
pub proof fn law_node_sits_under_median_of_parents(
    ls: Seq<Seq<usize>>,
    edges: Seq<(usize, usize)>,
    li: int,
    j: int,
)
    requires
        node_count(ls) < usize::MAX,
        each_node_once(ls),
        1 <= li < ls.len(),
        0 <= j < ls[li].len(),
    ensures
        ({
            let g = spec_assign_grid_columns(ls, edges);
            let x = ls[li][j];
            let floor = if j == 0 {
                0
            } else {
                g[ls[li][j - 1]] + 1
            };
            g[x] == match spec_median_column(adjacent_neighbours(ls, edges, x, true), g) {
                Some(m) => if m >= floor {
                    m as int
                } else {
                    floor
                },
                None => floor,
            }
        }),
{
    let top = top_columns(ls[0]);
    let g = spec_assign_grid_columns(ls, edges);
    let layer = ls[li];
    let x = layer[j];
    let before = place_layers(top, ls, edges, li);
    let after = place_layer(before, layer, ls, edges).0;
    assert(place_layers(top, ls, edges, li + 1) == after);
    // `x` (and the node before it) keep their columns after layer `li`.
    assert forall|l2: int| li + 1 <= l2 < ls.len() implies !(#[trigger] ls[l2]).contains(x) by {
        if ls[l2].contains(x) {
            let i = choose|i: int| 0 <= i < ls[l2].len() && ls[l2][i] == x;
            assert(ls[l2][i] != ls[li][j]);
        }
    }
    lemma_place_layers_tail(top, ls, edges, li + 1, x);
    assert(g[x] == after[x]);
    // Within the layer: placing up to `x`.
    let pj = place_layer(before, layer.take(j), ls, edges);
    let pj1 = place_layer(before, layer.take(j + 1), ls, edges);
    assert(layer.take(j + 1).drop_last() =~= layer.take(j));
    assert(layer.take(j + 1).last() == x);
    let rest1 = layer.skip(j + 1);
    assert(!rest1.contains(x)) by {
        if rest1.contains(x) {
            let i = choose|i: int| 0 <= i < rest1.len() && rest1[i] == x;
            assert(layer[j + 1 + i] == x);
            assert(ls[li][j + 1 + i] != ls[li][j]);
        }
    }
    lemma_place_layer_prefix(before, layer, ls, edges, j + 1, x);
    let parents = adjacent_neighbours(ls, edges, x, true);
    lemma_top_bounded(ls);
    lemma_place_layers_bounded(top, ls, edges, li);
    lemma_node_count_take(ls, li);
    lemma_place_layer_order(before, layer.take(j), ls, edges, node_count(ls.take(li)) as int);
    lemma_place_layer_order(before, layer.take(j + 1), ls, edges, node_count(ls.take(li)) as int);
    // The floor: just right of the node before.
    if j > 0 {
        let y = layer[j - 1];
        assert(layer.take(j).drop_last() =~= layer.take(j - 1));
        assert(layer.take(j).last() == y);
        assert(pj.1 == pj.0[y] + 1);
        let rest0 = layer.skip(j);
        assert(!rest0.contains(y)) by {
            if rest0.contains(y) {
                let i = choose|i: int| 0 <= i < rest0.len() && rest0[i] == y;
                assert(layer[j + i] == y);
                assert(ls[li][j + i] != ls[li][j - 1]);
            }
        }
        lemma_place_layer_prefix(before, layer, ls, edges, j, y);
        assert forall|l2: int| li + 1 <= l2 < ls.len() implies !(#[trigger] ls[l2]).contains(y) by {
            if ls[l2].contains(y) {
                let i = choose|i: int| 0 <= i < ls[l2].len() && ls[l2][i] == y;
                assert(ls[l2][i] != ls[li][j - 1]);
            }
        }
        lemma_place_layers_tail(top, ls, edges, li + 1, y);
    }
    // The parents all lie in layer `li - 1`, whose columns are final.
    assert forall|l2: int| 0 <= l2 < ls.len() && l2 != li implies !(#[trigger] ls[l2]).contains(x) by {
        if ls[l2].contains(x) {
            let i = choose|i: int| 0 <= i < ls[l2].len() && ls[l2][i] == x;
            assert(ls[l2][i] != ls[li][j]);
        }
    }
    assert(layer.contains(x));
    lemma_layer_index_of_member(ls, li, x);
    lemma_top_bounded(ls);
    lemma_top_columns(ls[0]);
    lemma_place_layers_dom(top, ls, edges, ls.len() as int);
    lemma_place_layers_dom(top, ls, edges, li);
    lemma_place_layer_facts(before, layer.take(j), ls, edges);
    assert forall|k: int| 0 <= k < parents.len() implies pj.0.contains_key(#[trigger] parents[k])
        == g.contains_key(parents[k]) && (pj.0.contains_key(parents[k]) ==> pj.0[parents[k]]
        == g[parents[k]]) by {
        let p = parents[k];
        lemma_upward_neighbours_one_layer_up(ls, edges, x, k);
        lemma_layer_index_contains(ls, p);
        let lp = li - 1;
        assert(ls[lp].contains(p));
        let ip = choose|i: int| 0 <= i < ls[lp].len() && ls[lp][i] == p;
        assert forall|l2: int| lp < l2 < ls.len() implies !(#[trigger] ls[l2]).contains(p) by {
            if ls[l2].contains(p) {
                let i = choose|i: int| 0 <= i < ls[l2].len() && ls[l2][i] == p;
                assert(ls[l2][i] != ls[lp][ip]);
            }
        }
        let head = layer.take(j);
        assert(!head.contains(p)) by {
            if head.contains(p) {
                let i = choose|i: int| 0 <= i < head.len() && head[i] == p;
                assert(ls[li][i] == p);
            }
        }
        lemma_place_layers_tail(top, ls, edges, li, p);
        if lp >= 1 {
            assert(before.contains_key(ls[lp][ip]));
        } else {
            assert(top.contains_key(ls[0][ip]));
            lemma_place_layers_dom(top, ls, edges, li);
        }
        assert(g.contains_key(ls[lp][ip])) by {
            lemma_place_layers_dom(top, ls, edges, ls.len() as int);
        }
    }
    lemma_known_columns_agree(parents, pj.0, g);
}

/// Layers from `k` on leave alone a node that none of them holds.
proof fn lemma_place_layers_tail(
    col: Map<usize, usize>,
    ls: Seq<Seq<usize>>,
    edges: Seq<(usize, usize)>,
    k: int,
    key: usize,
)
    requires
        1 <= k <= ls.len(),
        forall|l2: int| k <= l2 < ls.len() ==> !(#[trigger] ls[l2]).contains(key),
    ensures
        place_layers(col, ls, edges, ls.len() as int)[key] == place_layers(col, ls, edges, k)[key],
    decreases ls.len() - k,
{
    if k < ls.len() {
        lemma_place_layers_tail_step(col, ls, edges, ls.len() as int, k, key);
    }
}

proof fn lemma_place_layers_tail_step(
    col: Map<usize, usize>,
    ls: Seq<Seq<usize>>,
    edges: Seq<(usize, usize)>,
    n: int,
    k: int,
    key: usize,
)
    requires
        1 <= k <= n <= ls.len(),
        forall|l2: int| k <= l2 < ls.len() ==> !(#[trigger] ls[l2]).contains(key),
    ensures
        place_layers(col, ls, edges, n)[key] == place_layers(col, ls, edges, k)[key],
    decreases n - k,
{
    if n > k {
        lemma_place_layers_tail_step(col, ls, edges, n - 1, k, key);
        assert(!ls[n - 1].contains(key));
        lemma_place_layer_facts(place_layers(col, ls, edges, n - 1), ls[n - 1], ls, edges);
    }
}

// ---------------------------------------------------------------------------
// Ports
// ---------------------------------------------------------------------------

/// Which side of a node an edge end sits on; it decides whether the first
/// (or last) segment of a route leaves the node vertically or horizontally.
#[derive(Debug, Clone, Copy, PartialEq, Eq, Structural)]
pub enum Side {
    Top,
    Bottom,
    Left,
    Right,
}

impl Side {
    /// Whether the first segment leaving this port is vertical.
    pub fn is_vertical(self) -> (r: bool)
        ensures
            r == (self is Top || self is Bottom),
    {
        matches!(self, Side::Top | Side::Bottom)
    }
}

} // verus!
