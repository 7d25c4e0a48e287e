//! The parts of class-diagram layout that decide structure rather than
//! geometry: member texts, the rank (row) of every class, and the cycle
//! breaking that rank assignment needs.
use crate::ast::class::{ClassDiagram, ClassKind, ClassNode, Member, RelationKind, Visibility};
use crate::text::{append, append_str, chars_of, eq, string_of};
use vstd::prelude::*;

verus! {

// ---------------------------------------------------------------------------
// Member text
// ---------------------------------------------------------------------------

/// One block of members inside a class box.
pub struct MemberSection {
    /// Whether a separator line is drawn above the block.
    pub separator: bool,
    pub members: Vec<RenderedMember>,
}

/// A member as drawn: its text and how it is styled.
pub struct RenderedMember {
    pub text: String,
    pub is_static: bool,
    pub is_abstract: bool,
}

pub open spec fn opt_text(o: Option<String>) -> Option<Seq<char>> {
    match o {
        Some(s) => Some(s@),
        None => None,
    }
}

/// The class name, followed by its generic parameters in angle brackets.
pub open spec fn spec_display_name(name: Seq<char>, generics: Option<Seq<char>>) -> Seq<char> {
    match generics {
        Some(g) => name + "<"@ + g + ">"@,
        None => name,
    }
}

/// The UML marker of a visibility.
pub open spec fn visibility_marker(v: Visibility) -> Seq<char> {
    match v {
        Visibility::Public => "+"@,
        Visibility::Private => "-"@,
        Visibility::Protected => "#"@,
        Visibility::Package => "~"@,
        Visibility::Unmarked => seq![],
    }
}

/// A member as written in a class box: visibility marker, name, the
/// parameter list of a method, and `: type` when a type is given.
pub open spec fn spec_member_text(m: Member) -> Seq<char> {
    let params = match m.params {
        Some(p) => p@,
        None => seq![],
    };
    let type_part = match m.type_annotation {
        Some(t) => ": "@ + t@,
        None => seq![],
    };
    if m.is_method {
        visibility_marker(m.visibility) + m.name@ + params + type_part
    } else {
        visibility_marker(m.visibility) + m.name@ + type_part
    }
}

/// The name shown in a class header (see [`spec_display_name`]).
pub fn display_name(node: &ClassNode) -> (r: String)
    ensures
        r@ == spec_display_name(node.name@, opt_text(node.generics)),
{
    let mut out = chars_of(node.name.as_str());
    match &node.generics {
        Some(g) => {
            append_str(&mut out, "<");
            let gc = chars_of(g.as_str());
            append(&mut out, gc.as_slice());
            append_str(&mut out, ">");
        },
        None => {},
    }
    string_of(out.as_slice())
}

/// The text of a member (see [`spec_member_text`]).
pub fn member_text(m: &Member) -> (r: String)
    ensures
        r@ == spec_member_text(*m),
{
    let mut out: Vec<char> = Vec::new();
    match m.visibility {
        Visibility::Public => append_str(&mut out, "+"),
        Visibility::Private => append_str(&mut out, "-"),
        Visibility::Protected => append_str(&mut out, "#"),
        Visibility::Package => append_str(&mut out, "~"),
        Visibility::Unmarked => {},
    }
    let name = chars_of(m.name.as_str());
    append(&mut out, name.as_slice());
    if m.is_method {
        match &m.params {
            Some(p) => {
                let pc = chars_of(p.as_str());
                append(&mut out, pc.as_slice());
            },
            None => {},
        }
    }
    match &m.type_annotation {
        Some(t) => {
            append_str(&mut out, ": ");
            let tc = chars_of(t.as_str());
            append(&mut out, tc.as_slice());
        },
        None => {},
    }
    proof {
        assert(out@ =~= spec_member_text(*m));
    }
    string_of(out.as_slice())
}

/// The member blocks of a class box: a single block without separator,
/// holding every member in order (empty for a class without members).
pub fn build_member_sections(node: &ClassNode) -> (r: Vec<MemberSection>)
    ensures
        r@.len() == 1,
        !r@[0].separator,
        r@[0].members@.len() == node.members@.len(),
        forall|i: int|
            0 <= i < node.members@.len() ==> {
                let rm = #[trigger] r@[0].members@[i];
                let m = node.members@[i];
                &&& rm.text@ == spec_member_text(m)
                &&& rm.is_static == m.is_static
                &&& rm.is_abstract == m.is_abstract
            },
{
    let mut members: Vec<RenderedMember> = Vec::new();
    let mut i: usize = 0;
    while i < node.members.len()
        invariant
            i <= node.members@.len(),
            members@.len() == i,
            forall|j: int|
                0 <= j < i ==> {
                    let rm = #[trigger] members@[j];
                    let m = node.members@[j];
                    &&& rm.text@ == spec_member_text(m)
                    &&& rm.is_static == m.is_static
                    &&& rm.is_abstract == m.is_abstract
                },
        decreases node.members.len() - i,
    {
        let m = &node.members[i];
        members.push(RenderedMember { text: member_text(m), is_static: m.is_static, is_abstract: m.is_abstract });
        i = i + 1;
    }
    let mut r: Vec<MemberSection> = Vec::new();
    r.push(MemberSection { separator: false, members });
    r
}

// ---------------------------------------------------------------------------
// Which way dependencies point
// ---------------------------------------------------------------------------

/// Kinds drawn as deployment containers.
pub open spec fn is_deployment_kind(k: ClassKind) -> bool {
    k is Node || k is Cloud || k is Database || k is Folder || k is Frame || k is Artifact
        || k is Queue
}

/// Whether dependency edges rank their source above their target: in C4
/// sources and in deployment diagrams, which read from caller to callee.
pub open spec fn spec_source_to_target(d: ClassDiagram) -> bool {
    d.c4_mode || exists|i: int| 0 <= i < d.classes@.len() && is_deployment_kind(#[trigger] d.classes@[i].kind)
}

/// See [`spec_source_to_target`].
pub fn uses_source_to_target_dependency_ranks(diagram: &ClassDiagram) -> (r: bool)
    ensures
        r == spec_source_to_target(*diagram),
{
    if diagram.c4_mode {
        return true;
    }
    let mut i: usize = 0;
    while i < diagram.classes.len()
        invariant
            i <= diagram.classes@.len(),
            forall|j: int| 0 <= j < i ==> !is_deployment_kind(#[trigger] diagram.classes@[j].kind),
        decreases diagram.classes.len() - i,
    {
        let k = diagram.classes[i].kind;
        if matches!(k, ClassKind::Node | ClassKind::Cloud | ClassKind::Database | ClassKind::Folder | ClassKind::Frame | ClassKind::Artifact | ClassKind::Queue) {
            assert(is_deployment_kind(diagram.classes@[i as int].kind));
            return true;
        }
        i = i + 1;
    }
    false
}

// ---------------------------------------------------------------------------
// Reachability
// ---------------------------------------------------------------------------

pub type Edge = (usize, usize);

/// `p` is a walk along `edges`: at least one node, each next node joined
/// to the one before by an edge.
pub open spec fn is_walk(edges: Seq<Edge>, p: Seq<usize>) -> bool {
    p.len() >= 1 && forall|i: int| 0 <= i < p.len() - 1 ==> #[trigger] walk_step(edges, p, i)
}

/// Nodes `i` and `i + 1` of `p` are joined by an edge.
pub open spec fn walk_step(edges: Seq<Edge>, p: Seq<usize>, i: int) -> bool {
    edges.contains((p[i], p[i + 1]))
}

/// There is a walk along `edges` from `a` to `b` (every node reaches itself).
pub open spec fn reaches(edges: Seq<Edge>, a: usize, b: usize) -> bool {
    exists|p: Seq<usize>| is_walk(edges, p) && p[0] == a && p.last() == b
}

proof fn lemma_reaches_refl(edges: Seq<Edge>, a: usize)
    ensures
        reaches(edges, a, a),
{
    let p = seq![a];
    assert(is_walk(edges, p) && p[0] == a && p.last() == a);
}

proof fn lemma_reaches_step(edges: Seq<Edge>, a: usize, x: usize, y: usize)
    requires
        reaches(edges, a, x),
        edges.contains((x, y)),
    ensures
        reaches(edges, a, y),
{
    let p = choose|p: Seq<usize>| is_walk(edges, p) && p[0] == a && p.last() == x;
    let q = p.push(y);
    assert forall|i: int| 0 <= i < q.len() - 1 implies #[trigger] walk_step(edges, q, i) by {
        if i < p.len() - 1 {
            assert(walk_step(edges, p, i));
            assert(q[i] == p[i] && q[i + 1] == p[i + 1]);
        }
    }
    assert(is_walk(edges, q) && q[0] == a && q.last() == y);
}

proof fn lemma_reaches_trans(edges: Seq<Edge>, a: usize, b: usize, c: usize)
    requires
        reaches(edges, a, b),
        reaches(edges, b, c),
    ensures
        reaches(edges, a, c),
{
    let p = choose|p: Seq<usize>| is_walk(edges, p) && p[0] == a && p.last() == b;
    let q = choose|q: Seq<usize>| is_walk(edges, q) && q[0] == b && q.last() == c;
    let r = p + q.drop_first();
    assert forall|i: int| 0 <= i < r.len() - 1 implies #[trigger] walk_step(edges, r, i) by {
        if i < p.len() - 1 {
            assert(walk_step(edges, p, i));
            assert(r[i] == p[i] && r[i + 1] == p[i + 1]);
        } else {
            let j = i - (p.len() - 1);
            assert(walk_step(edges, q, j));
            assert(r[i] == q[j]);
            assert(r[i + 1] == q[j + 1]);
        }
    }
    assert(r.last() == c);
    assert(is_walk(edges, r) && r[0] == a);
}

/// A walk along `k` plus the edge `(p, c)` either avoids the new edge or
/// crosses it: from `a` to `b` it then leads from `a` to `p` and from `c`
/// to `b` along `k`.
proof fn lemma_reaches_push(k: Seq<Edge>, p: usize, c: usize, a: usize, b: usize)
    requires
        reaches(k.push((p, c)), a, b),
    ensures
        reaches(k, a, b) || (reaches(k, a, p) && reaches(k, c, b)),
{
    let w = choose|w: Seq<usize>| is_walk(k.push((p, c)), w) && w[0] == a && w.last() == b;
    lemma_walk_push(k, p, c, w);
}

proof fn lemma_walk_push(k: Seq<Edge>, p: usize, c: usize, w: Seq<usize>)
    requires
        is_walk(k.push((p, c)), w),
    ensures
        reaches(k, w[0], w.last()) || (reaches(k, w[0], p) && reaches(k, c, w.last())),
    decreases w.len(),
{
    let k2 = k.push((p, c));
    if w.len() == 1 {
        lemma_reaches_refl(k, w[0]);
    } else {
        let v = w.drop_last();
        assert(is_walk(k2, v)) by {
            assert forall|i: int| 0 <= i < v.len() - 1 implies #[trigger] walk_step(k2, v, i) by {
                assert(walk_step(k2, w, i));
            }
        }
        lemma_walk_push(k, p, c, v);
        let x = v.last();
        let y = w.last();
        assert(walk_step(k2, w, w.len() - 2));
        assert(k2.contains((x, y)));
        let j = choose|j: int| 0 <= j < k2.len() && k2[j] == (x, y);
        if j < k.len() {
            assert(k.contains((x, y)));
            if reaches(k, w[0], x) {
                lemma_reaches_step(k, w[0], x, y);
            } else {
                lemma_reaches_step(k, c, x, y);
            }
        } else {
            assert((x, y) == (p, c));
            lemma_reaches_refl(k, c);
        }
    }
}

/// No edge closes a cycle: the end of an edge never leads back to its start.
pub open spec fn acyclic(edges: Seq<Edge>) -> bool {
    forall|e: Edge| edges.contains(e) ==> !reaches(edges, e.1, e.0)
}

proof fn lemma_acyclic_push(k: Seq<Edge>, p: usize, c: usize)
    requires
        acyclic(k),
        !reaches(k, c, p),
    ensures
        acyclic(k.push((p, c))),
{
    let k2 = k.push((p, c));
    assert forall|e: Edge| k2.contains(e) implies !reaches(k2, e.1, e.0) by {
        let (x, y) = e;
        if reaches(k2, y, x) {
            lemma_reaches_push(k, p, c, y, x);
            let j = choose|j: int| 0 <= j < k2.len() && k2[j] == e;
            if j < k.len() {
                assert(k.contains(e));
                if reaches(k, y, x) {
                    assert(false);
                } else {
                    lemma_reaches_step(k, c, x, y);
                    lemma_reaches_trans(k, c, y, p);
                }
            } else {
                assert(e == (p, c));
                if reaches(k, y, x) {
                } else {
                    lemma_reaches_trans(k, c, x, p);
                }
            }
        }
    }
}

// ---------------------------------------------------------------------------
// Cycle breaking
// ---------------------------------------------------------------------------

/// The edges kept when `edges` are taken in order and each one that would
/// close a cycle with those kept before it is dropped.
pub open spec fn kept_edges(edges: Seq<Edge>) -> Seq<Edge>
    decreases edges.len(),
{
    if edges.len() == 0 {
        seq![]
    } else {
        let k = kept_edges(edges.drop_last());
        let (p, c) = edges.last();
        if reaches(k, c, p) {
            k
        } else {
            k.push((p, c))
        }
    }
}

/// Edges in lexicographic order.
pub open spec fn edge_lt(a: Edge, b: Edge) -> bool {
    a.0 < b.0 || (a.0 == b.0 && a.1 < b.1)
}

pub open spec fn strictly_sorted(s: Seq<Edge>) -> bool {
    forall|i: int, j: int| 0 <= i < j < s.len() ==> edge_lt(#[trigger] s[i], #[trigger] s[j])
}

pub open spec fn all_below(edges: Seq<Edge>, n: usize) -> bool {
    forall|i: int| 0 <= i < edges.len() ==> (#[trigger] edges[i]).0 < n && edges[i].1 < n
}

/// Whether `target` can be reached from `from` along `kept`.
fn reaches_from(n: usize, kept: &Vec<Edge>, from: usize, target: usize) -> (r: bool)
    requires
        from < n,
        target < n,
        all_below(kept@, n),
    ensures
        r == reaches(kept@, from, target),
{
    let mut marked: Vec<bool> = Vec::new();
    let mut i: usize = 0;
    while i < n
        invariant
            i <= n,
            marked@.len() == i,
            forall|j: int| 0 <= j < i ==> marked@[j] == (j == from),
        decreases n - i,
    {
        marked.push(i == from);
        i = i + 1;
    }
    proof {
        lemma_reaches_refl(kept@, from);
        lemma_count_true_bound(marked@);
    }
    let ghost mut count: nat = 1;
    proof {
        lemma_count_true_single(marked@, from as int);
    }
    loop
        invariant_except_break
            marked@.len() == n,
            from < n,
            target < n,
            all_below(kept@, n),
            marked@[from as int],
            forall|j: int| 0 <= j < n && #[trigger] marked@[j] ==> reaches(kept@, from, j as usize),
            count_true(marked@) == count,
            count <= n,
        ensures
            marked@.len() == n,
            marked@[from as int],
            forall|j: int| 0 <= j < n && #[trigger] marked@[j] ==> reaches(kept@, from, j as usize),
            forall|e: Edge| kept@.contains(e) && marked@[e.0 as int] ==> marked@[e.1 as int],
        decreases n - count,
    {
        let mut changed = false;
        let mut k: usize = 0;
        let ghost start_count = count;
        while k < kept.len()
            invariant
                k <= kept@.len(),
                marked@.len() == n,
                from < n,
                all_below(kept@, n),
                marked@[from as int],
                forall|j: int| 0 <= j < n && #[trigger] marked@[j] ==> reaches(kept@, from, j as usize),
                count_true(marked@) == count,
                count <= n,
                changed ==> count > start_count,
                !changed ==> count == start_count,
                !changed ==> forall|q: int| 0 <= q < k ==> (marked@[kept@[q].0 as int] ==> marked@[kept@[q].1 as int]),
            decreases kept.len() - k,
        {
            let (x, y) = kept[k];
            assert(kept@[k as int] == (x, y));
            if marked[x] && !marked[y] {
                proof {
                    assert(kept@.contains((x, y)));
                    lemma_reaches_step(kept@, from, x, y);
                    lemma_count_true_set(marked@, y as int);
                    count = count + 1;
                    lemma_count_true_bound(marked@.update(y as int, true));
                }
                marked.set(y, true);
                changed = true;
            }
            k = k + 1;
        }
        if !changed {
            proof {
                assert forall|e: Edge| kept@.contains(e) && marked@[e.0 as int] implies marked@[e.1 as int] by {
                    let q = choose|q: int| 0 <= q < kept@.len() && kept@[q] == e;
                }
            }
            break;
        }
    }
    proof {
        if reaches(kept@, from, target) {
            let w = choose|w: Seq<usize>| is_walk(kept@, w) && w[0] == from && w.last() == target;
            lemma_closed_walk(kept@, marked@, w, n);
        }
    }
    marked[target]
}

/// A set of nodes that holds the start of a walk and is closed under the
/// edges holds all of the walk.
proof fn lemma_closed_walk(edges: Seq<Edge>, marked: Seq<bool>, w: Seq<usize>, n: usize)
    requires
        is_walk(edges, w),
        marked.len() == n,
        w[0] < n,
        marked[w[0] as int],
        all_below(edges, n),
        forall|e: Edge| edges.contains(e) && marked[e.0 as int] ==> marked[e.1 as int],
    ensures
        marked[w.last() as int],
    decreases w.len(),
{
    if w.len() > 1 {
        let v = w.drop_last();
        assert(is_walk(edges, v)) by {
            assert forall|i: int| 0 <= i < v.len() - 1 implies #[trigger] walk_step(edges, v, i) by {
                assert(walk_step(edges, w, i));
            }
        }
        lemma_closed_walk(edges, marked, v, n);
        assert(walk_step(edges, w, w.len() - 2));
        assert(edges.contains((w[w.len() - 2], w[w.len() - 1])));
        let j = choose|j: int| 0 <= j < edges.len() && edges[j] == (w[w.len() - 2], w[w.len() - 1]);
        assert(edges[j].0 < n);
    }
}

pub open spec fn count_true(m: Seq<bool>) -> nat
    decreases m.len(),
{
    if m.len() == 0 {
        0
    } else {
        count_true(m.drop_last()) + if m.last() {
            1nat
        } else {
            0nat
        }
    }
}

proof fn lemma_count_true_bound(m: Seq<bool>)
    ensures
        count_true(m) <= m.len(),
    decreases m.len(),
{
    if m.len() > 0 {
        lemma_count_true_bound(m.drop_last());
    }
}

proof fn lemma_count_true_single(m: Seq<bool>, f: int)
    requires
        0 <= f < m.len(),
        forall|j: int| 0 <= j < m.len() ==> m[j] == (j == f),
    ensures
        count_true(m) == 1,
    decreases m.len(),
{
    if m.len() - 1 == f {
        lemma_count_true_zero(m.drop_last());
    } else {
        lemma_count_true_single(m.drop_last(), f);
    }
}

proof fn lemma_count_true_zero(m: Seq<bool>)
    requires
        forall|j: int| 0 <= j < m.len() ==> !m[j],
    ensures
        count_true(m) == 0,
    decreases m.len(),
{
    if m.len() > 0 {
        lemma_count_true_zero(m.drop_last());
    }
}

proof fn lemma_count_true_set(m: Seq<bool>, y: int)
    requires
        0 <= y < m.len(),
        !m[y],
    ensures
        count_true(m.update(y, true)) == count_true(m) + 1,
    decreases m.len(),
{
    let u = m.update(y, true);
    if y == m.len() - 1 {
        assert(u.drop_last() =~= m.drop_last());
    } else {
        assert(u.drop_last() =~= m.drop_last().update(y, true));
        lemma_count_true_set(m.drop_last(), y);
    }
}

/// Cycle breaking leaves no cycle: no kept edge can be walked back.
pub proof fn law_kept_edges_acyclic(edges: Seq<Edge>)
    ensures
        acyclic(kept_edges(edges)),
    decreases edges.len(),
{
    if edges.len() == 0 {
        assert forall|e: Edge| kept_edges(edges).contains(e) implies !reaches(kept_edges(edges), e.1, e.0) by {}
    } else {
        law_kept_edges_acyclic(edges.drop_last());
        let k = kept_edges(edges.drop_last());
        let (p, c) = edges.last();
        if !reaches(k, c, p) {
            lemma_acyclic_push(k, p, c);
        }
    }
}

/// Every kept edge is one of the input edges.
pub proof fn law_kept_edges_are_input_edges(edges: Seq<Edge>)
    ensures
        forall|e: Edge| kept_edges(edges).contains(e) ==> edges.contains(e),
    decreases edges.len(),
{
    if edges.len() > 0 {
        law_kept_edges_are_input_edges(edges.drop_last());
        let d = edges.drop_last();
        assert forall|e: Edge| kept_edges(edges).contains(e) implies edges.contains(e) by {
            if kept_edges(d).contains(e) {
                assert(d.contains(e));
                let j = choose|j: int| 0 <= j < d.len() && d[j] == e;
                assert(edges[j] == e);
            } else {
                assert(e == edges.last());
                assert(edges[edges.len() - 1] == e);
            }
        }
    }
}

/// Walks only depend on which edges there are, not on their order or
/// repetition.
proof fn lemma_same_edges_same_reach(a: Seq<Edge>, b: Seq<Edge>)
    requires
        forall|e: Edge| a.contains(e) <==> b.contains(e),
    ensures
        forall|x: usize, y: usize| reaches(a, x, y) <==> reaches(b, x, y),
        acyclic(a) <==> acyclic(b),
{
    assert forall|w: Seq<usize>| is_walk(a, w) <==> is_walk(b, w) by {
        if is_walk(a, w) {
            assert forall|i: int| 0 <= i < w.len() - 1 implies #[trigger] walk_step(b, w, i) by {
                assert(walk_step(a, w, i));
            }
        }
        if is_walk(b, w) {
            assert forall|i: int| 0 <= i < w.len() - 1 implies #[trigger] walk_step(a, w, i) by {
                assert(walk_step(b, w, i));
            }
        }
    }
    assert forall|x: usize, y: usize| reaches(a, x, y) <==> reaches(b, x, y) by {
        if reaches(a, x, y) {
            let w = choose|w: Seq<usize>| is_walk(a, w) && w[0] == x && w.last() == y;
            assert(is_walk(b, w));
        }
        if reaches(b, x, y) {
            let w = choose|w: Seq<usize>| is_walk(b, w) && w[0] == x && w.last() == y;
            assert(is_walk(a, w));
        }
    }
}

/// Drops every edge that would close a cycle with the edges kept before it
/// (taking them in order), then sorts the kept edges and removes repeats
/// (see [`kept_edges`]). The result has no cycle.
pub fn break_ranking_cycles(n: usize, edges: &[Edge]) -> (r: Vec<Edge>)
    requires
        all_below(edges@, n),
    ensures
        strictly_sorted(r@),
        forall|e: Edge| r@.contains(e) <==> kept_edges(edges@).contains(e),
        acyclic(r@),
{
    let mut kept: Vec<Edge> = Vec::new();
    let mut k: usize = 0;
    while k < edges.len()
        invariant
            k <= edges@.len(),
            all_below(edges@, n),
            all_below(kept@, n),
            kept@ == kept_edges(edges@.take(k as int)),
        decreases edges.len() - k,
    {
        assert(edges@.take(k + 1).drop_last() =~= edges@.take(k as int));
        let (p, c) = edges[k];
        assert(edges@[k as int] == (p, c));
        if !reaches_from(n, &kept, c, p) {
            kept.push((p, c));
        }
        k = k + 1;
    }
    assert(edges@.take(k as int) =~= edges@);
    let mut out: Vec<Edge> = Vec::new();
    let mut j: usize = 0;
    while j < kept.len()
        invariant
            j <= kept@.len(),
            strictly_sorted(out@),
            forall|e: Edge| out@.contains(e) <==> kept@.take(j as int).contains(e),
        decreases kept.len() - j,
    {
        let e = kept[j];
        let mut q: usize = 0;
        while q < out.len() && (out[q].0 < e.0 || (out[q].0 == e.0 && out[q].1 < e.1))
            invariant
                q <= out@.len(),
                forall|i: int| 0 <= i < q ==> edge_lt(out@[i], e),
            decreases out.len() - q,
        {
            q = q + 1;
        }
        let ghost before = out@;
        let ghost kt = kept@.take(j as int);
        let ghost kt1 = kept@.take(j + 1);
        assert(kt1 =~= kt.push(e));
        if q < out.len() && out[q].0 == e.0 && out[q].1 == e.1 {
            assert(out@[q as int] == e);
            assert forall|x: Edge| out@.contains(x) <==> kt1.contains(x) by {
                if x == e {
                    assert(out@.contains(e));
                    assert(kt1[j as int] == e);
                }
                if kt1.contains(x) && x != e {
                    let i = choose|i: int| 0 <= i < kt1.len() && kt1[i] == x;
                    assert(kt[i] == x);
                }
                if kt.contains(x) {
                    let i = choose|i: int| 0 <= i < kt.len() && kt[i] == x;
                    assert(kt1[i] == x);
                }
            }
        } else {
            out.insert(q, e);
            proof {
                assert forall|a: int, b: int| 0 <= a < b < out@.len() implies edge_lt(
                    #[trigger] out@[a],
                    #[trigger] out@[b],
                ) by {
                    if b < q {
                        assert(edge_lt(before[a], before[b]));
                    } else if b == q {
                    } else if a < q {
                        assert(edge_lt(before[a], before[b - 1]));
                    } else if a == q {
                        assert(!edge_lt(before[q as int], e));
                        assert(before[q as int] != e);
                        if b - 1 > q {
                            assert(edge_lt(before[q as int], before[b - 1]));
                        }
                    } else {
                        assert(edge_lt(before[a - 1], before[b - 1]));
                    }
                }
                assert forall|x: Edge| out@.contains(x) <==> kt1.contains(x) by {
                    if out@.contains(x) {
                        let i = choose|i: int| 0 <= i < out@.len() && out@[i] == x;
                        if i < q {
                            assert(before[i] == x);
                            assert(before.contains(x));
                        } else if i > q {
                            assert(before[i - 1] == x);
                            assert(before.contains(x));
                        }
                        if x != e {
                            let i2 = choose|i2: int| 0 <= i2 < kt.len() && kt[i2] == x;
                            assert(kt1[i2] == x);
                        } else {
                            assert(kt1[j as int] == e);
                        }
                    }
                    if kt1.contains(x) {
                        let i = choose|i: int| 0 <= i < kt1.len() && kt1[i] == x;
                        if i < j {
                            assert(kt[i] == x);
                            assert(before.contains(x));
                            let i2 = choose|i2: int| 0 <= i2 < before.len() && before[i2] == x;
                            if i2 < q {
                                assert(out@[i2] == x);
                            } else {
                                assert(out@[i2 + 1] == x);
                            }
                        } else {
                            assert(out@[q as int] == e);
                        }
                    }
                }
            }
        }
        j = j + 1;
    }
    proof {
        assert(kept@.take(kept@.len() as int) =~= kept@);
        law_kept_edges_acyclic(edges@);
        lemma_same_edges_same_reach(out@, kept@);
    }
    out
}

// ---------------------------------------------------------------------------
// Longest-path ranks
// ---------------------------------------------------------------------------

/// Edge `k` has been taken into account: its source is done, or it is an
/// edge of `v` (the node being processed) before index `j`.
pub open spec fn considered(edges: Seq<Edge>, done: Set<usize>, v: usize, j: int, k: int) -> bool {
    done.contains(edges[k].0) || (edges[k].0 == v && k < j)
}

/// How many of the first `m` edges end at `x` and have not been taken
/// into account.
pub open spec fn pending_upto(
    es: Seq<Edge>,
    m: int,
    x: usize,
    done: Set<usize>,
    v: usize,
    j: int,
) -> nat
    decreases m,
{
    if m <= 0 {
        0
    } else {
        pending_upto(es, m - 1, x, done, v, j) + if es[m - 1].1 == x && !considered(
            es,
            done,
            v,
            j,
            m - 1,
        ) {
            1nat
        } else {
            0nat
        }
    }
}

pub open spec fn pending_into(es: Seq<Edge>, x: usize, done: Set<usize>, v: usize, j: int) -> nat {
    pending_upto(es, es.len() as int, x, done, v, j)
}

proof fn lemma_pending_le(es: Seq<Edge>, m: int, x: usize, done: Set<usize>, v: usize, j: int)
    requires
        m >= 0,
    ensures
        pending_upto(es, m, x, done, v, j) <= m,
    decreases m,
{
    if m > 0 {
        lemma_pending_le(es, m - 1, x, done, v, j);
    }
}

proof fn lemma_pending_zero(es: Seq<Edge>, m: int, x: usize, done: Set<usize>, v: usize, j: int, k: int)
    requires
        pending_upto(es, m, x, done, v, j) == 0,
        0 <= k < m,
    ensures
        !(es[k].1 == x && !considered(es, done, v, j, k)),
    decreases m,
{
    if k < m - 1 {
        lemma_pending_zero(es, m - 1, x, done, v, j, k);
    }
}

proof fn lemma_pending_pos(es: Seq<Edge>, m: int, x: usize, done: Set<usize>, v: usize, j: int, k: int)
    requires
        0 <= k < m,
        es[k].1 == x && !considered(es, done, v, j, k),
    ensures
        pending_upto(es, m, x, done, v, j) >= 1,
    decreases m,
{
    if k < m - 1 {
        lemma_pending_pos(es, m - 1, x, done, v, j, k);
    }
}

/// Two views that agree on which of the first `m` edges are pending give
/// the same count.
proof fn lemma_pending_agree(
    es: Seq<Edge>,
    m: int,
    x: usize,
    d1: Set<usize>,
    v1: usize,
    j1: int,
    d2: Set<usize>,
    v2: usize,
    j2: int,
)
    requires
        forall|k: int|
            0 <= k < m && es[k].1 == x ==> considered(es, d1, v1, j1, k) == considered(es, d2, v2, j2, k),
    ensures
        pending_upto(es, m, x, d1, v1, j1) == pending_upto(es, m, x, d2, v2, j2),
    decreases m,
{
    if m > 0 {
        lemma_pending_agree(es, m - 1, x, d1, v1, j1, d2, v2, j2);
    }
}

/// Taking edge `j` into account lowers the count of its target by one.
proof fn lemma_pending_drop(es: Seq<Edge>, m: int, x: usize, done: Set<usize>, v: usize, j: int)
    requires
        0 <= j < m,
        es[j].0 == v,
        es[j].1 == x,
        !done.contains(v),
    ensures
        pending_upto(es, m, x, done, v, j + 1) + 1 == pending_upto(es, m, x, done, v, j),
    decreases m,
{
    if j < m - 1 {
        lemma_pending_drop(es, m - 1, x, done, v, j);
    } else {
        lemma_pending_agree(es, m - 1, x, done, v, j + 1, done, v, j);
    }
}

/// The length of the longest walk ending at each node: every edge leads
/// to a higher rank, and a node of positive rank is one more than the rank
/// of one of its predecessors.
pub open spec fn longest_path_ranked(edges: Seq<Edge>, ranks: Seq<usize>) -> bool {
    &&& forall|e: Edge| edges.contains(e) ==> ranks[e.1 as int] >= ranks[e.0 as int] + 1
    &&& forall|x: int|
        0 <= x < ranks.len() && #[trigger] ranks[x] > 0 ==> exists|e: Edge|
            edges.contains(e) && e.1 == x && ranks[x] == ranks[e.0 as int] + 1
}

proof fn lemma_pigeonhole(s: Seq<usize>, n: usize)
    requires
        s.no_duplicates(),
        forall|i: int| 0 <= i < s.len() ==> s[i] < n,
    ensures
        s.len() <= n,
{
    let t = s.map_values(|x: usize| x as int);
    assert(t.no_duplicates()) by {
        assert forall|i: int, j: int| 0 <= i < t.len() && 0 <= j < t.len() && i != j implies t[i] != t[j] by {
            assert(s[i] != s[j]);
        }
    }
    t.unique_seq_to_set();
    vstd::set_lib::lemma_int_range(0, n as int);
    assert(t.to_set().subset_of(vstd::set_lib::set_int_range(0, n as int))) by {
        assert forall|x: int| t.to_set().contains(x) implies vstd::set_lib::set_int_range(0, n as int).contains(x) by {
            assert(t.contains(x));
            let i = choose|i: int| 0 <= i < t.len() && t[i] == x;
            assert(s[i] < n);
        }
    }
    vstd::set_lib::lemma_len_subset(t.to_set(), vstd::set_lib::set_int_range(0, n as int));
}

/// A walk of `m` nodes, none of them in `inq`, ending at `x0`: every node
/// outside `inq` has a predecessor outside `inq`.
proof fn lemma_backward_chain(es: Seq<Edge>, n: usize, inq: Set<usize>, x0: usize, m: nat) -> (w: Seq<usize>)
    requires
        m >= 1,
        all_below(es, n),
        x0 < n,
        !inq.contains(x0),
        forall|x: usize|
            x < n && !inq.contains(x) ==> exists|k: int|
                0 <= k < es.len() && (#[trigger] es[k]).1 == x && !inq.contains(es[k].0),
    ensures
        w.len() == m,
        is_walk(es, w),
        w.last() == x0,
        forall|i: int| 0 <= i < w.len() ==> w[i] < n && !inq.contains(#[trigger] w[i]),
    decreases m,
{
    if m == 1 {
        let w = seq![x0];
        assert(is_walk(es, w));
        w
    } else {
        let v = lemma_backward_chain(es, n, inq, x0, (m - 1) as nat);
        let y = v[0];
        assert(y < n && !inq.contains(y));
        let k = choose|k: int| 0 <= k < es.len() && (#[trigger] es[k]).1 == y && !inq.contains(es[k].0);
        let u = es[k].0;
        assert(u < n);
        let w = seq![u] + v;
        assert forall|i: int| 0 <= i < w.len() - 1 implies #[trigger] walk_step(es, w, i) by {
            if i == 0 {
                assert(es.contains(es[k]));
                assert(w[0] == u && w[1] == y);
            } else {
                assert(walk_step(es, v, i - 1));
                assert(w[i] == v[i - 1] && w[i + 1] == v[i]);
            }
        }
        assert forall|i: int| 0 <= i < w.len() implies w[i] < n && !inq.contains(#[trigger] w[i]) by {
            if i > 0 {
                assert(w[i] == v[i - 1]);
            }
        }
        w
    }
}

/// When some node lies outside `inq` and every node outside `inq` has a
/// predecessor outside `inq`, the graph has a cycle.
proof fn lemma_some_source(es: Seq<Edge>, n: usize, inq: Set<usize>, x0: usize)
    requires
        all_below(es, n),
        x0 < n,
        !inq.contains(x0),
        forall|x: usize|
            x < n && !inq.contains(x) ==> exists|k: int|
                0 <= k < es.len() && (#[trigger] es[k]).1 == x && !inq.contains(es[k].0),
    ensures
        !acyclic(es),
{
    let w = lemma_backward_chain(es, n, inq, x0, (n + 1) as nat);
    if w.no_duplicates() {
        lemma_pigeonhole(w, n);
    }
    let (i, j) = choose|i: int, j: int| 0 <= i < w.len() && 0 <= j < w.len() && i != j && w[i] == w[j];
    let (a, b) = if i < j {
        (i, j)
    } else {
        (j, i)
    };
    assert(walk_step(es, w, a));
    let e = (w[a], w[a + 1]);
    assert(es.contains(e));
    let sub = w.subrange(a + 1, b + 1);
    assert forall|q: int| 0 <= q < sub.len() - 1 implies #[trigger] walk_step(es, sub, q) by {
        assert(walk_step(es, w, a + 1 + q));
        assert(sub[q] == w[a + 1 + q] && sub[q + 1] == w[a + 2 + q]);
    }
    assert(is_walk(es, sub) && sub[0] == e.1 && sub.last() == e.0);
    assert(reaches(es, e.1, e.0));
}

#[verifier::opaque]
spec fn rank_edges_ok(es: Seq<Edge>, ranks: Seq<usize>, done: Set<usize>, v: usize, j: int) -> bool {
    forall|q: int|
        0 <= q < es.len() && considered(es, done, v, j, q) ==> ranks[es[q].1 as int] >= ranks[es[q].0 as int] + 1
}

#[verifier::opaque]
spec fn rank_witnessed(es: Seq<Edge>, ranks: Seq<usize>, done: Set<usize>, v: usize, j: int) -> bool {
    forall|z: int|
        0 <= z < ranks.len() && ranks[z] > 0 ==> exists|q: int|
            0 <= q < es.len() && considered(es, done, v, j, q) && (#[trigger] es[q]).1 == z && ranks[z]
                == ranks[es[q].0 as int] + 1
}

#[verifier::opaque]
spec fn indeg_ok(es: Seq<Edge>, indeg: Seq<usize>, done: Set<usize>, v: usize, j: int) -> bool {
    forall|z: int| 0 <= z < indeg.len() ==> indeg[z] == pending_into(es, z as usize, done, v, j)
}

#[verifier::opaque]
spec fn queued_iff_free(indeg: Seq<usize>, queue: Seq<usize>) -> bool {
    forall|z: int| 0 <= z < indeg.len() ==> (indeg[z] == 0) == queue.contains(z as usize)
}

/// An edge whose source is not `v` changes nothing when passed over.
proof fn lemma_pass_other_edge(
    es: Seq<Edge>,
    ranks: Seq<usize>,
    indeg: Seq<usize>,
    done: Set<usize>,
    v: usize,
    j: int,
)
    requires
        0 <= j < es.len(),
        es[j].0 != v,
        rank_edges_ok(es, ranks, done, v, j),
        rank_witnessed(es, ranks, done, v, j),
        indeg_ok(es, indeg, done, v, j),
    ensures
        rank_edges_ok(es, ranks, done, v, j + 1),
        rank_witnessed(es, ranks, done, v, j + 1),
        indeg_ok(es, indeg, done, v, j + 1),
{
    reveal(rank_edges_ok);
    reveal(rank_witnessed);
    reveal(indeg_ok);
    assert forall|q: int| 0 <= q < es.len() implies considered(es, done, v, j + 1, q) == considered(
        es,
        done,
        v,
        j,
        q,
    ) by {}
    assert forall|q: int|
        0 <= q < es.len() && considered(es, done, v, j + 1, q) implies ranks[es[q].1 as int] >= ranks[es[q].0 as int] + 1 by {
        assert(considered(es, done, v, j, q));
    }
    assert forall|z: int| 0 <= z < indeg.len() implies indeg[z] == pending_into(es, z as usize, done, v, j + 1) by {
        lemma_pending_agree(es, es.len() as int, z as usize, done, v, j + 1, done, v, j);
    }
    assert forall|z: int| 0 <= z < ranks.len() && ranks[z] > 0 implies exists|q: int|
        0 <= q < es.len() && considered(es, done, v, j + 1, q) && (#[trigger] es[q]).1 == z && ranks[z]
            == ranks[es[q].0 as int] + 1 by {
        let q = choose|q: int|
            0 <= q < es.len() && considered(es, done, v, j, q) && (#[trigger] es[q]).1 == z && ranks[z]
                == ranks[es[q].0 as int] + 1;
        assert(considered(es, done, v, j + 1, q));
    }
}

/// Facts about the target `b` of an edge `(v, b)` that has not been taken
/// into account yet, while `v` is being processed.
proof fn lemma_edge_target(
    es: Seq<Edge>,
    indeg: Seq<usize>,
    queue: Seq<usize>,
    done: Set<usize>,
    v: usize,
    j: int,
    b: usize,
    head: int,
)
    requires
        0 <= j < es.len(),
        es[j] == (v, b),
        b < indeg.len(),
        !done.contains(v),
        0 <= head < queue.len(),
        queue[head] == v,
        done == queue.take(head).to_set(),
        indeg_ok(es, indeg, done, v, j),
        queued_iff_free(indeg, queue),
    ensures
        indeg[b as int] >= 1,
        !queue.contains(b),
        b != v,
        !done.contains(b),
{
    reveal(indeg_ok);
    reveal(queued_iff_free);
    assert(!considered(es, done, v, j, j));
    lemma_pending_pos(es, es.len() as int, b, done, v, j, j);
    assert(indeg[b as int] == pending_into(es, b, done, v, j));
    assert(queue.contains(v));
    if done.contains(b) {
        let t = queue.take(head);
        assert(t.contains(b));
        let i = choose|i: int| 0 <= i < t.len() && t[i] == b;
        assert(queue[i] == b);
    }
}

/// Passing the edge `(v, b)`: `b`'s rank rises to at least one more than
/// `v`'s, and the edge is now taken into account.
proof fn lemma_pass_own_edge(
    es: Seq<Edge>,
    old_r: Seq<usize>,
    new_r: Seq<usize>,
    done: Set<usize>,
    v: usize,
    j: int,
    b: usize,
)
    requires
        0 <= j < es.len(),
        es[j] == (v, b),
        b != v,
        !done.contains(b),
        b < old_r.len(),
        v < old_r.len(),
        new_r.len() == old_r.len(),
        all_below(es, old_r.len() as usize),
        old_r.len() <= usize::MAX,
        new_r[b as int] >= old_r[v as int] + 1,
        new_r[b as int] >= old_r[b as int],
        new_r[b as int] == old_r[b as int] || new_r[b as int] == old_r[v as int] + 1,
        forall|z: int| 0 <= z < old_r.len() && z != b ==> new_r[z] == old_r[z],
        rank_edges_ok(es, old_r, done, v, j),
        rank_witnessed(es, old_r, done, v, j),
    ensures
        rank_edges_ok(es, new_r, done, v, j + 1),
        rank_witnessed(es, new_r, done, v, j + 1),
{
    reveal(rank_edges_ok);
    reveal(rank_witnessed);
    assert forall|q: int| 0 <= q < es.len() && considered(es, done, v, j + 1, q) implies new_r[es[q].1 as int]
        >= new_r[es[q].0 as int] + 1 by {
        assert(es[q].0 < old_r.len() && es[q].1 < old_r.len());
        if q != j {
            assert(considered(es, done, v, j, q));
            assert(es[q].0 != b);
            assert(old_r[es[q].1 as int] >= old_r[es[q].0 as int] + 1);
        }
    }
    assert forall|z: int| 0 <= z < new_r.len() && new_r[z] > 0 implies exists|q: int|
        0 <= q < es.len() && considered(es, done, v, j + 1, q) && (#[trigger] es[q]).1 == z && new_r[z]
            == new_r[es[q].0 as int] + 1 by {
        if z == b && new_r[z] != old_r[z] {
            assert(considered(es, done, v, j + 1, j) && es[j].1 == z);
        } else {
            assert(old_r[z] > 0);
            let q = choose|q: int|
                0 <= q < es.len() && considered(es, done, v, j, q) && (#[trigger] es[q]).1 == z && old_r[z]
                    == old_r[es[q].0 as int] + 1;
            assert(es[q].0 != b);
            assert(es[q].0 < old_r.len());
            assert(considered(es, done, v, j + 1, q));
        }
    }
}

/// Passing the edge `(v, b)` lowers `b`'s count of pending edges by one;
/// `b` joins the queue when it reaches zero.
proof fn lemma_pass_own_edge_indeg(
    es: Seq<Edge>,
    old_i: Seq<usize>,
    new_i: Seq<usize>,
    old_q: Seq<usize>,
    new_q: Seq<usize>,
    done: Set<usize>,
    v: usize,
    j: int,
    b: usize,
)
    requires
        0 <= j < es.len(),
        es[j] == (v, b),
        !done.contains(v),
        b < old_i.len(),
        old_i.len() <= usize::MAX,
        old_i[b as int] >= 1,
        !old_q.contains(b),
        new_i == old_i.update(b as int, (old_i[b as int] - 1) as usize),
        new_q == (if new_i[b as int] == 0 {
            old_q.push(b)
        } else {
            old_q
        }),
        indeg_ok(es, old_i, done, v, j),
        queued_iff_free(old_i, old_q),
    ensures
        indeg_ok(es, new_i, done, v, j + 1),
        queued_iff_free(new_i, new_q),
{
    reveal(indeg_ok);
    reveal(queued_iff_free);
    lemma_pending_drop(es, es.len() as int, b, done, v, j);
    assert forall|z: int| 0 <= z < new_i.len() implies new_i[z] == pending_into(es, z as usize, done, v, j + 1) by {
        if z != b {
            assert forall|k: int| 0 <= k < es.len() && es[k].1 == z as usize implies considered(
                es,
                done,
                v,
                j + 1,
                k,
            ) == considered(es, done, v, j, k) by {}
            lemma_pending_agree(es, es.len() as int, z as usize, done, v, j + 1, done, v, j);
        }
    }
    if new_i[b as int] == 0 {
        assert(new_q == old_q.push(b));
    } else {
        assert(new_q == old_q);
    }
    assert forall|z: int| 0 <= z < new_i.len() implies (new_i[z] == 0) == new_q.contains(z as usize) by {
        if z != b {
            if new_q.contains(z as usize) {
                let i = choose|i: int| 0 <= i < new_q.len() && new_q[i] == z as usize;
                if i < old_q.len() {
                    assert(old_q[i] == z);
                }
            }
            if old_q.contains(z as usize) {
                let i = choose|i: int| 0 <= i < old_q.len() && old_q[i] == z as usize;
                assert(new_q[i] == z);
            }
        } else if new_i[z] == 0 {
            assert(new_q[new_q.len() - 1] == b);
        }
    }
}

/// Once all of `v`'s edges are passed, `v` counts as done.
proof fn lemma_finish_node(
    es: Seq<Edge>,
    ranks: Seq<usize>,
    indeg: Seq<usize>,
    done: Set<usize>,
    v: usize,
)
    requires
        rank_edges_ok(es, ranks, done, v, es.len() as int),
        rank_witnessed(es, ranks, done, v, es.len() as int),
        indeg_ok(es, indeg, done, v, es.len() as int),
    ensures
        rank_edges_ok(es, ranks, done.insert(v), 0, 0),
        rank_witnessed(es, ranks, done.insert(v), 0, 0),
        indeg_ok(es, indeg, done.insert(v), 0, 0),
{
    reveal(rank_edges_ok);
    reveal(rank_witnessed);
    reveal(indeg_ok);
    let d2 = done.insert(v);
    assert forall|q: int| 0 <= q < es.len() implies considered(es, done, v, es.len() as int, q)
        == considered(es, d2, 0, 0, q) by {}
    assert forall|z: int| 0 <= z < indeg.len() implies indeg[z] == pending_into(es, z as usize, d2, 0, 0) by {
        lemma_pending_agree(es, es.len() as int, z as usize, d2, 0, 0, done, v, es.len() as int);
    }
    assert forall|z: int| 0 <= z < ranks.len() && ranks[z] > 0 implies exists|q: int|
        0 <= q < es.len() && considered(es, d2, 0, 0, q) && (#[trigger] es[q]).1 == z && ranks[z]
            == ranks[es[q].0 as int] + 1 by {
        let q = choose|q: int|
            0 <= q < es.len() && considered(es, done, v, es.len() as int, q) && (#[trigger] es[q]).1 == z
                && ranks[z] == ranks[es[q].0 as int] + 1;
        assert(considered(es, d2, 0, 0, q));
    }
}

/// Starting to process `v` changes nothing yet.
proof fn lemma_start_node(es: Seq<Edge>, ranks: Seq<usize>, indeg: Seq<usize>, done: Set<usize>, v: usize)
    requires
        rank_edges_ok(es, ranks, done, 0, 0),
        rank_witnessed(es, ranks, done, 0, 0),
        indeg_ok(es, indeg, done, 0, 0),
    ensures
        rank_edges_ok(es, ranks, done, v, 0),
        rank_witnessed(es, ranks, done, v, 0),
        indeg_ok(es, indeg, done, v, 0),
{
    reveal(rank_edges_ok);
    reveal(rank_witnessed);
    reveal(indeg_ok);
    assert forall|q: int| 0 <= q < es.len() implies considered(es, done, v, 0, q) == considered(
        es,
        done,
        0,
        0,
        q,
    ) by {}
    assert forall|z: int| 0 <= z < indeg.len() implies indeg[z] == pending_into(es, z as usize, done, v, 0) by {
        lemma_pending_agree(es, es.len() as int, z as usize, done, v, 0, done, 0, 0);
    }
    assert forall|z: int| 0 <= z < ranks.len() && ranks[z] > 0 implies exists|q: int|
        0 <= q < es.len() && considered(es, done, v, 0, q) && (#[trigger] es[q]).1 == z && ranks[z]
            == ranks[es[q].0 as int] + 1 by {
        let q = choose|q: int|
            0 <= q < es.len() && considered(es, done, 0, 0, q) && (#[trigger] es[q]).1 == z && ranks[z]
                == ranks[es[q].0 as int] + 1;
    }
}

/// When the queue is used up in an acyclic graph, every node was done, and
/// the ranks are longest-path ranks.
proof fn lemma_all_done(
    es: Seq<Edge>,
    n: usize,
    ranks: Seq<usize>,
    indeg: Seq<usize>,
    queue: Seq<usize>,
    done: Set<usize>,
)
    requires
        acyclic(es),
        all_below(es, n),
        ranks.len() == n,
        indeg.len() == n,
        done == queue.to_set(),
        rank_edges_ok(es, ranks, done, 0, 0),
        rank_witnessed(es, ranks, done, 0, 0),
        indeg_ok(es, indeg, done, 0, 0),
        queued_iff_free(indeg, queue),
    ensures
        longest_path_ranked(es, ranks),
{
    reveal(rank_edges_ok);
    reveal(rank_witnessed);
    reveal(indeg_ok);
    reveal(queued_iff_free);
    assert forall|x0: usize| x0 < n implies done.contains(x0) by {
        if !done.contains(x0) {
            assert forall|x1: usize| x1 < n && !done.contains(x1) implies exists|q: int|
                0 <= q < es.len() && (#[trigger] es[q]).1 == x1 && !done.contains(es[q].0) by {
                assert(!queue.contains(x1));
                assert(indeg[x1 as int] != 0);
                if forall|q: int| 0 <= q < es.len() ==> !(es[q].1 == x1 && !considered(es, done, 0, 0, q)) {
                    lemma_pending_none(es, es.len() as int, x1, done, 0, 0);
                }
                let q = choose|q: int| 0 <= q < es.len() && !(!(es[q].1 == x1 && !considered(es, done, 0, 0, q)));
                assert(es[q].1 == x1 && !done.contains(es[q].0));
            }
            lemma_some_source(es, n, done, x0);
        }
    }
    assert forall|e: Edge| es.contains(e) implies ranks[e.1 as int] >= ranks[e.0 as int] + 1 by {
        let q = choose|q: int| 0 <= q < es.len() && es[q] == e;
        assert(es[q].0 < n);
        assert(considered(es, done, 0, 0, q));
    }
    assert forall|z: int| 0 <= z < ranks.len() && #[trigger] ranks[z] > 0 implies exists|e: Edge|
        es.contains(e) && e.1 == z && ranks[z] == ranks[e.0 as int] + 1 by {
        let q = choose|q: int|
            0 <= q < es.len() && considered(es, done, 0, 0, q) && (#[trigger] es[q]).1 == z && ranks[z]
                == ranks[es[q].0 as int] + 1;
        assert(es.contains(es[q]));
    }
}

/// Ranks by longest path (Kahn's algorithm, first in first out). For an
/// acyclic graph each node's rank is the length of the longest walk that
/// ends at it (see [`longest_path_ranked`]); nodes on a cycle keep what
/// they had gathered when no node was left to process.
fn longest_path_ranks(n: usize, edges: &[Edge]) -> (ranks: Vec<usize>)
    requires
        all_below(edges@, n),
    ensures
        ranks@.len() == n,
        acyclic(edges@) ==> longest_path_ranked(edges@, ranks@),
{
    let ghost es = edges@;
    let ghost empty = Set::<usize>::empty();
    let mut indeg: Vec<usize> = Vec::new();
    let mut ranks: Vec<usize> = Vec::new();
    let mut x: usize = 0;
    while x < n
        invariant
            x <= n,
            indeg@.len() == x,
            ranks@.len() == x,
            forall|y: int| 0 <= y < x ==> indeg@[y] == 0 && ranks@[y] == 0,
        decreases n - x,
    {
        indeg.push(0);
        ranks.push(0);
        x = x + 1;
    }
    let mut k: usize = 0;
    while k < edges.len()
        invariant
            k <= edges@.len(),
            es == edges@,
            all_below(es, n),
            indeg@.len() == n,
            ranks@.len() == n,
            empty == Set::<usize>::empty(),
            forall|y: int| 0 <= y < n ==> ranks@[y] == 0,
            forall|y: int| 0 <= y < n ==> indeg@[y] == pending_upto(es, k as int, y as usize, empty, 0, 0),
        decreases edges.len() - k,
    {
        let b = edges[k].1;
        assert(es[k as int].1 == b && b < n);
        proof {
            lemma_pending_le(es, k as int, b, empty, 0, 0);
            assert(indeg@[b as int] == pending_upto(es, k as int, b, empty, 0, 0));
            assert(!considered(es, empty, 0, 0, k as int));
        }
        let d = indeg[b] + 1;
        indeg.set(b, d);
        proof {
            assert forall|y: int| 0 <= y < n implies indeg@[y] == pending_upto(es, k + 1, y as usize, empty, 0, 0) by {
                assert(pending_upto(es, k + 1, y as usize, empty, 0, 0) == pending_upto(es, k as int, y as usize, empty, 0, 0) + if es[k as int].1 == y as usize {
                    1nat
                } else {
                    0nat
                });
            }
        }
        k = k + 1;
    }
    proof {
        reveal(rank_edges_ok);
        reveal(rank_witnessed);
        reveal(indeg_ok);
        assert(rank_edges_ok(es, ranks@, empty, 0, 0));
        assert(rank_witnessed(es, ranks@, empty, 0, 0));
        assert(indeg_ok(es, indeg@, empty, 0, 0));
    }
    let mut queue: Vec<usize> = Vec::new();
    let mut y: usize = 0;
    while y < n
        invariant
            y <= n,
            indeg@.len() == n,
            queue@.no_duplicates(),
            forall|i: int| 0 <= i < queue@.len() ==> queue@[i] < y,
            forall|z: int| 0 <= z < y ==> (indeg@[z] == 0) == queue@.contains(z as usize),
        decreases n - y,
    {
        let ghost before = queue@;
        if indeg[y] == 0 {
            queue.push(y);
            proof {
                assert(queue@[queue@.len() - 1] == y);
                assert forall|z: usize| z < y implies #[trigger] queue@.contains(z) == before.contains(z) by {
                    if queue@.contains(z) {
                        let i = choose|i: int| 0 <= i < queue@.len() && queue@[i] == z;
                        if i < before.len() {
                            assert(before[i] == z);
                        }
                    }
                    if before.contains(z) {
                        let i = choose|i: int| 0 <= i < before.len() && before[i] == z;
                        assert(queue@[i] == z);
                    }
                }
            }
        } else {
            assert(!queue@.contains(y)) by {
                if queue@.contains(y) {
                    let i = choose|i: int| 0 <= i < queue@.len() && queue@[i] == y;
                }
            }
        }
        y = y + 1;
    }
    proof {
        reveal(queued_iff_free);
    }
    let mut head: usize = 0;
    let ghost mut done = empty;
    assert(queue@.take(0).to_set() =~= empty);
    while head < queue.len()
        invariant
            es == edges@,
            all_below(es, n),
            indeg@.len() == n,
            ranks@.len() == n,
            head <= queue@.len(),
            queue@.no_duplicates(),
            forall|i: int| 0 <= i < queue@.len() ==> queue@[i] < n,
            done == queue@.take(head as int).to_set(),
            indeg_ok(es, indeg@, done, 0, 0),
            queued_iff_free(indeg@, queue@),
            rank_edges_ok(es, ranks@, done, 0, 0),
            rank_witnessed(es, ranks@, done, 0, 0),
            forall|z: int| 0 <= z < n ==> ranks@[z] <= head,
        decreases n - head,
    {
        proof {
            lemma_pigeonhole(queue@, n);
        }
        let v = queue[head];
        assert(!done.contains(v)) by {
            if done.contains(v) {
                let t = queue@.take(head as int);
                assert(t.contains(v));
                let i = choose|i: int| 0 <= i < t.len() && t[i] == v;
                assert(queue@[i] == queue@[head as int]);
            }
        }
        let ghost rv = ranks@[v as int];
        proof {
            lemma_start_node(es, ranks@, indeg@, done, v);
        }
        let mut j: usize = 0;
        while j < edges.len()
            invariant
                es == edges@,
                all_below(es, n),
                indeg@.len() == n,
                ranks@.len() == n,
                head < queue.len(),
                head < queue@.len(),
                queue@.no_duplicates(),
                forall|i: int| 0 <= i < queue@.len() ==> queue@[i] < n,
                done == queue@.take(head as int).to_set(),
                v == queue@[head as int],
                v < n,
                !done.contains(v),
                ranks@[v as int] == rv,
                rv <= head,
                j <= es.len(),
                indeg_ok(es, indeg@, done, v, j as int),
                queued_iff_free(indeg@, queue@),
                rank_edges_ok(es, ranks@, done, v, j as int),
                rank_witnessed(es, ranks@, done, v, j as int),
                forall|z: int| 0 <= z < n ==> ranks@[z] <= head + 1,
            decreases edges.len() - j,
        {
            let (a, b) = edges[j];
            assert(es[j as int] == (a, b));
            assert(b < n && a < n);
            if a == v {
                proof {
                    lemma_edge_target(es, indeg@, queue@, done, v, j as int, b, head as int);
                }
                let ghost old_ranks = ranks@;
                let ghost old_indeg = indeg@;
                let ghost old_queue = queue@;
                let nr = ranks[v] + 1;
                if ranks[b] < nr {
                    ranks.set(b, nr);
                }
                proof {
                    lemma_pass_own_edge(es, old_ranks, ranks@, done, v, j as int, b);
                }
                let d = indeg[b] - 1;
                indeg.set(b, d);
                if d == 0 {
                    queue.push(b);
                    proof {
                        assert(queue@.take(head as int) =~= old_queue.take(head as int));
                        assert(queue@.no_duplicates()) by {
                            assert forall|i1: int, i2: int|
                                0 <= i1 < queue@.len() && 0 <= i2 < queue@.len() && i1 != i2 implies queue@[i1]
                                != queue@[i2] by {
                                if i1 < old_queue.len() && i2 < old_queue.len() {
                                    assert(old_queue[i1] != old_queue[i2]);
                                } else if i1 < old_queue.len() {
                                    assert(old_queue.contains(old_queue[i1]));
                                } else if i2 < old_queue.len() {
                                    assert(old_queue.contains(old_queue[i2]));
                                }
                            }
                        }
                    }
                }
                proof {
                    lemma_pass_own_edge_indeg(es, old_indeg, indeg@, old_queue, queue@, done, v, j as int, b);
                }
            } else {
                proof {
                    lemma_pass_other_edge(es, ranks@, indeg@, done, v, j as int);
                }
            }
            j = j + 1;
        }
        proof {
            lemma_finish_node(es, ranks@, indeg@, done, v);
            let done2 = done.insert(v);
            let t = queue@.take(head as int);
            assert(queue@.take(head + 1) =~= t.push(v));
            assert forall|w: usize| t.push(v).to_set().contains(w) <==> done2.contains(w) by {
                if t.push(v).to_set().contains(w) {
                    assert(t.push(v).contains(w));
                    let i = choose|i: int| 0 <= i < t.push(v).len() && t.push(v)[i] == w;
                    if i < t.len() {
                        assert(t.contains(w));
                    }
                }
                if t.to_set().contains(w) {
                    assert(t.contains(w));
                    let i = choose|i: int| 0 <= i < t.len() && t[i] == w;
                    assert(t.push(v)[i] == w);
                }
                if w == v {
                    assert(t.push(v)[t.len() as int] == v);
                }
            }
            assert(queue@.take(head + 1).to_set() =~= done2);
            done = done2;
        }
        head = head + 1;
    }
    proof {
        assert(queue@.take(head as int) =~= queue@);
        if acyclic(es) {
            lemma_all_done(es, n, ranks@, indeg@, queue@, done);
        }
    }
    ranks
}

proof fn lemma_pending_none(es: Seq<Edge>, m: int, x: usize, done: Set<usize>, v: usize, j: int)
    requires
        m <= es.len(),
        forall|q: int| 0 <= q < es.len() ==> !(es[q].1 == x && !considered(es, done, v, j, q)),
    ensures
        pending_upto(es, m, x, done, v, j) == 0,
    decreases m,
{
    if m > 0 {
        lemma_pending_none(es, m - 1, x, done, v, j);
    }
}

// ---------------------------------------------------------------------------
// Rank assignment
// ---------------------------------------------------------------------------

/// Relation kinds that place one class above another.
pub open spec fn propagates_rank(k: RelationKind) -> bool {
    k is Extension || k is Implementation || k is Dependency || k is DashedLink || k is Realization
}

pub open spec fn is_dependency(k: RelationKind) -> bool {
    k is Dependency || k is DashedLink
}

/// The name of the first class that `s` names, by name or by alias.
pub open spec fn canonical_from(classes: Seq<ClassNode>, s: Seq<char>, i: int) -> Option<Seq<char>>
    decreases classes.len() - i,
{
    if i < 0 || i >= classes.len() {
        None
    } else if classes[i].name@ == s || opt_text(classes[i].alias) == Some(s) {
        Some(classes[i].name@)
    } else {
        canonical_from(classes, s, i + 1)
    }
}

/// Index of the last class called `name`.
pub open spec fn name_index(classes: Seq<ClassNode>, name: Seq<char>) -> Option<int>
    decreases classes.len(),
{
    if classes.len() == 0 {
        None
    } else if classes.last().name@ == name {
        Some(classes.len() - 1)
    } else {
        name_index(classes.drop_last(), name)
    }
}

/// The rank edge (parent, child) a relation gives, if any: only ranking
/// kinds count, both ends must name a class, and a class is not its own
/// parent. Dependencies point from source to target when `s2t` holds;
/// every other ranking relation puts its target above its source.
pub open spec fn relation_edge(classes: Seq<ClassNode>, from: Seq<char>, to: Seq<char>, kind: RelationKind, s2t: bool) -> Option<Edge> {
    if !propagates_rank(kind) {
        None
    } else {
        match (canonical_from(classes, from, 0), canonical_from(classes, to, 0)) {
            (Some(a), Some(b)) => {
                let (pn, cn) = if s2t && is_dependency(kind) {
                    (a, b)
                } else {
                    (b, a)
                };
                match (name_index(classes, pn), name_index(classes, cn)) {
                    (Some(p), Some(c)) => if p != c {
                        Some((p as usize, c as usize))
                    } else {
                        None
                    },
                    _ => None,
                }
            },
            _ => None,
        }
    }
}

/// The rank edges of the first `m` relations, in order.
pub open spec fn rank_edges(d: ClassDiagram, m: int) -> Seq<Edge>
    decreases m,
{
    if m <= 0 {
        seq![]
    } else {
        let prev = rank_edges(d, m - 1);
        let rel = d.relations@[m - 1];
        match relation_edge(d.classes@, rel.from@, rel.to@, rel.kind, spec_source_to_target(d)) {
            Some(e) => prev.push(e),
            None => prev,
        }
    }
}

/// The rank edges of the whole diagram that survive cycle breaking.
pub open spec fn ranking_dag(d: ClassDiagram) -> Seq<Edge> {
    kept_edges(rank_edges(d, d.relations@.len() as int))
}

proof fn lemma_name_index(classes: Seq<ClassNode>, name: Seq<char>)
    ensures
        name_index(classes, name) is Some ==> 0 <= name_index(classes, name)->0 < classes.len(),
    decreases classes.len(),
{
    if classes.len() > 0 {
        lemma_name_index(classes.drop_last(), name);
    }
}

proof fn lemma_rank_edges_below(d: ClassDiagram, m: int)
    requires
        d.classes@.len() <= usize::MAX,
    ensures
        all_below(rank_edges(d, m), d.classes@.len() as usize),
    decreases m,
{
    if m > 0 {
        lemma_rank_edges_below(d, m - 1);
        let rel = d.relations@[m - 1];
        let s2t = spec_source_to_target(d);
        match (canonical_from(d.classes@, rel.from@, 0), canonical_from(d.classes@, rel.to@, 0)) {
            (Some(a), Some(b)) => {
                lemma_name_index(d.classes@, a);
                lemma_name_index(d.classes@, b);
            },
            _ => {},
        }
    }
}

fn canonical_name(classes: &Vec<ClassNode>, s: &[char]) -> (r: Option<Vec<char>>)
    ensures
        match r {
            Some(v) => canonical_from(classes@, s@, 0) == Some(v@),
            None => canonical_from(classes@, s@, 0) is None,
        },
{
    let mut i: usize = 0;
    while i < classes.len()
        invariant
            i <= classes@.len(),
            canonical_from(classes@, s@, 0) == canonical_from(classes@, s@, i as int),
        decreases classes.len() - i,
    {
        let c = &classes[i];
        let name = chars_of(c.name.as_str());
        let by_alias = match &c.alias {
            Some(a) => {
                let ac = chars_of(a.as_str());
                eq(ac.as_slice(), s)
            },
            None => false,
        };
        if eq(name.as_slice(), s) || by_alias {
            return Some(name);
        }
        i = i + 1;
    }
    None
}

fn class_index(classes: &Vec<ClassNode>, name: &[char]) -> (r: Option<usize>)
    ensures
        match r {
            Some(i) => name_index(classes@, name@) == Some(i as int),
            None => name_index(classes@, name@) is None,
        },
{
    let mut j: usize = classes.len();
    assert(classes@.take(j as int) =~= classes@);
    while j > 0
        invariant
            j <= classes@.len(),
            name_index(classes@, name@) == name_index(classes@.take(j as int), name@),
        decreases j,
    {
        assert(classes@.take(j as int).drop_last() =~= classes@.take(j - 1));
        let c = chars_of(classes[j - 1].name.as_str());
        if eq(c.as_slice(), name) {
            return Some(j - 1);
        }
        j = j - 1;
    }
    None
}

/// The rank (row) of every class, in class order: rank edges come from the
/// ranking relations (see [`relation_edge`]); those that would close a cycle
/// are dropped in relation order (see [`kept_edges`]); then each class's
/// rank is the length of the longest chain of kept edges that ends at it
/// (see [`longest_path_ranked`]). Classes are named by name or alias; where
/// two classes share a name, edges go to the last of them.
pub fn assign_ranks(diagram: &ClassDiagram) -> (r: Vec<usize>)
    ensures
        r@.len() == diagram.classes@.len(),
        longest_path_ranked(ranking_dag(*diagram), r@),
{
    let s2t = uses_source_to_target_dependency_ranks(diagram);
    let n = diagram.classes.len();
    let ghost d = *diagram;
    let mut edges: Vec<Edge> = Vec::new();
    let mut k: usize = 0;
    while k < diagram.relations.len()
        invariant
            k <= diagram.relations@.len(),
            d == *diagram,
            n == diagram.classes@.len(),
            s2t == spec_source_to_target(d),
            edges@ == rank_edges(d, k as int),
        decreases diagram.relations.len() - k,
    {
        let rel = &diagram.relations[k];
        let kind = rel.kind;
        if matches!(kind, RelationKind::Extension | RelationKind::Implementation | RelationKind::Dependency | RelationKind::DashedLink | RelationKind::Realization) {
            let from = chars_of(rel.from.as_str());
            let to = chars_of(rel.to.as_str());
            match (canonical_name(&diagram.classes, from.as_slice()), canonical_name(&diagram.classes, to.as_slice())) {
                (Some(a), Some(b)) => {
                    let dependency = matches!(kind, RelationKind::Dependency | RelationKind::DashedLink);
                    let (pn, cn) = if s2t && dependency {
                        (a, b)
                    } else {
                        (b, a)
                    };
                    match (class_index(&diagram.classes, pn.as_slice()), class_index(&diagram.classes, cn.as_slice())) {
                        (Some(p), Some(c)) => {
                            if p != c {
                                edges.push((p, c));
                            }
                        },
                        _ => {},
                    }
                },
                _ => {},
            }
        }
        k = k + 1;
    }
    proof {
        lemma_rank_edges_below(d, d.relations@.len() as int);
    }
    let dag = break_ranking_cycles(n, edges.as_slice());
    proof {
        law_kept_edges_are_input_edges(edges@);
        assert forall|i: int| 0 <= i < dag@.len() implies (#[trigger] dag@[i]).0 < n && dag@[i].1 < n by {
            assert(dag@.contains(dag@[i]));
            assert(kept_edges(edges@).contains(dag@[i]));
            assert(edges@.contains(dag@[i]));
            let q = choose|q: int| 0 <= q < edges@.len() && edges@[q] == dag@[i];
        }
    }
    let ranks = longest_path_ranks(n, dag.as_slice());
    proof {
        lemma_ranked_same_edges(dag@, ranking_dag(d), ranks@);
    }
    ranks
}

proof fn lemma_ranked_same_edges(a: Seq<Edge>, b: Seq<Edge>, ranks: Seq<usize>)
    requires
        forall|e: Edge| a.contains(e) <==> b.contains(e),
        longest_path_ranked(a, ranks),
    ensures
        longest_path_ranked(b, ranks),
{
}

/// Along any walk, ranks grow by at least one per edge: the rank of a
/// node is at least the number of edges of any walk that ends at it.
pub proof fn law_rank_bounds_every_chain(es: Seq<Edge>, ranks: Seq<usize>, w: Seq<usize>)
    requires
        longest_path_ranked(es, ranks),
        is_walk(es, w),
    ensures
        ranks[w.last() as int] >= ranks[w[0] as int] + w.len() - 1,
        ranks[w.last() as int] >= w.len() - 1,
    decreases w.len(),
{
    if w.len() > 1 {
        let v = w.drop_last();
        assert(is_walk(es, v)) by {
            assert forall|i: int| 0 <= i < v.len() - 1 implies #[trigger] walk_step(es, v, i) by {
                assert(walk_step(es, w, i));
            }
        }
        law_rank_bounds_every_chain(es, ranks, v);
        assert(walk_step(es, w, w.len() - 2));
        assert(es.contains((w[w.len() - 2], w[w.len() - 1])));
    }
}

/// A node of rank `r` is the end of a walk of exactly `r` edges: together
/// with the law above, a rank is the length of the longest chain of edges
/// that ends at the node.
pub proof fn law_rank_is_reached_by_a_chain(es: Seq<Edge>, ranks: Seq<usize>, v: usize)
    requires
        longest_path_ranked(es, ranks),
        all_below(es, ranks.len() as usize),
        ranks.len() <= usize::MAX,
        v < ranks.len(),
    ensures
        exists|w: Seq<usize>| is_walk(es, w) && w.last() == v && w.len() == ranks[v as int] + 1,
    decreases ranks[v as int],
{
    if ranks[v as int] == 0 {
        let w = seq![v];
        assert(is_walk(es, w) && w.last() == v && w.len() == ranks[v as int] + 1);
    } else {
        let e = choose|e: Edge| es.contains(e) && e.1 == v && ranks[v as int] == ranks[e.0 as int] + 1;
        let q = choose|q: int| 0 <= q < es.len() && es[q] == e;
        assert(es[q].0 < ranks.len());
        let u = e.0;
        law_rank_is_reached_by_a_chain(es, ranks, u);
        let w = choose|w: Seq<usize>| is_walk(es, w) && w.last() == u && w.len() == ranks[u as int] + 1;
        let w2 = w.push(v);
        assert forall|i: int| 0 <= i < w2.len() - 1 implies #[trigger] walk_step(es, w2, i) by {
            if i < w.len() - 1 {
                assert(walk_step(es, w, i));
            } else {
                assert(w2[i] == u && w2[i + 1] == v);
            }
        }
        assert(is_walk(es, w2) && w2.last() == v && w2.len() == ranks[v as int] + 1);
    }
}

/// Longest-path ranks are unique: two rankings that both satisfy
/// [`longest_path_ranked`] for the same edges are the same.
pub proof fn law_ranks_are_unique(es: Seq<Edge>, r1: Seq<usize>, r2: Seq<usize>)
    requires
        longest_path_ranked(es, r1),
        longest_path_ranked(es, r2),
        r1.len() == r2.len(),
        r1.len() <= usize::MAX,
        all_below(es, r1.len() as usize),
    ensures
        r1 == r2,
{
    assert forall|v: int| 0 <= v < r1.len() implies r1[v] == r2[v] by {
        law_rank_is_reached_by_a_chain(es, r2, v as usize);
        let w2 = choose|w: Seq<usize>| is_walk(es, w) && w.last() == v as usize && w.len() == r2[v] + 1;
        law_rank_bounds_every_chain(es, r1, w2);
        law_rank_is_reached_by_a_chain(es, r1, v as usize);
        let w1 = choose|w: Seq<usize>| is_walk(es, w) && w.last() == v as usize && w.len() == r1[v] + 1;
        law_rank_bounds_every_chain(es, r2, w1);
    }
    assert(r1 =~= r2);
}


/// `s` is the name of class `i` and of no other class, and no class has it
/// as an alias.
pub open spec fn names_only(classes: Seq<ClassNode>, s: Seq<char>, i: int) -> bool {
    &&& 0 <= i < classes.len()
    &&& classes[i].name@ == s
    &&& forall|k: int| 0 <= k < classes.len() && k != i ==> (#[trigger] classes[k]).name@ != s
    &&& forall|k: int| 0 <= k < classes.len() ==> opt_text((#[trigger] classes[k]).alias) != Some(s)
}

proof fn lemma_canonical_only(classes: Seq<ClassNode>, s: Seq<char>, i: int, k: int)
    requires
        names_only(classes, s, i),
        0 <= k <= i,
    ensures
        canonical_from(classes, s, k) == Some(s),
    decreases i - k,
{
    if k < i {
        assert(classes[k].name@ != s);
        assert(opt_text(classes[k].alias) != Some(s));
        lemma_canonical_only(classes, s, i, k + 1);
    }
}

proof fn lemma_name_index_only(classes: Seq<ClassNode>, s: Seq<char>, i: int)
    requires
        0 <= i < classes.len(),
        classes[i].name@ == s,
        forall|k: int| 0 <= k < classes.len() && k != i ==> (#[trigger] classes[k]).name@ != s,
    ensures
        name_index(classes, s) == Some(i),
    decreases classes.len(),
{
    if i < classes.len() - 1 {
        let d = classes.drop_last();
        assert(classes.last().name@ != s);
        assert forall|k: int| 0 <= k < d.len() && k != i implies (#[trigger] d[k]).name@ != s by {
            assert(d[k] == classes[k]);
        }
        lemma_name_index_only(d, s, i);
    } else {
        assert(classes.last() == classes[i]);
    }
}

proof fn lemma_rank_edges_prefix(d: ClassDiagram, m: int, n: int)
    requires
        0 <= m <= n,
    ensures
        rank_edges(d, m).len() <= rank_edges(d, n).len(),
        rank_edges(d, n).take(rank_edges(d, m).len() as int) == rank_edges(d, m),
    decreases n - m,
{
    if m < n {
        lemma_rank_edges_prefix(d, m, n - 1);
        let a = rank_edges(d, m);
        let b = rank_edges(d, n - 1);
        let c = rank_edges(d, n);
        if c.len() > b.len() {
            assert(c == b.push(c.last()));
            assert(c.take(a.len() as int) =~= b.take(a.len() as int));
        } else {
            assert(c == b);
        }
    } else {
        assert(rank_edges(d, n).take(rank_edges(d, n).len() as int) =~= rank_edges(d, n));
    }
}

proof fn lemma_reaches_nothing(a: usize, b: usize)
    requires
        reaches(Seq::<Edge>::empty(), a, b),
    ensures
        a == b,
{
    let p = choose|p: Seq<usize>| is_walk(Seq::<Edge>::empty(), p) && p[0] == a && p.last() == b;
    if p.len() > 1 {
        assert(walk_step(Seq::<Edge>::empty(), p, 0));
    }
}

proof fn lemma_reaches_more(a: Seq<Edge>, b: Seq<Edge>, x: usize, y: usize)
    requires
        reaches(a, x, y),
        forall|e: Edge| a.contains(e) ==> b.contains(e),
    ensures
        reaches(b, x, y),
{
    let p = choose|p: Seq<usize>| is_walk(a, p) && p[0] == x && p.last() == y;
    assert forall|i: int| 0 <= i < p.len() - 1 implies #[trigger] walk_step(b, p, i) by {
        assert(walk_step(a, p, i));
    }
}

/// What cycle breaking kept from the first `q` edges it still keeps after
/// the rest.
proof fn lemma_kept_prefix(es: Seq<Edge>, q: int)
    requires
        0 <= q <= es.len(),
    ensures
        forall|e: Edge| kept_edges(es.take(q)).contains(e) ==> kept_edges(es).contains(e),
    decreases es.len() - q,
{
    if q < es.len() {
        lemma_kept_prefix(es.drop_last(), q);
        assert(es.drop_last().take(q) =~= es.take(q));
        let k = kept_edges(es.drop_last());
        lemma_kept_step(es);
        assert forall|e: Edge| kept_edges(es.take(q)).contains(e) implies kept_edges(es).contains(e) by {
            assert(kept_edges(es.drop_last().take(q)).contains(e));
            assert(k.contains(e));
        }
    } else {
        assert(es.take(q) =~= es);
    }
}

proof fn lemma_kept_step(es: Seq<Edge>)
    requires
        es.len() > 0,
    ensures
        forall|e: Edge| kept_edges(es.drop_last()).contains(e) ==> kept_edges(es).contains(e),
        !reaches(kept_edges(es.drop_last()), es.last().1, es.last().0) ==> kept_edges(es)
            == kept_edges(es.drop_last()).push(es.last()),
        reaches(kept_edges(es.drop_last()), es.last().1, es.last().0) ==> kept_edges(es)
            == kept_edges(es.drop_last()),
{
    let k = kept_edges(es.drop_last());
    let (p, c) = es.last();
    assert(es.last() == (p, c));
    if !reaches(k, c, p) {
        assert(kept_edges(es) == k.push((p, c)));
        assert forall|e: Edge| k.contains(e) implies kept_edges(es).contains(e) by {
            let i = choose|i: int| 0 <= i < k.len() && k[i] == e;
            assert(kept_edges(es)[i] == e);
        }
    }
}

/// Every edge is either kept or dropped because what was kept before it
/// already leads back from its end to its start.
proof fn lemma_kept_or_closes(es: Seq<Edge>, q: int)
    requires
        0 <= q < es.len(),
    ensures
        kept_edges(es).contains(es[q]) || reaches(kept_edges(es.take(q)), es[q].1, es[q].0),
{
    let t = es.take(q + 1);
    assert(t.drop_last() =~= es.take(q));
    assert(t.last() == es[q]);
    lemma_kept_step(t);
    if !reaches(kept_edges(es.take(q)), es[q].1, es[q].0) {
        assert(kept_edges(t)[kept_edges(es.take(q)).len() as int] == es[q]);
        assert(kept_edges(t).contains(es[q]));
        lemma_kept_prefix(es, q + 1);
    }
}

/// The relation `m` gives the rank edge `e`, found at position `q` of the
/// diagram's rank edges.
proof fn lemma_relation_edge_at(d: ClassDiagram, m: int) -> (q: int)
    requires
        0 <= m < d.relations@.len(),
        relation_edge(
            d.classes@,
            d.relations@[m].from@,
            d.relations@[m].to@,
            d.relations@[m].kind,
            spec_source_to_target(d),
        ) is Some,
    ensures
        0 <= q < rank_edges(d, d.relations@.len() as int).len(),
        rank_edges(d, d.relations@.len() as int)[q] == relation_edge(
            d.classes@,
            d.relations@[m].from@,
            d.relations@[m].to@,
            d.relations@[m].kind,
            spec_source_to_target(d),
        )->0,
        q == rank_edges(d, m).len(),
{
    let n = d.relations@.len() as int;
    lemma_rank_edges_prefix(d, m + 1, n);
    let q = rank_edges(d, m).len() as int;
    assert(rank_edges(d, m + 1) == rank_edges(d, m).push(relation_edge(
        d.classes@,
        d.relations@[m].from@,
        d.relations@[m].to@,
        d.relations@[m].kind,
        spec_source_to_target(d),
    )->0));
    assert(rank_edges(d, n).take(q + 1)[q] == rank_edges(d, n)[q]);
    q
}

/// The rank edge of a relation of a ranking kind between two classes named
/// each by one class alone: from the target to the source, but from the
/// source to the target for dependencies where those read from caller to
/// callee.
proof fn lemma_relation_edge_of(d: ClassDiagram, m: int, i: int, j: int)
    requires
        0 <= m < d.relations@.len(),
        d.classes@.len() <= usize::MAX,
        ({
            let k = d.relations@[m].kind;
            k is Extension || k is Implementation || k is Dependency || k is DashedLink || k is Realization
        }),
        names_only(d.classes@, d.relations@[m].from@, i),
        names_only(d.classes@, d.relations@[m].to@, j),
        i != j,
    ensures
        relation_edge(
            d.classes@,
            d.relations@[m].from@,
            d.relations@[m].to@,
            d.relations@[m].kind,
            spec_source_to_target(d),
        ) == Some(
            if spec_source_to_target(d) && (d.relations@[m].kind is Dependency || d.relations@[m].kind is DashedLink) {
                (i as usize, j as usize)
            } else {
                (j as usize, i as usize)
            },
        ),
{
    let rel = d.relations@[m];
    lemma_canonical_only(d.classes@, rel.from@, i, 0);
    lemma_canonical_only(d.classes@, rel.to@, j, 0);
    lemma_name_index_only(d.classes@, rel.from@, i);
    lemma_name_index_only(d.classes@, rel.to@, j);
}

/// A relation that ranks (an extension, implementation, dependency, dashed
/// link or realization) between two different classes never leaves them
/// on the same row: either its edge is kept, and the upper class ranks
/// lower, or cycle breaking dropped it because the kept edges already lead
/// the other way, which ranks them the other way round.
pub proof fn law_ranking_relations_separate_rows(d: ClassDiagram, r: Seq<usize>, m: int, i: int, j: int)
    requires
        longest_path_ranked(ranking_dag(d), r),
        r.len() == d.classes@.len(),
        0 <= m < d.relations@.len(),
        ({
            let k = d.relations@[m].kind;
            k is Extension || k is Implementation || k is Dependency || k is DashedLink || k is Realization
        }),
        names_only(d.classes@, d.relations@[m].from@, i),
        names_only(d.classes@, d.relations@[m].to@, j),
        i != j,
    ensures
        r[i] != r[j],
{
    assert(d.classes@.len() == d.classes.len());
    lemma_relation_edge_of(d, m, i, j);
    let q = lemma_relation_edge_at(d, m);
    let es = rank_edges(d, d.relations@.len() as int);
    let e = es[q];
    lemma_kept_or_closes(es, q);
    if !kept_edges(es).contains(e) {
        lemma_kept_prefix(es, q);
        lemma_reaches_more(kept_edges(es.take(q)), kept_edges(es), e.1, e.0);
        let w = choose|w: Seq<usize>| is_walk(kept_edges(es), w) && w[0] == e.1 && w.last() == e.0;
        law_rank_bounds_every_chain(kept_edges(es), r, w);
        if w.len() == 1 {
            assert(e.0 == e.1);
        }
    }
}

/// The first relation of a diagram always ranks, when it is of a ranking
/// kind between two different classes: in a plain class diagram (not C4,
/// and without deployment shapes) its source ranks below its target, the
/// target sitting above; an extension, implementation or realization does
/// so in any diagram; a dependency or dashed link in a C4 or deployment
/// diagram ranks its target below its source.
pub proof fn law_first_relation_ranks(d: ClassDiagram, r: Seq<usize>, i: int, j: int)
    requires
        longest_path_ranked(ranking_dag(d), r),
        r.len() == d.classes@.len(),
        d.relations@.len() > 0,
        ({
            let k = d.relations@[0].kind;
            k is Extension || k is Implementation || k is Dependency || k is DashedLink || k is Realization
        }),
        names_only(d.classes@, d.relations@[0].from@, i),
        names_only(d.classes@, d.relations@[0].to@, j),
        i != j,
    ensures
        ({
            let k = d.relations@[0].kind;
            let plain = !d.c4_mode && forall|c: int|
                0 <= c < d.classes@.len() ==> {
                    let ck = (#[trigger] d.classes@[c]).kind;
                    !(ck is Node || ck is Cloud || ck is Database || ck is Folder || ck is Frame
                        || ck is Artifact || ck is Queue)
                };
            (plain || k is Extension || k is Implementation || k is Realization) ==> r[i] >= r[j] + 1
        }),
        ({
            let k = d.relations@[0].kind;
            let shaped = d.c4_mode || exists|c: int|
                0 <= c < d.classes@.len() && {
                    let ck = (#[trigger] d.classes@[c]).kind;
                    ck is Node || ck is Cloud || ck is Database || ck is Folder || ck is Frame
                        || ck is Artifact || ck is Queue
                };
            (shaped && (k is Dependency || k is DashedLink)) ==> r[j] >= r[i] + 1
        }),
{
    assert(d.classes@.len() == d.classes.len());
    lemma_relation_edge_of(d, 0, i, j);
    let q = lemma_relation_edge_at(d, 0);
    assert(q == 0);
    let es = rank_edges(d, d.relations@.len() as int);
    lemma_kept_or_closes(es, 0);
    assert(es.take(0) =~= Seq::<Edge>::empty());
    assert(kept_edges(Seq::<Edge>::empty()) =~= Seq::<Edge>::empty());
    if reaches(kept_edges(es.take(0)), es[0].1, es[0].0) {
        lemma_reaches_nothing(es[0].1, es[0].0);
    }
    assert(ranking_dag(d).contains(es[0]));
}

} // verus!
