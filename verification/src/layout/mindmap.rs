//! Mind-map layout: the tree that the depth sequence of the nodes gives,
//! and which side of the root each branch goes to.
use crate::ast::mindmap::Side;
use vstd::prelude::*;

verus! {

/// The last of the first `k` nodes that is shallower than node `i`.
pub open spec fn shallower_before(d: Seq<usize>, i: int, k: int) -> Option<int>
    decreases k,
{
    if k <= 0 {
        None
    } else if d[k - 1] < d[i] {
        Some(k - 1)
    } else {
        shallower_before(d, i, k - 1)
    }
}

/// The parent of node `i`: the last node before it that is shallower, or
/// none (a root).
pub open spec fn nearest_shallower(d: Seq<usize>, i: int) -> Option<int> {
    shallower_before(d, i, i)
}

pub open spec fn opt_index(o: Option<usize>) -> Option<int> {
    match o {
        Some(p) => Some(p as int),
        None => None,
    }
}

/// The parent of every node of a mind map given by its nodes' depths, in
/// source order (see [`nearest_shallower`]).
pub fn mind_map_parents(depths: &[usize]) -> (p: Vec<Option<usize>>)
    ensures
        p@.len() == depths@.len(),
        forall|i: int| 0 <= i < depths@.len() ==> opt_index(#[trigger] p@[i]) == nearest_shallower(depths@, i),
{
    let mut p: Vec<Option<usize>> = Vec::new();
    let mut i: usize = 0;
    while i < depths.len()
        invariant
            i <= depths@.len(),
            p@.len() == i,
            forall|a: int| 0 <= a < i ==> opt_index(#[trigger] p@[a]) == nearest_shallower(depths@, a),
        decreases depths.len() - i,
    {
        let mut k: usize = i;
        let mut found: Option<usize> = None;
        while k > 0 && found.is_none()
            invariant
                k <= i < depths@.len(),
                found is None ==> shallower_before(depths@, i as int, k as int) == nearest_shallower(
                    depths@,
                    i as int,
                ),
                found is Some ==> opt_index(found) == nearest_shallower(depths@, i as int),
            decreases k + if found is None { 1int } else { 0int },
        {
            if depths[k - 1] < depths[i] {
                found = Some(k - 1);
            } else {
                k = k - 1;
            }
        }
        assert(opt_index(found) == nearest_shallower(depths@, i as int));
        p.push(found);
        i = i + 1;
    }
    p
}

/// How many children of the root (node 0) before node `c` have no forced
/// side.
pub open spec fn auto_children_before(parent: Seq<Option<usize>>, forced: Seq<Side>, c: int) -> nat
    decreases c,
{
    if c <= 0 {
        0
    } else {
        auto_children_before(parent, forced, c - 1) + if parent[c - 1] == Some(0usize) && forced[c
            - 1] == Side::Auto {
            1nat
        } else {
            0nat
        }
    }
}

/// The side of node `i`. The root (node 0), and any node outside its tree,
/// is centred (`Auto`). A child of the root goes to the side its `+` or `-`
/// forces; without one, the children of the root alternate, right first.
/// Every deeper node goes to the side of its parent.
pub open spec fn spec_side(parent: Seq<Option<usize>>, forced: Seq<Side>, i: int) -> Side
    decreases i,
{
    if i < 0 || i >= parent.len() {
        Side::Auto
    } else {
        match parent[i] {
            None => Side::Auto,
            Some(p) => if p == 0 {
                match forced[i] {
                    Side::Right => Side::Right,
                    Side::Left => Side::Left,
                    Side::Auto => if auto_children_before(parent, forced, i) % 2 == 0 {
                        Side::Right
                    } else {
                        Side::Left
                    },
                }
            } else if p < i {
                spec_side(parent, forced, p as int)
            } else {
                Side::Auto
            },
        }
    }
}

pub open spec fn spec_sides(parent: Seq<Option<usize>>, forced: Seq<Side>) -> Seq<Side> {
    Seq::new(parent.len(), |i: int| spec_side(parent, forced, i))
}

/// The side of every node (see [`spec_side`]), given each node's parent
/// (always an earlier node) and the side its marker forces.
pub fn mind_map_sides(parent: &[Option<usize>], forced: &[Side]) -> (s: Vec<Side>)
    requires
        forced@.len() == parent@.len(),
        forall|i: int| 0 <= i < parent@.len() && (#[trigger] parent@[i]) is Some ==> parent@[i]->0 < i,
    ensures
        s@ == spec_sides(parent@, forced@),
{
    let mut s: Vec<Side> = Vec::new();
    let mut autos: usize = 0;
    let mut i: usize = 0;
    while i < parent.len()
        invariant
            i <= parent@.len(),
            forced@.len() == parent@.len(),
            forall|a: int| 0 <= a < parent@.len() && (#[trigger] parent@[a]) is Some ==> parent@[a]->0 < a,
            s@.len() == i,
            autos == auto_children_before(parent@, forced@, i as int),
            autos <= i,
            forall|a: int| 0 <= a < i ==> #[trigger] s@[a] == spec_side(parent@, forced@, a),
        decreases parent.len() - i,
    {
        let side = match parent[i] {
            None => Side::Auto,
            Some(p) => if p == 0 {
                match forced[i] {
                    Side::Right => Side::Right,
                    Side::Left => Side::Left,
                    Side::Auto => if autos % 2 == 0 {
                        Side::Right
                    } else {
                        Side::Left
                    },
                }
            } else {
                s[p]
            },
        };
        if parent[i] == Some(0usize) && forced[i] == Side::Auto {
            autos = autos + 1;
        }
        s.push(side);
        i = i + 1;
    }
    assert(s@ =~= spec_sides(parent@, forced@));
    s
}


/// Below the children of the root, every node goes to the side of its
/// parent, whatever its own marker says.
pub proof fn law_branches_keep_their_side(parent: Seq<Option<usize>>, forced: Seq<Side>, i: int)
    requires
        0 <= i < parent.len(),
        parent[i] matches Some(p) && p != 0 && p < i,
    ensures
        spec_side(parent, forced, i) == spec_side(parent, forced, parent[i]->0 as int),
{
}

} // verus!
