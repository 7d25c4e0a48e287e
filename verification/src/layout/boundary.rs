//! Nesting of boundaries (packages, C4 systems, deployment nodes) around
//! the nodes of a class-style diagram: how deeply each one holds others.
use crate::ast::class::Boundary;
use crate::text::chars_of;
use crate::watch::{filter_texts, text_set};
use vstd::prelude::*;

verus! {

/// The members of a boundary that name a node.
pub open spec fn member_set(b: Boundary, names: Seq<String>) -> Set<Seq<char>> {
    text_set(b.members@).intersect(text_set(names))
}

/// Boundary `j` counts as nested in boundary `i`: it is another one, it
/// has members, and its members are among those of `i`; when the two hold
/// the same members, the one declared later counts as the inner one.
pub open spec fn nested_in(bs: Seq<Boundary>, names: Seq<String>, j: int, i: int) -> bool {
    let mine = member_set(bs[i], names);
    let theirs = member_set(bs[j], names);
    &&& j != i
    &&& theirs.len() > 0
    &&& theirs.subset_of(mine)
    &&& (theirs != mine || j > i)
}

/// How many of the first `k` boundaries are nested in boundary `i`.
pub open spec fn nested_count(bs: Seq<Boundary>, names: Seq<String>, i: int, k: int) -> nat
    decreases k,
{
    if k <= 0 {
        0
    } else {
        nested_count(bs, names, i, k - 1) + if nested_in(bs, names, k - 1, i) {
            1nat
        } else {
            0nat
        }
    }
}

/// The nesting depth of each boundary: the number of other boundaries
/// nested in it; `None` for a boundary none of whose members names a node
/// (it is not drawn).
pub open spec fn spec_boundary_depths(bs: Seq<Boundary>, names: Seq<String>) -> Seq<Option<nat>> {
    Seq::new(
        bs.len(),
        |i: int|
            if member_set(bs[i], names).len() == 0 {
                None
            } else {
                Some(nested_count(bs, names, i, bs.len() as int))
            },
    )
}

fn has_text(v: &[String], t: &String) -> (r: bool)
    ensures
        r == text_set(v@).contains(t@),
{
    let c = chars_of(t.as_str());
    let mut i: usize = 0;
    while i < v.len()
        invariant
            i <= v@.len(),
            c@ == t@,
            forall|k: int| 0 <= k < i ==> (#[trigger] v@[k])@ != t@,
        decreases v.len() - i,
    {
        let d = chars_of(v[i].as_str());
        if crate::text::eq(d.as_slice(), c.as_slice()) {
            assert(text_set(v@).contains(v@[i as int]@));
            return true;
        }
        i = i + 1;
    }
    false
}

fn texts_subset(a: &[String], b: &[String]) -> (r: bool)
    ensures
        r == text_set(a@).subset_of(text_set(b@)),
{
    let mut i: usize = 0;
    while i < a.len()
        invariant
            i <= a@.len(),
            forall|k: int| 0 <= k < i ==> text_set(b@).contains((#[trigger] a@[k])@),
        decreases a.len() - i,
    {
        if !has_text(b, &a[i]) {
            assert(text_set(a@).contains(a@[i as int]@));
            return false;
        }
        i = i + 1;
    }
    assert forall|v: Seq<char>| text_set(a@).contains(v) implies text_set(b@).contains(v) by {
        let k = choose|k: int| 0 <= k < a@.len() && (#[trigger] a@[k])@ == v;
    }
    true
}

proof fn lemma_text_set_finite(s: Seq<String>)
    ensures
        text_set(s).finite(),
        text_set(s).len() == 0 <==> s.len() == 0,
{
    let f = |x: String| x@;
    assert(text_set(s) =~= s.map_values(f).to_set()) by {
        assert forall|v: Seq<char>| text_set(s).contains(v) implies s.map_values(f).to_set().contains(v) by {
            let k = choose|k: int| 0 <= k < s.len() && (#[trigger] s[k])@ == v;
            assert(s.map_values(f)[k] == v);
        }
        assert forall|v: Seq<char>| s.map_values(f).to_set().contains(v) implies text_set(s).contains(v) by {
            let k = choose|k: int| 0 <= k < s.map_values(f).len() && s.map_values(f)[k] == v;
            assert(s[k]@ == v);
        }
    }
    vstd::seq_lib::seq_to_set_is_finite(s.map_values(f));
    if s.len() > 0 {
        assert(text_set(s).contains(s[0]@));
    } else {
        assert(text_set(s) =~= Set::<Seq<char>>::empty());
    }
}

/// The nesting depth of every boundary (see [`spec_boundary_depths`]).
pub fn boundary_depths(bs: &[Boundary], names: &[String]) -> (r: Vec<Option<usize>>)
    ensures
        r@.len() == bs@.len(),
        forall|i: int|
            0 <= i < bs@.len() ==> (match #[trigger] r@[i] {
                Some(d) => Some(d as nat),
                None => None::<nat>,
            }) == spec_boundary_depths(bs@, names@)[i],
{
    let mut sets: Vec<Vec<String>> = Vec::new();
    let mut k: usize = 0;
    while k < bs.len()
        invariant
            k <= bs@.len(),
            sets@.len() == k,
            forall|j: int| 0 <= j < k ==> text_set((#[trigger] sets@[j])@) == member_set(bs@[j], names@),
        decreases bs.len() - k,
    {
        let m = filter_texts(bs[k].members.as_slice(), names, true);
        assert(text_set(m@) =~= member_set(bs@[k as int], names@));
        sets.push(m);
        k = k + 1;
    }
    let mut r: Vec<Option<usize>> = Vec::new();
    let mut i: usize = 0;
    while i < bs.len()
        invariant
            i <= bs@.len(),
            sets@.len() == bs@.len(),
            forall|j: int| 0 <= j < bs@.len() ==> text_set((#[trigger] sets@[j])@) == member_set(bs@[j], names@),
            r@.len() == i,
            forall|a: int|
                0 <= a < i ==> (match #[trigger] r@[a] {
                    Some(d) => Some(d as nat),
                    None => None::<nat>,
                }) == spec_boundary_depths(bs@, names@)[a],
        decreases bs.len() - i,
    {
        let mine = &sets[i];
        proof {
            lemma_text_set_finite(mine@);
        }
        if mine.len() == 0 {
            r.push(None);
        } else {
            let mut depth: usize = 0;
            let mut j: usize = 0;
            while j < bs.len()
                invariant
                    j <= bs@.len(),
                    i < bs@.len(),
                    sets@.len() == bs@.len(),
                    mine == sets@[i as int],
                    forall|x: int| 0 <= x < bs@.len() ==> text_set((#[trigger] sets@[x])@) == member_set(bs@[x], names@),
                    depth == nested_count(bs@, names@, i as int, j as int),
                    depth <= j,
                decreases bs.len() - j,
            {
                let theirs = &sets[j];
                proof {
                    lemma_text_set_finite(theirs@);
                }
                if j != i && theirs.len() > 0 && texts_subset(theirs.as_slice(), mine.as_slice()) {
                    let same = texts_subset(mine.as_slice(), theirs.as_slice());
                    proof {
                        if same {
                            assert(text_set(mine@) =~= text_set(theirs@));
                        }
                    }
                    if !same || j > i {
                        depth = depth + 1;
                    }
                }
                j = j + 1;
            }
            r.push(Some(depth));
        }
        i = i + 1;
    }
    r
}

} // verus!
