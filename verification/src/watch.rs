//! Watch mode's decision: which files to watch after a render, and which to
//! start and stop watching.
use crate::text::{chars_of, eq};
use vstd::prelude::*;

verus! {

/// The texts of `s`, as a set.
pub open spec fn text_set(s: Seq<String>) -> Set<Seq<char>> {
    Set::new(|v: Seq<char>| exists|k: int| 0 <= k < s.len() && (#[trigger] s[k])@ == v)
}

/// What to watch after a render, and the changes from what was watched.
pub struct WatchPlan {
    /// The input and every file it included, each once.
    pub desired: Vec<String>,
    /// Desired files not watched yet.
    pub added: Vec<String>,
    /// Watched files no longer desired.
    pub removed: Vec<String>,
}

fn has_text(v: &[String], t: &[char]) -> (r: bool)
    ensures
        r == exists|k: int| 0 <= k < v@.len() && (#[trigger] v@[k])@ == t@,
{
    let mut i: usize = 0;
    while i < v.len()
        invariant
            i <= v@.len(),
            forall|k: int| 0 <= k < i ==> (#[trigger] v@[k])@ != t@,
        decreases v.len() - i,
    {
        let c = chars_of(v[i].as_str());
        if eq(c.as_slice(), t) {
            return true;
        }
        i = i + 1;
    }
    false
}

/// Keeps the texts of `from` that `keep` says, in order.
pub(crate) fn filter_texts(from: &[String], other: &[String], in_other: bool) -> (r: Vec<String>)
    ensures
        text_set(r@) == text_set(from@).filter(
            |v: Seq<char>| text_set(other@).contains(v) == in_other,
        ),
{
    let mut r: Vec<String> = Vec::new();
    let mut i: usize = 0;
    while i < from.len()
        invariant
            i <= from@.len(),
            text_set(r@) == text_set(from@.take(i as int)).filter(
                |v: Seq<char>| text_set(other@).contains(v) == in_other,
            ),
        decreases from.len() - i,
    {
        let c = chars_of(from[i].as_str());
        let found = has_text(other, c.as_slice());
        let ghost before = r@;
        if found == in_other {
            r.push(from[i].clone());
        }
        proof {
            let f = |v: Seq<char>| text_set(other@).contains(v) == in_other;
            let t0 = from@.take(i as int);
            let t1 = from@.take(i + 1);
            assert(found == text_set(other@).contains(from@[i as int]@));
            assert forall|v: Seq<char>| text_set(r@).contains(v) == text_set(t1).filter(f).contains(v) by {
                if text_set(t1).contains(v) {
                    let k = choose|k: int| 0 <= k < t1.len() && (#[trigger] t1[k])@ == v;
                    if k < i {
                        assert(t0[k] == t1[k]);
                        assert(text_set(t0).contains(v));
                    }
                }
                if text_set(t0).contains(v) {
                    let k = choose|k: int| 0 <= k < t0.len() && (#[trigger] t0[k])@ == v;
                    assert(t1[k] == t0[k]);
                }
                if text_set(r@).contains(v) {
                    let k = choose|k: int| 0 <= k < r@.len() && (#[trigger] r@[k])@ == v;
                    if k < before.len() {
                        assert(before[k] == r@[k]);
                        assert(text_set(before).contains(v));
                    } else {
                        assert(t1[i as int] == from@[i as int]);
                    }
                }
                if text_set(before).contains(v) {
                    let k = choose|k: int| 0 <= k < before.len() && (#[trigger] before[k])@ == v;
                    assert(r@[k] == before[k]);
                }
                if found == in_other && v == from@[i as int]@ {
                    assert(r@[before.len() as int]@ == v);
                    assert(t1[i as int] == from@[i as int]);
                }
            }
            assert(text_set(r@) =~= text_set(t1).filter(f));
        }
        i = i + 1;
    }
    assert(from@.take(from@.len() as int) =~= from@);
    r
}

/// Adds `next` to `desired` unless a text equal to it is there already.
fn add_text(desired: &mut Vec<String>, next: String)
    requires
        old(desired)@.map_values(|s: String| s@).no_duplicates(),
    ensures
        text_set(final(desired)@) == text_set(old(desired)@).insert(next@),
        final(desired)@.map_values(|s: String| s@).no_duplicates(),
{
    let c = chars_of(next.as_str());
    let ghost before = desired@;
    let ghost old_set = text_set(before);
    let ghost nv = next@;
    let found = has_text(desired.as_slice(), c.as_slice());
    if !found {
        desired.push(next);
    }
    proof {
        assert(found == old_set.contains(nv));
        assert(text_set(desired@) =~= old_set.insert(nv)) by {
            assert forall|v: Seq<char>| text_set(desired@).contains(v) implies old_set.insert(nv).contains(v) by {
                let k = choose|k: int| 0 <= k < desired@.len() && (#[trigger] desired@[k])@ == v;
                if k < before.len() {
                    assert(before[k] == desired@[k]);
                }
            }
            assert forall|v: Seq<char>| old_set.insert(nv).contains(v) implies text_set(desired@).contains(v) by {
                if old_set.contains(v) {
                    let k = choose|k: int| 0 <= k < before.len() && (#[trigger] before[k])@ == v;
                    assert(desired@[k] == before[k]);
                } else if !found {
                    assert(desired@[before.len() as int]@ == v);
                }
            }
        }
        let mv = desired@.map_values(|s: String| s@);
        assert(mv.no_duplicates()) by {
            let mb = before.map_values(|s: String| s@);
            assert forall|a: int, b: int| 0 <= a < mv.len() && 0 <= b < mv.len() && a != b implies mv[a] != mv[b] by {
                if a < before.len() && b < before.len() {
                    assert(mb[a] == mv[a] && mb[b] == mv[b]);
                } else if a < before.len() {
                    assert(old_set.contains(before[a]@));
                } else {
                    assert(old_set.contains(before[b]@));
                }
            }
        }
    }
}

/// Which files to watch after a render that read `input` and reached
/// `includes`, given the files `watched` so far: the input and its includes
/// (each once), those of them to start watching, and the watched files to
/// stop watching.
pub fn watch_plan(watched: &[String], input: &str, includes: &[String]) -> (r: WatchPlan)
    ensures
        text_set(r.desired@) == text_set(includes@).insert(input@),
        r.desired@.map_values(|s: String| s@).no_duplicates(),
        text_set(r.added@) == text_set(r.desired@).difference(text_set(watched@)),
        text_set(r.removed@) == text_set(watched@).difference(text_set(r.desired@)),
{
    let mut desired: Vec<String> = Vec::new();
    assert(text_set(desired@) =~= text_set(includes@.take(0)));
    assert(desired@.map_values(|s: String| s@) =~= Seq::<Seq<char>>::empty());
    let mut i: usize = 0;
    while i < includes.len()
        invariant
            i <= includes@.len(),
            text_set(desired@) == text_set(includes@.take(i as int)),
            desired@.map_values(|s: String| s@).no_duplicates(),
        decreases includes.len() - i,
    {
        add_text(&mut desired, includes[i].clone());
        proof {
            let c = includes@[i as int]@;
            let t0 = includes@.take(i as int);
            let t1 = includes@.take(i + 1);
            assert(text_set(t1) =~= text_set(t0).insert(c)) by {
                assert forall|v: Seq<char>| text_set(t1).contains(v) implies text_set(t0).insert(c).contains(v) by {
                    let k = choose|k: int| 0 <= k < t1.len() && (#[trigger] t1[k])@ == v;
                    if k < i {
                        assert(t0[k] == t1[k]);
                    }
                }
                assert forall|v: Seq<char>| text_set(t0).insert(c).contains(v) implies text_set(t1).contains(v) by {
                    if text_set(t0).contains(v) {
                        let k = choose|k: int| 0 <= k < t0.len() && (#[trigger] t0[k])@ == v;
                        assert(t1[k] == t0[k]);
                    } else {
                        assert(t1[i as int]@ == v);
                    }
                }
            }
        }
        i = i + 1;
    }
    assert(includes@.take(includes@.len() as int) =~= includes@);
    add_text(&mut desired, input.to_owned());
    let added = filter_texts(desired.as_slice(), watched, false);
    let removed = filter_texts(watched, desired.as_slice(), false);
    proof {
        assert(text_set(added@) =~= text_set(desired@).difference(text_set(watched@)));
        assert(text_set(removed@) =~= text_set(watched@).difference(text_set(desired@)));
    }
    WatchPlan { desired, added, removed }
}

} // verus!
