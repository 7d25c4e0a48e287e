//! Sequence layout: which participant a message end names, the name shown
//! in a participant's header, the messages of a diagram in order, and autonumbered labels.
use crate::ast::sequence::{Message, Participant, SequenceElement};
use crate::output::{decimal, decimal_chars};
use crate::text::{chars_of, eq, string_of};
use vstd::prelude::*;

verus! {

/// The name shown in a participant's header: its name, or its alias when
/// the name is empty (or nothing when it has neither).
pub open spec fn spec_participant_display(p: Participant) -> Seq<char> {
    if p.name@.len() > 0 {
        p.name@
    } else {
        match p.alias {
            Some(a) => a@,
            None => seq![],
        }
    }
}

/// See [`spec_participant_display`].
pub fn participant_display(p: &Participant) -> (r: String)
    ensures
        r@ == spec_participant_display(*p),
{
    if !p.name.as_str().is_empty() {
        p.name.clone()
    } else {
        match &p.alias {
            Some(a) => a.clone(),
            None => String::new(),
        }
    }
}

/// A message end `name` refers to `p`: by its alias (by its name when it
/// has none), or by its name.
pub open spec fn names_participant(p: Participant, name: Seq<char>) -> bool {
    (match p.alias {
        Some(a) => a@,
        None => p.name@,
    }) == name || p.name@ == name
}

/// Index of the first participant that `name` refers to.
pub fn find_participant(participants: &[&Participant], name: &str) -> (r: Option<usize>)
    ensures
        match r {
            Some(i) => i < participants@.len() && names_participant(*participants@[i as int], name@)
                && forall|j: int| 0 <= j < i ==> !names_participant(*participants@[j], name@),
            None => forall|j: int|
                0 <= j < participants@.len() ==> !names_participant(*participants@[j], name@),
        },
{
    let n = chars_of(name);
    let mut i: usize = 0;
    while i < participants.len()
        invariant
            i <= participants@.len(),
            n@ == name@,
            forall|j: int| 0 <= j < i ==> !names_participant(*participants@[j], name@),
        decreases participants.len() - i,
    {
        let p = participants[i];
        let own = chars_of(p.name.as_str());
        let key = match &p.alias {
            Some(a) => chars_of(a.as_str()),
            None => chars_of(p.name.as_str()),
        };
        if eq(key.as_slice(), n.as_slice()) || eq(own.as_slice(), n.as_slice()) {
            return Some(i);
        }
        i = i + 1;
    }
    None
}

/// The messages of `es` in reading order, those inside groups included
/// (section after section).
pub open spec fn messages_in(es: Seq<SequenceElement>) -> Seq<Message>
    decreases es,
{
    if es.len() == 0 {
        seq![]
    } else {
        proof {
            assert(decreases_to!(es => es.last()));
            assert(decreases_to!(es => es.drop_last()));
        }
        messages_in(es.drop_last()) + messages_of(es.last())
    }
}

/// The messages of one element: itself if it is a message, those of its
/// sections if it is a group, none otherwise.
pub open spec fn messages_of(e: SequenceElement) -> Seq<Message>
    decreases e,
{
    match e {
        SequenceElement::Message(m) => seq![m],
        SequenceElement::Group(g) => {
            proof {
                assert(decreases_to!(e => g));
                assert(decreases_to!(g => g.sections));
                assert(decreases_to!(g.sections => g.sections@));
            }
            messages_in_sections(g.sections@)
        },
        _ => seq![],
    }
}

pub open spec fn messages_in_sections(ss: Seq<(Option<String>, Vec<SequenceElement>)>) -> Seq<Message>
    decreases ss,
{
    if ss.len() == 0 {
        seq![]
    } else {
        proof {
            assert(decreases_to!(ss => ss.drop_last()));
            assert(decreases_to!(ss => ss.last()));
            assert(decreases_to!(ss.last() => ss.last().1));
            assert(decreases_to!(ss.last().1 => ss.last().1@));
        }
        messages_in_sections(ss.drop_last()) + messages_in(ss.last().1@)
    }
}

/// `new` is `old` followed by (references to) the messages `ms`.
pub open spec fn appended<'a>(new: Seq<&'a Message>, old: Seq<&'a Message>, ms: Seq<Message>) -> bool {
    &&& new.len() == old.len() + ms.len()
    &&& forall|i: int| 0 <= i < old.len() ==> new[i] == old[i]
    &&& forall|i: int| 0 <= i < ms.len() ==> *new[old.len() + i] == ms[i]
}

proof fn lemma_appended_trans<'a>(
    a: Seq<&'a Message>,
    b: Seq<&'a Message>,
    c: Seq<&'a Message>,
    m1: Seq<Message>,
    m2: Seq<Message>,
)
    requires
        appended(b, a, m1),
        appended(c, b, m2),
    ensures
        appended(c, a, m1 + m2),
{
    assert forall|i: int| 0 <= i < (m1 + m2).len() implies *c[a.len() + i] == (m1 + m2)[i] by {
        if i < m1.len() {
            assert(c[a.len() + i] == b[a.len() + i]);
        } else {
            assert(c[b.len() + (i - m1.len())] == c[a.len() + i]);
        }
    }
}

/// Appends the messages of `elements` to `out`, those inside groups
/// included, in reading order (see [`messages_in`]).
pub fn collect_messages<'a>(elements: &'a [SequenceElement], out: &mut Vec<&'a Message>)
    ensures
        appended(final(out)@, old(out)@, messages_in(elements@)),
    decreases elements@,
{
    let ghost start = out@;
    let mut i: usize = 0;
    assert(elements@.take(0) =~= Seq::<SequenceElement>::empty());
    while i < elements.len()
        invariant
            i <= elements@.len(),
            appended(out@, start, messages_in(elements@.take(i as int))),
            start == old(out)@,
        decreases elements.len() - i,
    {
        let ghost before = out@;
        assert(elements@.take(i + 1).drop_last() =~= elements@.take(i as int));
        assert(elements@.take(i + 1).last() == elements@[i as int]);
        let e = &elements[i];
        match e {
            SequenceElement::Message(m) => {
                out.push(m);
                proof {
                    assert(messages_of(*e) =~= seq![*m]);
                    lemma_appended_trans(start, before, out@, messages_in(elements@.take(i as int)), seq![*m]);
                }
            },
            SequenceElement::Group(g) => {
                let ghost mid = out@;
                let mut k: usize = 0;
                assert(g.sections@.take(0) =~= Seq::<(Option<String>, Vec<SequenceElement>)>::empty());
                assert(appended(out@, mid, seq![]));
                while k < g.sections.len()
                    invariant
                        k <= g.sections@.len(),
                        i < elements@.len(),
                        elements@[i as int] == SequenceElement::Group(*g),
                        mid == before,
                        start == old(out)@,
                        appended(before, start, messages_in(elements@.take(i as int))),
                        appended(out@, mid, messages_in_sections(g.sections@.take(k as int))),
                    decreases g.sections.len() - k,
                {
                    let ghost before_k = out@;
                    assert(g.sections@.take(k + 1).drop_last() =~= g.sections@.take(k as int));
                    assert(g.sections@.take(k + 1).last() == g.sections@[k as int]);
                    proof {
                        assert(decreases_to!(elements@ => elements@[i as int]));
                        assert(elements@[i as int]->Group_0 == *g);
                        assert(decreases_to!(elements@[i as int] => elements@[i as int]->Group_0));
                        assert(decreases_to!(*g => g.sections));
                        assert(decreases_to!(g.sections => g.sections@));
                        assert(decreases_to!(g.sections@ => g.sections@[k as int]));
                        assert(decreases_to!(g.sections@[k as int] => g.sections@[k as int].1));
                        assert(decreases_to!(g.sections@[k as int].1 => g.sections@[k as int].1@));
                    }
                    collect_messages(g.sections[k].1.as_slice(), out);
                    proof {
                        lemma_appended_trans(mid, before_k, out@, messages_in_sections(g.sections@.take(k as int)), messages_in(g.sections@[k as int].1@));
                    }
                    k = k + 1;
                }
                proof {
                    assert(g.sections@.take(g.sections@.len() as int) =~= g.sections@);
                    lemma_appended_trans(start, before, out@, messages_in(elements@.take(i as int)), messages_of(*e));
                }
            },
            _ => {
                proof {
                    assert(messages_of(*e) =~= Seq::<Message>::empty());
                    assert(messages_in(elements@.take(i as int)) + messages_of(*e) =~= messages_in(elements@.take(i as int)));
                }
            },
        }
        i = i + 1;
    }
    assert(elements@.take(elements@.len() as int) =~= elements@);
}


/// A message label under autonumbering with counter `n`: `n: label`, or
/// just `n:` for an empty label.
pub open spec fn spec_numbered_label(label: Seq<char>, n: nat) -> Seq<char> {
    if label.len() == 0 {
        decimal(n) + seq![':']
    } else {
        decimal(n) + seq![':', ' '] + label
    }
}

/// The label a message is drawn with and the autonumber counter after it:
/// without autonumbering the label as it is; with counter `n`, the label
/// numbered `n` (see [`spec_numbered_label`]) and the counter `n + 1`.
pub fn numbered_label(label: &str, counter: Option<u32>) -> (r: (String, Option<u32>))
    requires
        counter != Some(u32::MAX),
    ensures
        match counter {
            None => r.0@ == label@ && r.1 is None,
            Some(n) => r.0@ == spec_numbered_label(label@, n as nat) && r.1 == Some((n + 1) as u32),
        },
{
    match counter {
        None => (label.to_owned(), None),
        Some(n) => {
            let mut out = decimal_chars(n as usize);
            let ghost num = out@;
            let l = chars_of(label);
            if l.len() == 0 {
                out.push(':');
                assert(out@ =~= num + seq![':']);
            } else {
                out.push(':');
                out.push(' ');
                let ghost head = out@;
                let mut lc = l;
                out.append(&mut lc);
                assert(out@ =~= num + seq![':', ' '] + label@);
            }
            (string_of(out.as_slice()), Some(n + 1))
        },
    }
}

} // verus!
