//! SVG text escaping.
use crate::text::{append_str, chars_of, string_of};
use vstd::prelude::*;

verus! {

/// What a character becomes in SVG text: `&`, `<` and `>` turn into their
/// entities, every other character stays.
pub open spec fn escape_char(c: char) -> Seq<char> {
    if c == '&' {
        "&amp;"@
    } else if c == '<' {
        "&lt;"@
    } else if c == '>' {
        "&gt;"@
    } else {
        seq![c]
    }
}

/// `s` with each character escaped.
pub open spec fn spec_escape_text(s: Seq<char>) -> Seq<char>
    decreases s.len(),
{
    if s.len() == 0 {
        seq![]
    } else {
        spec_escape_text(s.drop_last()) + escape_char(s.last())
    }
}

/// Escapes the characters that may not stand literally in SVG text (see
/// [`spec_escape_text`]).
pub fn escape_text(s: &str) -> (r: String)
    ensures
        r@ == spec_escape_text(s@),
{
    let c = chars_of(s);
    let mut out: Vec<char> = Vec::new();
    let mut i: usize = 0;
    while i < c.len()
        invariant
            i <= c@.len(),
            out@ == spec_escape_text(c@.take(i as int)),
        decreases c.len() - i,
    {
        assert(c@.take(i + 1).drop_last() =~= c@.take(i as int));
        let ch = c[i];
        if ch == '&' {
            append_str(&mut out, "&amp;");
        } else if ch == '<' {
            append_str(&mut out, "&lt;");
        } else if ch == '>' {
            append_str(&mut out, "&gt;");
        } else {
            let ghost before = out@;
            out.push(ch);
            assert(out@ =~= before + seq![ch]);
        }
        i = i + 1;
    }
    assert(c@.take(c@.len() as int) =~= c@);
    string_of(out.as_slice())
}

/// Escaped text holds no `<` and no `>`, so it can never open or close
/// markup, and it has at least as many characters as the text.
pub proof fn law_escaped_text_has_no_markup(s: Seq<char>)
    ensures
        !spec_escape_text(s).contains('<'),
        !spec_escape_text(s).contains('>'),
        spec_escape_text(s).len() >= s.len(),
    decreases s.len(),
{
    reveal_strlit("&amp;");
    reveal_strlit("&lt;");
    reveal_strlit("&gt;");
    if s.len() > 0 {
        law_escaped_text_has_no_markup(s.drop_last());
        let a = spec_escape_text(s.drop_last());
        let b = escape_char(s.last());
        assert(!b.contains('<') && !b.contains('>')) by {
            if b.contains('<') {
                let j = choose|j: int| 0 <= j < b.len() && b[j] == '<';
            }
            if b.contains('>') {
                let j = choose|j: int| 0 <= j < b.len() && b[j] == '>';
            }
        }
        assert forall|x: char| (a + b).contains(x) implies a.contains(x) || b.contains(x) by {
            let j = choose|j: int| 0 <= j < (a + b).len() && (a + b)[j] == x;
            if j < a.len() {
                assert(a[j] == x);
            } else {
                assert(b[j - a.len()] == x);
            }
        }
    }
}

/// Text without `&`, `<` and `>` is left as it is.
pub proof fn law_plain_text_is_unchanged(s: Seq<char>)
    requires
        !s.contains('&'),
        !s.contains('<'),
        !s.contains('>'),
    ensures
        spec_escape_text(s) == s,
    decreases s.len(),
{
    if s.len() > 0 {
        assert forall|x: char| s.drop_last().contains(x) implies s.contains(x) by {
            let j = choose|j: int| 0 <= j < s.drop_last().len() && s.drop_last()[j] == x;
            assert(s[j] == x);
        }
        law_plain_text_is_unchanged(s.drop_last());
        assert(s.contains(s.last()));
        assert(s =~= s.drop_last() + seq![s.last()]);
    }
}

} // verus!
