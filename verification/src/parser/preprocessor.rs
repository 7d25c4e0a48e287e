//! Source preprocessing: include expansion, C4 translation, `!define`
//! substitution, comment removal and splitting at `@start…`/`@end…` markers.
use crate::parser::c4;
use crate::text::{
    append, append_line, append_str, chars_of, count_char, eq, eq_str, find, find_char,
    is_whitespace, is_ws, join_lines, lemma_chars_deep_view, lemma_count_char_add, lines,
    matches_at, slice_of, split_lines, starts_with, starts_with_str, string_of, trim, trim_end, trim_start,
    trim_chars,
};
use vstd::prelude::*;

verus! {

/// One diagram block of the input: the text between a start and an end
/// marker, or the whole input when it has no markers.
#[derive(Debug, Clone)]
pub struct DiagramSource {
    pub content: String,
    /// Hint given by the start marker (`@startuml(sequence)`, `@startgantt`).
    pub type_hint: Option<String>,
}

impl DiagramSource {
    pub open spec fn view(&self) -> (Option<Seq<char>>, Seq<char>) {
        (
            match self.type_hint {
                Some(h) => Some(h@),
                None => None,
            },
            self.content@,
        )
    }
}

// ---------------------------------------------------------------------------
// Comments
// ---------------------------------------------------------------------------

/// Where the comment scanner stands.
pub enum ScanMode {
    /// Ordinary text; the flag says whether the last character emitted was a
    /// line break or whitespace, so that `'` may open a line comment.
    Text(bool),
    /// Inside a `'` line comment.
    Line,
    /// Inside a `/' … '/` block comment; the flag says whether the
    /// character last read was `'`.
    Block(bool),
}

/// What is left of `s` once comments are removed, read from mode `m`.
/// Line breaks inside comments are kept.
pub open spec fn strip_from(s: Seq<char>, m: ScanMode) -> Seq<char>
    decreases s.len(),
{
    if s.len() == 0 {
        seq![]
    } else {
        let c = s[0];
        let rest = s.drop_first();
        match m {
            ScanMode::Text(boundary) => {
                if c == '\'' && boundary {
                    strip_from(rest, ScanMode::Line)
                } else if c == '/' && rest.len() > 0 && rest[0] == '\'' {
                    strip_from(rest.drop_first(), ScanMode::Block(false))
                } else {
                    seq![c] + strip_from(rest, ScanMode::Text(is_ws(c)))
                }
            },
            ScanMode::Line => {
                if c == '\n' {
                    seq!['\n'] + strip_from(rest, ScanMode::Text(true))
                } else {
                    strip_from(rest, ScanMode::Line)
                }
            },
            ScanMode::Block(after_quote) => {
                if after_quote && c == '/' {
                    strip_from(rest, ScanMode::Text(false))
                } else if c == '\n' {
                    seq!['\n'] + strip_from(rest, ScanMode::Block(false))
                } else {
                    strip_from(rest, ScanMode::Block(c == '\''))
                }
            },
        }
    }
}

/// `s` without its comments: a `'` at the start of a line or after
/// whitespace runs to the end of the line; `/' … '/` may stand anywhere.
pub open spec fn spec_strip_comments(s: Seq<char>) -> Seq<char> {
    strip_from(s, ScanMode::Text(true))
}

proof fn lemma_count_cons(c: char, rest: Seq<char>, x: char)
    ensures
        count_char(seq![c] + rest, x) == count_char(seq![c], x) + count_char(rest, x),
        count_char(seq![c], x) == (if c == x { 1nat } else { 0nat }),
{
    lemma_count_char_add(seq![c], rest, x);
    assert(seq![c].drop_last() =~= Seq::<char>::empty());
    assert(count_char(Seq::<char>::empty(), x) == 0);
}

proof fn lemma_strip_from_keeps_line_breaks(s: Seq<char>, m: ScanMode)
    ensures
        count_char(strip_from(s, m), '\n') == count_char(s, '\n'),
    decreases s.len(),
{
    if s.len() == 0 {
        assert(s =~= Seq::<char>::empty());
    } else {
        let c = s[0];
        let rest = s.drop_first();
        assert(s =~= seq![c] + rest);
        lemma_count_cons(c, rest, '\n');
        match m {
            ScanMode::Text(boundary) => {
                if c == '\'' && boundary {
                    lemma_strip_from_keeps_line_breaks(rest, ScanMode::Line);
                } else if c == '/' && rest.len() > 0 && rest[0] == '\'' {
                    let r2 = rest.drop_first();
                    assert(rest =~= seq![rest[0]] + r2);
                    lemma_count_cons(rest[0], r2, '\n');
                    lemma_strip_from_keeps_line_breaks(r2, ScanMode::Block(false));
                    assert(strip_from(s, m) == strip_from(r2, ScanMode::Block(false)));
                } else {
                    assert(strip_from(s, m) == seq![c] + strip_from(rest, ScanMode::Text(is_ws(c))));
                    lemma_strip_from_keeps_line_breaks(rest, ScanMode::Text(is_ws(c)));
                    lemma_count_cons(c, strip_from(rest, ScanMode::Text(is_ws(c))), '\n');
                }
            },
            ScanMode::Line => {
                if c == '\n' {
                    lemma_strip_from_keeps_line_breaks(rest, ScanMode::Text(true));
                    lemma_count_cons('\n', strip_from(rest, ScanMode::Text(true)), '\n');
                } else {
                    lemma_strip_from_keeps_line_breaks(rest, ScanMode::Line);
                }
            },
            ScanMode::Block(after_quote) => {
                if after_quote && c == '/' {
                    lemma_strip_from_keeps_line_breaks(rest, ScanMode::Text(false));
                } else if c == '\n' {
                    lemma_strip_from_keeps_line_breaks(rest, ScanMode::Block(false));
                    lemma_count_cons('\n', strip_from(rest, ScanMode::Block(false)), '\n');
                } else {
                    lemma_strip_from_keeps_line_breaks(rest, ScanMode::Block(c == '\''));
                }
            },
        }
    }
}

/// Removing comments keeps every line break, so each line of the result
/// stands at the line number it had in the input.
pub proof fn law_strip_comments_keeps_line_breaks(s: Seq<char>)
    ensures
        count_char(spec_strip_comments(s), '\n') == count_char(s, '\n'),
{
    lemma_strip_from_keeps_line_breaks(s, ScanMode::Text(true));
}

/// A text without `'` and without `/` has no comment to remove.
pub proof fn law_strip_comments_plain_text(s: Seq<char>)
    requires
        !s.contains('\''),
        !s.contains('/'),
    ensures
        spec_strip_comments(s) == s,
{
    lemma_strip_plain(s, true);
}

proof fn lemma_strip_plain(s: Seq<char>, b: bool)
    requires
        !s.contains('\''),
        !s.contains('/'),
    ensures
        strip_from(s, ScanMode::Text(b)) == s,
    decreases s.len(),
{
    if s.len() > 0 {
        let rest = s.drop_first();
        assert(s[0] != '\'' && s[0] != '/') by {
            assert(s.contains(s[0]));
        }
        assert forall|c: char| rest.contains(c) implies s.contains(c) by {
            let j = choose|j: int| 0 <= j < rest.len() && rest[j] == c;
            assert(s[j + 1] == c);
        }
        lemma_strip_plain(rest, is_ws(s[0]));
        assert(s =~= seq![s[0]] + rest);
    }
}

/// `source` with its comments removed (see [`spec_strip_comments`]).
pub fn strip_comments(source: &str) -> (r: String)
    ensures
        r@ == spec_strip_comments(source@),
{
    let s = chars_of(source);
    let out = strip_chars(s.as_slice());
    string_of(out.as_slice())
}

fn strip_chars(s: &[char]) -> (out: Vec<char>)
    ensures
        out@ == spec_strip_comments(s@),
{
    let mut out: Vec<char> = Vec::new();
    let mut mode = ScanMode::Text(true);
    let mut i: usize = 0;
    assert(s@.skip(0) =~= s@);
    while i < s.len()
        invariant
            i <= s@.len(),
            out@ + strip_from(s@.skip(i as int), mode) == spec_strip_comments(s@),
        decreases s.len() - i,
    {
        let ghost rest = s@.skip(i as int);
        let ghost m0 = mode;
        assert(rest.drop_first() =~= s@.skip(i + 1));
        let c = s[i];
        assert(rest[0] == c);
        match mode {
            ScanMode::Text(boundary) => {
                if c == '\'' && boundary {
                    mode = ScanMode::Line;
                    i = i + 1;
                } else if c == '/' && i + 1 < s.len() && s[i + 1] == '\'' {
                    assert(rest.drop_first().drop_first() =~= s@.skip(i + 2));
                    mode = ScanMode::Block(false);
                    i = i + 2;
                } else {
                    assert(strip_from(rest, m0) == seq![c] + strip_from(rest.drop_first(), ScanMode::Text(is_ws(c))));
                    let ghost before = out@;
                    out.push(c);
                    mode = ScanMode::Text(is_whitespace(c));
                    i = i + 1;
                    assert(out@ + strip_from(s@.skip(i as int), mode) =~= before + (seq![c]
                        + strip_from(s@.skip(i as int), mode)));
                }
            },
            ScanMode::Line => {
                if c == '\n' {
                    let ghost before = out@;
                    out.push('\n');
                    mode = ScanMode::Text(true);
                    i = i + 1;
                    assert(out@ + strip_from(s@.skip(i as int), mode) =~= before + (seq!['\n']
                        + strip_from(s@.skip(i as int), mode)));
                } else {
                    i = i + 1;
                }
            },
            ScanMode::Block(after_quote) => {
                if after_quote && c == '/' {
                    mode = ScanMode::Text(false);
                    i = i + 1;
                } else if c == '\n' {
                    let ghost before = out@;
                    out.push('\n');
                    mode = ScanMode::Block(false);
                    i = i + 1;
                    assert(out@ + strip_from(s@.skip(i as int), mode) =~= before + (seq!['\n']
                        + strip_from(s@.skip(i as int), mode)));
                } else {
                    mode = ScanMode::Block(c == '\'');
                    i = i + 1;
                }
            },
        }
    }
    assert(s@.skip(i as int) =~= Seq::<char>::empty());
    assert(out@ + Seq::<char>::empty() =~= out@);
    out
}

// ---------------------------------------------------------------------------
// Start and end markers
// ---------------------------------------------------------------------------

/// The markers that open a diagram of a fixed kind, with that kind.
pub open spec fn typed_start_markers() -> Seq<(Seq<char>, Seq<char>)> {
    seq![
        ("@startmindmap"@, "mindmap"@),
        ("@startgantt"@, "gantt"@),
        ("@startwbs"@, "wbs"@),
        ("@startsalt"@, "salt"@),
        ("@startjson"@, "json"@),
        ("@startyaml"@, "yaml"@),
    ]
}

/// The kind named by the first typed marker (from index `k` on) that starts
/// `line`.
pub open spec fn typed_marker_from(line: Seq<char>, k: int) -> Option<Seq<char>>
    decreases typed_start_markers().len() - k,
{
    if k < 0 || k >= typed_start_markers().len() {
        None
    } else if starts_with(line, typed_start_markers()[k].0) {
        Some(typed_start_markers()[k].1)
    } else {
        typed_marker_from(line, k + 1)
    }
}

/// `Some(hint)` when `line` is a start marker; `hint` is the type it names,
/// if any: `@startuml(sequence)` names `sequence`, `@startgantt` names
/// `gantt`, a bare `@startuml` names none.
pub open spec fn start_marker_hint(line: Seq<char>) -> Option<Option<Seq<char>>> {
    if starts_with(line, "@startuml"@) {
        let rest = trim(line.skip("@startuml"@.len() as int));
        Some(
            if rest.len() > 0 && rest[0] == '(' && rest.last() == ')' {
                Some(trim(rest.subrange(1, rest.len() - 1)))
            } else {
                None
            },
        )
    } else {
        match typed_marker_from(line, 0) {
            Some(kind) => Some(Some(kind)),
            None => None,
        }
    }
}

pub open spec fn end_markers() -> Seq<Seq<char>> {
    seq!["@enduml"@, "@endmindmap"@, "@endgantt"@, "@endwbs"@, "@endsalt"@, "@endjson"@, "@endyaml"@]
}

pub open spec fn spec_is_end_marker(line: Seq<char>) -> bool {
    end_markers().contains(line)
}

pub open spec fn opt_str_view(o: Option<String>) -> Option<Seq<char>> {
    match o {
        Some(s) => Some(s@),
        None => None,
    }
}

pub open spec fn opt_chars_view(o: Option<Vec<char>>) -> Option<Seq<char>> {
    match o {
        Some(s) => Some(s@),
        None => None,
    }
}

fn typed_marker(line: &[char]) -> (r: Option<Vec<char>>)
    ensures
        opt_chars_view(r) == typed_marker_from(line@, 0),
{
    let markers: [(&str, &str); 6] = [
        ("@startmindmap", "mindmap"),
        ("@startgantt", "gantt"),
        ("@startwbs", "wbs"),
        ("@startsalt", "salt"),
        ("@startjson", "json"),
        ("@startyaml", "yaml"),
    ];
    proof {
        assert(markers@.len() == typed_start_markers().len());
        assert forall|j: int| 0 <= j < 6 implies (#[trigger] markers@[j]).0@ == typed_start_markers()[j].0
            && markers@[j].1@ == typed_start_markers()[j].1 by {}
    }
    let mut k: usize = 0;
    while k < 6
        invariant
            k <= 6,
            markers@.len() == 6,
            forall|j: int| 0 <= j < 6 ==> (#[trigger] markers@[j]).0@ == typed_start_markers()[j].0
                && markers@[j].1@ == typed_start_markers()[j].1,
            typed_marker_from(line@, 0) == typed_marker_from(line@, k as int),
        decreases 6 - k,
    {
        let (marker, kind) = markers[k];
        if starts_with_str(line, marker) {
            return Some(chars_of(kind));
        }
        k = k + 1;
    }
    None
}

fn start_marker_chars(line: &[char]) -> (r: Option<Option<Vec<char>>>)
    ensures
        match r {
            Some(h) => start_marker_hint(line@) == Some(opt_chars_view(h)),
            None => start_marker_hint(line@) is None,
        },
{
    let head = chars_of("@startuml");
    if starts_with_str(line, "@startuml") {
        let after = slice_of(line, head.len(), line.len());
        assert(after@ == line@.skip(head@.len() as int));
        let rest = trim_chars(after.as_slice());
        if rest.len() > 0 && rest[0] == '(' && rest[rest.len() - 1] == ')' {
            assert(rest.len() >= 2) by {
                if rest.len() == 1 {
                    assert(rest@.last() == rest@[0]);
                }
            }
            let inner = slice_of(rest.as_slice(), 1, rest.len() - 1);
            Some(Some(trim_chars(inner.as_slice())))
        } else {
            Some(None)
        }
    } else {
        match typed_marker(line) {
            Some(kind) => Some(Some(kind)),
            None => None,
        }
    }
}

/// Recognises a start marker: `Some((hint, true))` on a match, with the
/// diagram type the marker names, if any.
pub fn parse_start_marker(line: &str) -> (r: Option<(Option<String>, bool)>)
    ensures
        match r {
            Some((h, is_start)) => is_start && start_marker_hint(line@) == Some(opt_str_view(h)),
            None => start_marker_hint(line@) is None,
        },
{
    let chars = chars_of(line);
    match start_marker_chars(chars.as_slice()) {
        Some(Some(h)) => Some((Some(string_of(h.as_slice())), true)),
        Some(None) => Some((None, true)),
        None => None,
    }
}

fn end_marker_chars(line: &[char]) -> (r: bool)
    ensures
        r == spec_is_end_marker(line@),
{
    let r = eq_str(line, "@enduml") || eq_str(line, "@endmindmap") || eq_str(line, "@endgantt")
        || eq_str(line, "@endwbs") || eq_str(line, "@endsalt") || eq_str(line, "@endjson")
        || eq_str(line, "@endyaml");
    proof {
        let e = end_markers();
        if r {
            if line@ == e[0] { assert(e.contains(line@)); }
            if line@ == e[1] { assert(e.contains(line@)); }
            if line@ == e[2] { assert(e.contains(line@)); }
            if line@ == e[3] { assert(e.contains(line@)); }
            if line@ == e[4] { assert(e.contains(line@)); }
            if line@ == e[5] { assert(e.contains(line@)); }
            if line@ == e[6] { assert(e.contains(line@)); }
        } else {
            assert(!e.contains(line@));
        }
    }
    r
}

/// Whether `line` is exactly one of the end markers.
pub fn is_end_marker(line: &str) -> (r: bool)
    ensures
        r == spec_is_end_marker(line@),
{
    let chars = chars_of(line);
    end_marker_chars(chars.as_slice())
}

// ---------------------------------------------------------------------------
// Splitting into diagrams
// ---------------------------------------------------------------------------

/// A diagram block in the model: its type hint and its text.
pub type BlockView = (Option<Seq<char>>, Seq<char>);

/// What the splitter knows after reading some lines.
pub struct SplitState {
    /// Blocks already closed by an end marker.
    pub closed: Seq<BlockView>,
    /// The block being read, if a start marker opened one.
    pub open: Option<BlockView>,
    /// Lines read outside any block while no marker has been seen.
    pub bare: Seq<Seq<char>>,
    pub has_markers: bool,
}

pub open spec fn split_init() -> SplitState {
    SplitState { closed: seq![], open: None, bare: seq![], has_markers: false }
}

/// Reading one more line.
pub open spec fn split_step(st: SplitState, line: Seq<char>) -> SplitState {
    let t = trim(line);
    match start_marker_hint(t) {
        Some(hint) => SplitState { open: Some((hint, seq![])), has_markers: true, ..st },
        None => {
            if spec_is_end_marker(t) {
                match st.open {
                    Some(block) => SplitState { closed: st.closed.push(block), open: None, ..st },
                    None => st,
                }
            } else {
                match st.open {
                    Some((hint, text)) => SplitState {
                        open: Some((hint, text + line + seq!['\n'])),
                        ..st
                    },
                    None => {
                        if !st.has_markers {
                            SplitState { bare: st.bare.push(line), ..st }
                        } else {
                            st
                        }
                    },
                }
            }
        },
    }
}

pub open spec fn split_fold(ls: Seq<Seq<char>>) -> SplitState
    decreases ls.len(),
{
    if ls.len() == 0 {
        split_init()
    } else {
        split_step(split_fold(ls.drop_last()), ls.last())
    }
}

/// The blocks of a text whose comments are already gone: one per start/end
/// marker pair (a block left open at the end is dropped); with no marker at
/// all, the whole text is one block without a hint, unless it has no line.
pub open spec fn blocks_of_lines(ls: Seq<Seq<char>>) -> Seq<BlockView> {
    let st = split_fold(ls);
    if !st.has_markers && st.bare.len() > 0 {
        st.closed.push((None, join_lines(st.bare)))
    } else {
        st.closed
    }
}

/// The diagram blocks of `source` (see [`blocks_of_lines`]).
pub open spec fn spec_split_diagrams(source: Seq<char>) -> Seq<BlockView> {
    blocks_of_lines(lines(spec_strip_comments(source)))
}

/// No line of `ls` is, once trimmed, a start or an end marker.
pub open spec fn marker_free(ls: Seq<Seq<char>>) -> bool {
    forall|i: int|
        0 <= i < ls.len() ==> start_marker_hint(trim(#[trigger] ls[i])) is None && !spec_is_end_marker(
            trim(ls[i]),
        )
}

proof fn lemma_open_block(start: Seq<char>, hint: Option<Seq<char>>, ls: Seq<Seq<char>>, k: int)
    requires
        start_marker_hint(trim(start)) == Some(hint),
        marker_free(ls),
        0 <= k <= ls.len(),
    ensures
        split_fold(seq![start] + ls.take(k)) == (SplitState {
            closed: seq![],
            open: Some((hint, join_lines(ls.take(k)))),
            bare: seq![],
            has_markers: true,
        }),
    decreases k,
{
    if k == 0 {
        assert(seq![start] + ls.take(0) =~= seq![start]);
        assert(seq![start].drop_last() =~= Seq::<Seq<char>>::empty());
        assert(join_lines(ls.take(0)) =~= Seq::<char>::empty());
        assert(split_fold(Seq::<Seq<char>>::empty()) == split_init());
        assert(split_fold(seq![start]) == split_step(split_init(), start));
        assert(split_step(split_init(), start) == SplitState { open: Some((hint, seq![])), has_markers: true, ..split_init() });
    } else {
        lemma_open_block(start, hint, ls, k - 1);
        assert((seq![start] + ls.take(k)).drop_last() =~= seq![start] + ls.take(k - 1));
        assert((seq![start] + ls.take(k)).last() == ls[k - 1]);
        assert(ls.take(k).drop_last() =~= ls.take(k - 1));
        assert(ls.take(k).last() == ls[k - 1]);
        assert(start_marker_hint(trim(ls[k - 1])) is None);
        assert(!spec_is_end_marker(trim(ls[k - 1])));
        assert(join_lines(ls.take(k)) == join_lines(ls.take(k - 1)) + ls[k - 1] + seq!['\n']);
    }
}

/// A block that a start marker opens and an end marker closes, around
/// lines that are no markers, is exactly one block holding those lines.
proof fn lemma_one_block(start: Seq<char>, end: Seq<char>, hint: Option<Seq<char>>, ls: Seq<Seq<char>>)
    requires
        start_marker_hint(trim(start)) == Some(hint),
        start_marker_hint(trim(end)) is None,
        spec_is_end_marker(trim(end)),
        marker_free(ls),
    ensures
        blocks_of_lines(seq![start] + ls + seq![end]) == seq![(hint, join_lines(ls))],
{
    lemma_open_block(start, hint, ls, ls.len() as int);
    assert(ls.take(ls.len() as int) =~= ls);
    let all = seq![start] + ls + seq![end];
    assert(all.drop_last() =~= seq![start] + ls);
    assert(all.last() == end);
    assert(Seq::<BlockView>::empty().push((hint, join_lines(ls))) =~= seq![(hint, join_lines(ls))]);
}

proof fn lemma_trim_marker(s: Seq<char>)
    requires
        s.len() > 1,
        s[0] == '@',
        is_ascii_word(s.last()),
    ensures
        trim(s) == s,
{
    assert(!is_ws(s[0]));
    assert(trim_start(s) == s);
    assert(!is_ws(s.last()));
    assert(trim_end(s) == s);
}

pub open spec fn is_ascii_word(c: char) -> bool {
    'a' <= c && c <= 'z'
}

/// Every kind of diagram closes with its own end marker: `@startX`, lines
/// that are no markers, then `@endX` is one block holding those lines, for
/// `uml` (no type hint) and for `mindmap`, `gantt`, `wbs`, `salt`, `json`
/// and `yaml` (hinted with that kind); and each `@endX` is an end marker.
pub proof fn law_each_kind_closes_with_its_end_marker(ls: Seq<Seq<char>>)
    requires
        marker_free(ls),
    ensures
        spec_is_end_marker("@enduml"@),
        spec_is_end_marker("@endmindmap"@),
        spec_is_end_marker("@endgantt"@),
        spec_is_end_marker("@endwbs"@),
        spec_is_end_marker("@endsalt"@),
        spec_is_end_marker("@endjson"@),
        spec_is_end_marker("@endyaml"@),
        blocks_of_lines(seq!["@startuml"@] + ls + seq!["@enduml"@]) == seq![(None::<Seq<char>>, join_lines(ls))],
        blocks_of_lines(seq!["@startmindmap"@] + ls + seq!["@endmindmap"@]) == seq![(Some("mindmap"@), join_lines(ls))],
        blocks_of_lines(seq!["@startgantt"@] + ls + seq!["@endgantt"@]) == seq![(Some("gantt"@), join_lines(ls))],
        blocks_of_lines(seq!["@startwbs"@] + ls + seq!["@endwbs"@]) == seq![(Some("wbs"@), join_lines(ls))],
        blocks_of_lines(seq!["@startsalt"@] + ls + seq!["@endsalt"@]) == seq![(Some("salt"@), join_lines(ls))],
        blocks_of_lines(seq!["@startjson"@] + ls + seq!["@endjson"@]) == seq![(Some("json"@), join_lines(ls))],
        blocks_of_lines(seq!["@startyaml"@] + ls + seq!["@endyaml"@]) == seq![(Some("yaml"@), join_lines(ls))],
{
    reveal_strlit("@startuml");
    reveal_strlit("@startmindmap");
    reveal_strlit("@startgantt");
    reveal_strlit("@startwbs");
    reveal_strlit("@startsalt");
    reveal_strlit("@startjson");
    reveal_strlit("@startyaml");
    reveal_strlit("@enduml");
    reveal_strlit("@endmindmap");
    reveal_strlit("@endgantt");
    reveal_strlit("@endwbs");
    reveal_strlit("@endsalt");
    reveal_strlit("@endjson");
    reveal_strlit("@endyaml");
    reveal_strlit("mindmap");
    reveal_strlit("gantt");
    reveal_strlit("wbs");
    reveal_strlit("salt");
    reveal_strlit("json");
    reveal_strlit("yaml");
    reveal_with_fuel(typed_marker_from, 8);
    let e = end_markers();
    assert(e[0] == "@enduml"@ && e[1] == "@endmindmap"@ && e[2] == "@endgantt"@ && e[3] == "@endwbs"@);
    assert(e[4] == "@endsalt"@ && e[5] == "@endjson"@ && e[6] == "@endyaml"@);
    let tm = typed_start_markers();
    // `uml`
    lemma_trim_marker("@startuml"@);
    lemma_trim_marker("@enduml"@);
    assert(e[0] == "@enduml"@);
    assert(!starts_with("@enduml"@, "@startuml"@)) by { assert("@enduml"@[1] != "@startuml"@[1]); }
    assert(forall|k: int| 0 <= k < 6 ==> !starts_with("@enduml"@, (#[trigger] tm[k]).0)) by {
        assert forall|k: int| 0 <= k < 6 implies !starts_with("@enduml"@, (#[trigger] tm[k]).0) by {
            assert(tm[k].0[1] == 's');
            if "@enduml"@.len() >= tm[k].0.len() { assert("@enduml"@.take(tm[k].0.len() as int)[1] != tm[k].0[1]); }
        }
    }
    assert(typed_marker_from("@enduml"@, 0) is None);
    assert(starts_with("@startuml"@, "@startuml"@)) by { assert("@startuml"@.take(9) =~= "@startuml"@); }
    assert("@startuml"@.skip("@startuml"@.len() as int) =~= Seq::<char>::empty());
    assert(trim(Seq::<char>::empty()) =~= Seq::<char>::empty()) by { assert(trim_start(Seq::<char>::empty()) =~= Seq::<char>::empty()); }
    lemma_one_block("@startuml"@, "@enduml"@, None::<Seq<char>>, ls);
    // `mindmap`
    lemma_trim_marker("@startmindmap"@);
    lemma_trim_marker("@endmindmap"@);
    assert(e[1] == "@endmindmap"@);
    assert(!starts_with("@endmindmap"@, "@startuml"@)) by { assert("@endmindmap"@[1] != "@startuml"@[1]); }
    assert(forall|k: int| 0 <= k < 6 ==> !starts_with("@endmindmap"@, (#[trigger] tm[k]).0)) by {
        assert forall|k: int| 0 <= k < 6 implies !starts_with("@endmindmap"@, (#[trigger] tm[k]).0) by {
            assert(tm[k].0[1] == 's');
            if "@endmindmap"@.len() >= tm[k].0.len() { assert("@endmindmap"@.take(tm[k].0.len() as int)[1] != tm[k].0[1]); }
        }
    }
    assert(typed_marker_from("@endmindmap"@, 0) is None);
    assert(!starts_with("@startmindmap"@, "@startuml"@)) by { assert("@startmindmap"@[6] != "@startuml"@[6]); }
    assert(forall|k: int| 0 <= k < 0 ==> !starts_with("@startmindmap"@, (#[trigger] tm[k]).0)) by {
        assert forall|k: int| 0 <= k < 0 implies !starts_with("@startmindmap"@, (#[trigger] tm[k]).0) by {
            if "@startmindmap"@.len() >= tm[k].0.len() { assert("@startmindmap"@.take(tm[k].0.len() as int)[6] != tm[k].0[6]); }
        }
    }
    assert(starts_with("@startmindmap"@, tm[0].0)) by { assert("@startmindmap"@.take(tm[0].0.len() as int) =~= tm[0].0); }
    assert(typed_marker_from("@startmindmap"@, 0) == Some("mindmap"@));
    lemma_one_block("@startmindmap"@, "@endmindmap"@, Some("mindmap"@), ls);
    // `gantt`
    lemma_trim_marker("@startgantt"@);
    lemma_trim_marker("@endgantt"@);
    assert(e[2] == "@endgantt"@);
    assert(!starts_with("@endgantt"@, "@startuml"@)) by { assert("@endgantt"@[1] != "@startuml"@[1]); }
    assert(forall|k: int| 0 <= k < 6 ==> !starts_with("@endgantt"@, (#[trigger] tm[k]).0)) by {
        assert forall|k: int| 0 <= k < 6 implies !starts_with("@endgantt"@, (#[trigger] tm[k]).0) by {
            assert(tm[k].0[1] == 's');
            if "@endgantt"@.len() >= tm[k].0.len() { assert("@endgantt"@.take(tm[k].0.len() as int)[1] != tm[k].0[1]); }
        }
    }
    assert(typed_marker_from("@endgantt"@, 0) is None);
    assert(!starts_with("@startgantt"@, "@startuml"@)) by { assert("@startgantt"@[6] != "@startuml"@[6]); }
    assert(forall|k: int| 0 <= k < 1 ==> !starts_with("@startgantt"@, (#[trigger] tm[k]).0)) by {
        assert forall|k: int| 0 <= k < 1 implies !starts_with("@startgantt"@, (#[trigger] tm[k]).0) by {
            if "@startgantt"@.len() >= tm[k].0.len() { assert("@startgantt"@.take(tm[k].0.len() as int)[6] != tm[k].0[6]); }
        }
    }
    assert(starts_with("@startgantt"@, tm[1].0)) by { assert("@startgantt"@.take(tm[1].0.len() as int) =~= tm[1].0); }
    assert(typed_marker_from("@startgantt"@, 0) == Some("gantt"@));
    lemma_one_block("@startgantt"@, "@endgantt"@, Some("gantt"@), ls);
    // `wbs`
    lemma_trim_marker("@startwbs"@);
    lemma_trim_marker("@endwbs"@);
    assert(e[3] == "@endwbs"@);
    assert(!starts_with("@endwbs"@, "@startuml"@)) by { assert("@endwbs"@[1] != "@startuml"@[1]); }
    assert(forall|k: int| 0 <= k < 6 ==> !starts_with("@endwbs"@, (#[trigger] tm[k]).0)) by {
        assert forall|k: int| 0 <= k < 6 implies !starts_with("@endwbs"@, (#[trigger] tm[k]).0) by {
            assert(tm[k].0[1] == 's');
            if "@endwbs"@.len() >= tm[k].0.len() { assert("@endwbs"@.take(tm[k].0.len() as int)[1] != tm[k].0[1]); }
        }
    }
    assert(typed_marker_from("@endwbs"@, 0) is None);
    assert(!starts_with("@startwbs"@, "@startuml"@)) by { assert("@startwbs"@[6] != "@startuml"@[6]); }
    assert(forall|k: int| 0 <= k < 2 ==> !starts_with("@startwbs"@, (#[trigger] tm[k]).0)) by {
        assert forall|k: int| 0 <= k < 2 implies !starts_with("@startwbs"@, (#[trigger] tm[k]).0) by {
            if "@startwbs"@.len() >= tm[k].0.len() { assert("@startwbs"@.take(tm[k].0.len() as int)[6] != tm[k].0[6]); }
        }
    }
    assert(starts_with("@startwbs"@, tm[2].0)) by { assert("@startwbs"@.take(tm[2].0.len() as int) =~= tm[2].0); }
    assert(typed_marker_from("@startwbs"@, 0) == Some("wbs"@));
    lemma_one_block("@startwbs"@, "@endwbs"@, Some("wbs"@), ls);
    // `salt`
    lemma_trim_marker("@startsalt"@);
    lemma_trim_marker("@endsalt"@);
    assert(e[4] == "@endsalt"@);
    assert(!starts_with("@endsalt"@, "@startuml"@)) by { assert("@endsalt"@[1] != "@startuml"@[1]); }
    assert(forall|k: int| 0 <= k < 6 ==> !starts_with("@endsalt"@, (#[trigger] tm[k]).0)) by {
        assert forall|k: int| 0 <= k < 6 implies !starts_with("@endsalt"@, (#[trigger] tm[k]).0) by {
            assert(tm[k].0[1] == 's');
            if "@endsalt"@.len() >= tm[k].0.len() { assert("@endsalt"@.take(tm[k].0.len() as int)[1] != tm[k].0[1]); }
        }
    }
    assert(typed_marker_from("@endsalt"@, 0) is None);
    assert(!starts_with("@startsalt"@, "@startuml"@)) by { assert("@startsalt"@[6] != "@startuml"@[6]); }
    assert(forall|k: int| 0 <= k < 3 ==> !starts_with("@startsalt"@, (#[trigger] tm[k]).0)) by {
        assert forall|k: int| 0 <= k < 3 implies !starts_with("@startsalt"@, (#[trigger] tm[k]).0) by {
            if "@startsalt"@.len() >= tm[k].0.len() { assert("@startsalt"@.take(tm[k].0.len() as int)[6] != tm[k].0[6]); }
        }
    }
    assert(starts_with("@startsalt"@, tm[3].0)) by { assert("@startsalt"@.take(tm[3].0.len() as int) =~= tm[3].0); }
    assert(typed_marker_from("@startsalt"@, 0) == Some("salt"@));
    lemma_one_block("@startsalt"@, "@endsalt"@, Some("salt"@), ls);
    // `json`
    lemma_trim_marker("@startjson"@);
    lemma_trim_marker("@endjson"@);
    assert(e[5] == "@endjson"@);
    assert(!starts_with("@endjson"@, "@startuml"@)) by { assert("@endjson"@[1] != "@startuml"@[1]); }
    assert(forall|k: int| 0 <= k < 6 ==> !starts_with("@endjson"@, (#[trigger] tm[k]).0)) by {
        assert forall|k: int| 0 <= k < 6 implies !starts_with("@endjson"@, (#[trigger] tm[k]).0) by {
            assert(tm[k].0[1] == 's');
            if "@endjson"@.len() >= tm[k].0.len() { assert("@endjson"@.take(tm[k].0.len() as int)[1] != tm[k].0[1]); }
        }
    }
    assert(typed_marker_from("@endjson"@, 0) is None);
    assert(!starts_with("@startjson"@, "@startuml"@)) by { assert("@startjson"@[6] != "@startuml"@[6]); }
    assert(forall|k: int| 0 <= k < 4 ==> !starts_with("@startjson"@, (#[trigger] tm[k]).0)) by {
        assert forall|k: int| 0 <= k < 4 implies !starts_with("@startjson"@, (#[trigger] tm[k]).0) by {
            if "@startjson"@.len() >= tm[k].0.len() { assert("@startjson"@.take(tm[k].0.len() as int)[6] != tm[k].0[6]); }
        }
    }
    assert(starts_with("@startjson"@, tm[4].0)) by { assert("@startjson"@.take(tm[4].0.len() as int) =~= tm[4].0); }
    assert(typed_marker_from("@startjson"@, 0) == Some("json"@));
    lemma_one_block("@startjson"@, "@endjson"@, Some("json"@), ls);
    // `yaml`
    lemma_trim_marker("@startyaml"@);
    lemma_trim_marker("@endyaml"@);
    assert(e[6] == "@endyaml"@);
    assert(!starts_with("@endyaml"@, "@startuml"@)) by { assert("@endyaml"@[1] != "@startuml"@[1]); }
    assert(forall|k: int| 0 <= k < 6 ==> !starts_with("@endyaml"@, (#[trigger] tm[k]).0)) by {
        assert forall|k: int| 0 <= k < 6 implies !starts_with("@endyaml"@, (#[trigger] tm[k]).0) by {
            assert(tm[k].0[1] == 's');
            if "@endyaml"@.len() >= tm[k].0.len() { assert("@endyaml"@.take(tm[k].0.len() as int)[1] != tm[k].0[1]); }
        }
    }
    assert(typed_marker_from("@endyaml"@, 0) is None);
    assert(!starts_with("@startyaml"@, "@startuml"@)) by { assert("@startyaml"@[6] != "@startuml"@[6]); }
    assert(forall|k: int| 0 <= k < 5 ==> !starts_with("@startyaml"@, (#[trigger] tm[k]).0)) by {
        assert forall|k: int| 0 <= k < 5 implies !starts_with("@startyaml"@, (#[trigger] tm[k]).0) by {
            if "@startyaml"@.len() >= tm[k].0.len() { assert("@startyaml"@.take(tm[k].0.len() as int)[6] != tm[k].0[6]); }
        }
    }
    assert(starts_with("@startyaml"@, tm[5].0)) by { assert("@startyaml"@.take(tm[5].0.len() as int) =~= tm[5].0); }
    assert(typed_marker_from("@startyaml"@, 0) == Some("yaml"@));
    lemma_one_block("@startyaml"@, "@endyaml"@, Some("yaml"@), ls);
}

pub open spec fn sources_view(v: Seq<DiagramSource>) -> Seq<BlockView> {
    v.map_values(|d: DiagramSource| d.view())
}

proof fn lemma_sources_push(v: Seq<DiagramSource>, d: DiagramSource)
    ensures
        sources_view(v.push(d)) == sources_view(v).push(d.view()),
{
    assert(sources_view(v.push(d)) =~= sources_view(v).push(d.view()));
}

proof fn lemma_join_lines_push(ls: Seq<Seq<char>>, l: Seq<char>)
    ensures
        join_lines(ls.push(l)) == join_lines(ls) + l + seq!['\n'],
{
    assert(ls.push(l).drop_last() =~= ls);
}

/// Splits `source` into its diagram blocks, comments removed.
pub fn split_diagrams(source: &str) -> (r: Vec<DiagramSource>)
    ensures
        sources_view(r@) == spec_split_diagrams(source@),
{
    let chars = chars_of(source);
    let cleaned = strip_chars(chars.as_slice());
    let ls = split_lines(cleaned.as_slice());
    let ghost lsv = ls.deep_view();
    let mut closed: Vec<DiagramSource> = Vec::new();
    let mut open: Option<(Option<Vec<char>>, Vec<char>)> = None;
    let mut bare: Vec<Vec<char>> = Vec::new();
    let mut has_markers = false;
    let mut i: usize = 0;
    while i < ls.len()
        invariant
            i <= ls@.len(),
            lsv == ls.deep_view(),
            lsv == lines(spec_strip_comments(source@)),
            ({
                let st = split_fold(lsv.take(i as int));
                &&& sources_view(closed@) == st.closed
                &&& st.has_markers == has_markers
                &&& bare.deep_view() == st.bare
                &&& match open {
                    Some((h, t)) => st.open == Some((opt_chars_view(h), t@)),
                    None => st.open is None,
                }
            }),
        decreases ls.len() - i,
    {
        let ghost before = split_fold(lsv.take(i as int));
        assert(lsv.take(i + 1).drop_last() =~= lsv.take(i as int));
        let line = &ls[i];
        assert(line@ == lsv[i as int]);
        let t = trim_chars(line.as_slice());
        match start_marker_chars(t.as_slice()) {
            Some(h) => {
                has_markers = true;
                open = Some((h, Vec::new()));
            },
            None => {
                if end_marker_chars(t.as_slice()) {
                    match open {
                        Some((h, text)) => {
                            let d = DiagramSource {
                                content: string_of(text.as_slice()),
                                type_hint: match h {
                                    Some(hv) => Some(string_of(hv.as_slice())),
                                    None => None,
                                },
                            };
                            proof {
                                lemma_sources_push(closed@, d);
                            }
                            closed.push(d);
                            open = None;
                        },
                        None => {},
                    }
                } else {
                    match open {
                        Some((h, mut text)) => {
                            append_line(&mut text, line.as_slice());
                            proof {
                                reveal_strlit("\n");
                            }
                            open = Some((h, text));
                        },
                        None => {
                            if !has_markers {
                                let ghost bv = bare.deep_view();
                                let copy = slice_of(line.as_slice(), 0, line.len());
                                proof {
                                    lemma_chars_deep_view(&copy);
                                    assert(copy@ =~= line@);
                                }
                                bare.push(copy);
                                assert(bare.deep_view() =~= bv.push(line@));
                            }
                        },
                    }
                }
            },
        }
        i = i + 1;
    }
    assert(lsv.take(ls@.len() as int) =~= lsv);
    if !has_markers && bare.len() > 0 {
        let mut content: Vec<char> = Vec::new();
        let mut k: usize = 0;
        while k < bare.len()
            invariant
                k <= bare@.len(),
                content@ == join_lines(bare.deep_view().take(k as int)),
            decreases bare.len() - k,
        {
            proof {
                lemma_chars_deep_view(&bare[k as int]);
                assert(bare.deep_view()[k as int] == bare@[k as int]@);
                lemma_join_lines_push(bare.deep_view().take(k as int), bare@[k as int]@);
                assert(bare.deep_view().take(k + 1) =~= bare.deep_view().take(k as int).push(bare@[k as int]@));
            }
            append_line(&mut content, bare[k].as_slice());
            proof {
                reveal_strlit("\n");
            }
            k = k + 1;
        }
        assert(bare.deep_view().take(bare@.len() as int) =~= bare.deep_view());
        let d = DiagramSource { content: string_of(content.as_slice()), type_hint: None };
        proof {
            lemma_sources_push(closed@, d);
        }
        closed.push(d);
    }
    closed
}

// ---------------------------------------------------------------------------
// `!define`
// ---------------------------------------------------------------------------

/// `str::replace`: every non-overlapping occurrence of `pat`, from the
/// left, replaced by `rep`; an empty `pat` matches before every character
/// and at the end.
pub open spec fn spec_replace(s: Seq<char>, pat: Seq<char>, rep: Seq<char>) -> Seq<char>
    decreases s.len(),
{
    if pat.len() == 0 {
        if s.len() == 0 {
            rep
        } else {
            rep + seq![s[0]] + spec_replace(s.drop_first(), pat, rep)
        }
    } else if s.len() < pat.len() {
        s
    } else if starts_with(s, pat) {
        rep + spec_replace(s.skip(pat.len() as int), pat, rep)
    } else {
        seq![s[0]] + spec_replace(s.drop_first(), pat, rep)
    }
}

/// A table of definitions: names with their replacement text, in the order
/// the names were first defined.
pub type DefineTable = Seq<(Seq<char>, Seq<char>)>;

/// Index of the entry for `name`.
pub open spec fn define_index(t: DefineTable, name: Seq<char>) -> Option<int>
    decreases t.len(),
{
    if t.len() == 0 {
        None
    } else if t.last().0 == name && define_index(t.drop_last(), name) is None {
        Some(t.len() - 1)
    } else {
        define_index(t.drop_last(), name)
    }
}

/// Defining `name` again replaces its text and keeps its place.
pub open spec fn define_insert(t: DefineTable, name: Seq<char>, value: Seq<char>) -> DefineTable {
    match define_index(t, name) {
        Some(i) => t.update(i, (name, value)),
        None => t.push((name, value)),
    }
}

/// `line` with every definition of `t` substituted, one definition after
/// the other.
pub open spec fn apply_defines(line: Seq<char>, t: DefineTable) -> Seq<char>
    decreases t.len(),
{
    if t.len() == 0 {
        line
    } else {
        spec_replace(apply_defines(line, t.drop_last()), t.last().0, t.last().1)
    }
}

/// Name and text of `!define NAME TEXT`, from what follows `!define `.
pub open spec fn define_parts(rest: Seq<char>) -> (Seq<char>, Seq<char>) {
    match find_char(rest, ' ') {
        Some(i) => (rest.take(i as int), rest.skip(i as int + 1)),
        None => (rest, seq![]),
    }
}

/// Reading one more line: `!define` adds to the table and emits nothing;
/// `!theme NAME` becomes `skinparam theme NAME`; another `!` directive
/// passes unchanged; any other line gets the definitions substituted.
pub open spec fn define_step(st: (DefineTable, Seq<char>), line: Seq<char>) -> (DefineTable, Seq<char>) {
    let t = trim(line);
    if starts_with(t, "!define "@) {
        let (name, value) = define_parts(t.skip("!define "@.len() as int));
        (define_insert(st.0, name, value), st.1)
    } else if starts_with(t, "!theme "@) {
        (st.0, st.1 + "skinparam theme "@ + trim(t.skip("!theme "@.len() as int)) + seq!['\n'])
    } else if starts_with(t, "!"@) {
        (st.0, st.1 + line + seq!['\n'])
    } else {
        (st.0, st.1 + apply_defines(line, st.0) + seq!['\n'])
    }
}

pub open spec fn define_fold(ls: Seq<Seq<char>>) -> (DefineTable, Seq<char>)
    decreases ls.len(),
{
    if ls.len() == 0 {
        (seq![], seq![])
    } else {
        define_step(define_fold(ls.drop_last()), ls.last())
    }
}

/// `source` with its `!define`s applied and `!theme` turned into a skin
/// parameter; every line that is kept ends with a line break.
pub open spec fn spec_expand_defines(source: Seq<char>) -> Seq<char> {
    define_fold(lines(source)).1
}

fn replace_chars(s: &[char], pat: &[char], rep: &[char]) -> (r: Vec<char>)
    ensures
        r@ == spec_replace(s@, pat@, rep@),
{
    let mut out: Vec<char> = Vec::new();
    let mut i: usize = 0;
    assert(s@.skip(0) =~= s@);
    if pat.len() == 0 {
        while i < s.len()
            invariant
                i <= s@.len(),
                pat@.len() == 0,
                out@ + spec_replace(s@.skip(i as int), pat@, rep@) == spec_replace(s@, pat@, rep@),
            decreases s.len() - i,
        {
            let ghost rest = s@.skip(i as int);
            assert(rest.drop_first() =~= s@.skip(i + 1));
            let ghost before = out@;
            append(&mut out, rep);
            out.push(s[i]);
            i = i + 1;
            assert(out@ + spec_replace(s@.skip(i as int), pat@, rep@) =~= before + (rep@ + seq![
                rest[0]] + spec_replace(s@.skip(i as int), pat@, rep@)));
        }
        assert(s@.skip(i as int) =~= Seq::<char>::empty());
        append(&mut out, rep);
        return out;
    }
    while i < s.len()
        invariant
            i <= s@.len(),
            pat@.len() > 0,
            out@ + spec_replace(s@.skip(i as int), pat@, rep@) == spec_replace(s@, pat@, rep@),
        decreases s.len() - i,
    {
        let ghost rest = s@.skip(i as int);
        let ghost before = out@;
        if s.len() - i < pat.len() {
            let tail = slice_of(s, i, s.len());
            append(&mut out, tail.as_slice());
            proof {
                assert(s@.subrange(i as int, s@.len() as int) =~= rest);
                assert(s@.skip(s@.len() as int) =~= Seq::<char>::empty());
                assert(spec_replace(Seq::<char>::empty(), pat@, rep@) == Seq::<char>::empty());
                assert(out@ + spec_replace(s@.skip(s@.len() as int), pat@, rep@) =~= out@);
            }
            i = s.len();
        } else if matches_at(s, pat, i) {
            assert(rest.subrange(0, pat@.len() as int) =~= s@.subrange(i as int, i + pat@.len()));
            assert(rest.skip(pat@.len() as int) =~= s@.skip(i + pat@.len()));
            append(&mut out, rep);
            i = i + pat.len();
            assert(out@ + spec_replace(s@.skip(i as int), pat@, rep@) =~= before + (rep@
                + spec_replace(s@.skip(i as int), pat@, rep@)));
        } else {
            assert(rest.subrange(0, pat@.len() as int) =~= s@.subrange(i as int, i + pat@.len()));
            assert(rest.drop_first() =~= s@.skip(i + 1));
            out.push(s[i]);
            i = i + 1;
            assert(out@ + spec_replace(s@.skip(i as int), pat@, rep@) =~= before + (seq![rest[0]]
                + spec_replace(s@.skip(i as int), pat@, rep@)));
        }
    }
    assert(s@.skip(i as int) =~= Seq::<char>::empty());
    assert(out@ + Seq::<char>::empty() =~= out@);
    out
}

pub open spec fn table_view(t: Seq<(Vec<char>, Vec<char>)>) -> DefineTable {
    t.map_values(|e: (Vec<char>, Vec<char>)| (e.0@, e.1@))
}

fn table_insert(t: &mut Vec<(Vec<char>, Vec<char>)>, name: Vec<char>, value: Vec<char>)
    ensures
        table_view(final(t)@) == define_insert(table_view(old(t)@), name@, value@),
{
    let ghost tv = table_view(t@);
    let mut i: usize = 0;
    while i < t.len()
        invariant
            i <= t@.len(),
            tv == table_view(t@),
            tv == table_view(old(t)@),
            define_index(tv.take(i as int), name@) is None,
        decreases t.len() - i,
    {
        assert(tv.take(i + 1).drop_last() =~= tv.take(i as int));
        if eq(t[i].0.as_slice(), name.as_slice()) {
            proof {
                assert(tv[i as int].0 == name@);
                lemma_define_index_prefix(tv, name@, i as int);
            }
            t.set(i, (name, value));
            assert(table_view(t@) =~= tv.update(i as int, (name@, value@)));
            return;
        }
        i = i + 1;
    }
    assert(tv.take(i as int) =~= tv);
    t.push((name, value));
    assert(table_view(t@) =~= tv.push((name@, value@)));
}

/// The first entry for `name` in a prefix stays the first in the whole table.
proof fn lemma_define_index_prefix(t: DefineTable, name: Seq<char>, i: int)
    requires
        0 <= i < t.len(),
        t[i].0 == name,
        define_index(t.take(i), name) is None,
    ensures
        define_index(t, name) == Some(i),
    decreases t.len(),
{
    if i == t.len() - 1 {
        assert(t.drop_last() =~= t.take(i));
    } else {
        assert(t.drop_last().take(i) =~= t.take(i));
        lemma_define_index_prefix(t.drop_last(), name, i);
    }
}

fn apply_table(line: &[char], t: &Vec<(Vec<char>, Vec<char>)>) -> (r: Vec<char>)
    ensures
        r@ == apply_defines(line@, table_view(t@)),
{
    let mut cur = slice_of(line, 0, line.len());
    assert(cur@ =~= line@);
    let ghost tv = table_view(t@);
    let mut i: usize = 0;
    assert(tv.take(0) =~= Seq::<(Seq<char>, Seq<char>)>::empty());
    while i < t.len()
        invariant
            i <= t@.len(),
            tv == table_view(t@),
            cur@ == apply_defines(line@, tv.take(i as int)),
        decreases t.len() - i,
    {
        assert(tv.take(i + 1).drop_last() =~= tv.take(i as int));
        cur = replace_chars(cur.as_slice(), t[i].0.as_slice(), t[i].1.as_slice());
        i = i + 1;
    }
    assert(tv.take(i as int) =~= tv);
    cur
}

fn define_parts_exec(rest: &[char]) -> (r: (Vec<char>, Vec<char>))
    ensures
        (r.0@, r.1@) == define_parts(rest@),
{
    let found = find(rest, ' ');
    match found {
        Some(i) => {
            assert(i < rest.len());
            (slice_of(rest, 0, i), slice_of(rest, i + 1, rest.len()))
        },
        None => (slice_of(rest, 0, rest.len()), Vec::new()),
    }
}

/// Applies the `!define` substitutions of `source` (see
/// [`spec_expand_defines`]). Substitutions are made in the order in which
/// the names were first defined.
pub fn expand_defines(source: &str) -> (r: String)
    ensures
        r@ == spec_expand_defines(source@),
{
    let chars = chars_of(source);
    let ls = split_lines(chars.as_slice());
    let ghost lsv = ls.deep_view();
    let mut table: Vec<(Vec<char>, Vec<char>)> = Vec::new();
    let mut out: Vec<char> = Vec::new();
    let mut i: usize = 0;
    proof {
        reveal_strlit("!define ");
        reveal_strlit("!theme ");
        reveal_strlit("!");
        reveal_strlit("\n");
    }
    while i < ls.len()
        invariant
            i <= ls@.len(),
            lsv == ls.deep_view(),
            lsv == lines(source@),
            define_fold(lsv.take(i as int)) == (table_view(table@), out@),
            "!define "@.len() == 8,
            "!theme "@.len() == 7,
            "\n"@ == seq!['\n'],
        decreases ls.len() - i,
    {
        assert(lsv.take(i + 1).drop_last() =~= lsv.take(i as int));
        let line = &ls[i];
        assert(line@ == lsv[i as int]);
        let t = trim_chars(line.as_slice());
        if starts_with_str(t.as_slice(), "!define ") {
            let rest = slice_of(t.as_slice(), 8, t.len());
            assert(rest@ =~= t@.skip(8));
            let (name, value) = define_parts_exec(rest.as_slice());
            table_insert(&mut table, name, value);
        } else if starts_with_str(t.as_slice(), "!theme ") {
            let rest = slice_of(t.as_slice(), 7, t.len());
            assert(rest@ =~= t@.skip(7));
            let name = trim_chars(rest.as_slice());
            append_str(&mut out, "skinparam theme ");
            append_line(&mut out, name.as_slice());
        } else if starts_with_str(t.as_slice(), "!") {
            append_line(&mut out, line.as_slice());
        } else {
            let applied = apply_table(line.as_slice(), &table);
            append_line(&mut out, applied.as_slice());
        }
        i = i + 1;
    }
    assert(lsv.take(ls@.len() as int) =~= lsv);
    string_of(out.as_slice())
}

// ---------------------------------------------------------------------------
// `!include`
// ---------------------------------------------------------------------------

pub open spec fn trim_quotes_start(s: Seq<char>) -> Seq<char>
    decreases s.len(),
{
    if s.len() > 0 && s[0] == '"' {
        trim_quotes_start(s.drop_first())
    } else {
        s
    }
}

pub open spec fn trim_quotes_end(s: Seq<char>) -> Seq<char>
    decreases s.len(),
{
    if s.len() > 0 && s.last() == '"' {
        trim_quotes_end(s.drop_last())
    } else {
        s
    }
}

/// The path an `!include` line names, quotes removed; `None` for any other
/// line.
pub open spec fn include_path(line: Seq<char>) -> Option<Seq<char>> {
    let t = trim(line);
    if starts_with(t, "!include "@) {
        Some(trim_quotes_end(trim_quotes_start(trim(t.skip("!include "@.len() as int)))))
    } else {
        None
    }
}

/// `<C4/Container>` and the like name the standard library, not a file:
/// such a directive is kept as it is for the later passes.
pub open spec fn is_library_path(p: Seq<char>) -> bool {
    p.len() > 0 && p[0] == '<' && p.last() == '>'
}

/// The line includes a file.
pub open spec fn is_file_include(line: Seq<char>) -> bool {
    match include_path(line) {
        Some(p) => !is_library_path(p),
        None => false,
    }
}

/// No line of `source` includes a file.
pub open spec fn include_free(source: Seq<char>) -> bool {
    forall|i: int| 0 <= i < lines(source).len() ==> !is_file_include(#[trigger] lines(source)[i])
}

fn trim_quotes(s: &[char]) -> (r: Vec<char>)
    ensures
        r@ == trim_quotes_end(trim_quotes_start(s@)),
{
    let mut a: usize = 0;
    assert(s@.skip(0) =~= s@);
    while a < s.len() && s[a] == '"'
        invariant
            a <= s@.len(),
            trim_quotes_start(s@) == trim_quotes_start(s@.skip(a as int)),
        decreases s.len() - a,
    {
        assert(s@.skip(a as int).drop_first() =~= s@.skip(a + 1));
        a = a + 1;
    }
    let ghost t = s@.skip(a as int);
    assert(trim_quotes_start(t) == t);
    let mut b: usize = s.len();
    assert(t.take(t.len() as int) =~= t);
    while b > a && s[b - 1] == '"'
        invariant
            a <= b <= s@.len(),
            t == s@.skip(a as int),
            trim_quotes_end(t) == trim_quotes_end(t.take(b - a)),
        decreases b,
    {
        assert(t.take(b - a).drop_last() =~= t.take(b - a - 1));
        b = b - 1;
    }
    let r = slice_of(s, a, b);
    assert(r@ =~= t.take(b - a));
    r
}

fn include_path_chars(line: &[char]) -> (r: Option<Vec<char>>)
    ensures
        opt_chars_view(r) == include_path(line@),
{
    let t = trim_chars(line);
    proof {
        reveal_strlit("!include ");
    }
    if starts_with_str(t.as_slice(), "!include ") {
        let rest = slice_of(t.as_slice(), 9, t.len());
        assert(rest@ =~= t@.skip(9));
        let inner = trim_chars(rest.as_slice());
        Some(trim_quotes(inner.as_slice()))
    } else {
        None
    }
}

fn contains_path(seen: &Vec<Vec<char>>, p: &[char]) -> (r: bool)
    ensures
        r == key_views(seen@).contains(p@),
{
    let mut j: usize = 0;
    while j < seen.len()
        invariant
            j <= seen@.len(),
            forall|k: int| 0 <= k < j ==> (#[trigger] key_views(seen@)[k]) != p@,
        decreases seen.len() - j,
    {
        if eq(seen[j].as_slice(), p) {
            assert(key_views(seen@)[j as int] == p@);
            return true;
        }
        assert(key_views(seen@)[j as int] == seen@[j as int]@);
        j = j + 1;
    }
    false
}

/// The views of the keys in `seen`.
pub open spec fn key_views(seen: Seq<Vec<char>>) -> Seq<Seq<char>> {
    seen.map_values(|v: Vec<char>| v@)
}

/// The views of some strings.
pub open spec fn string_views(s: Seq<String>) -> Seq<Seq<char>> {
    s.map_values(|v: String| v@)
}

/// Splicing includes into the lines `ls`, read from directory `dir`, with
/// the keys `seen` already met, may give the text `out` and leave the keys
/// `seen_after`, nesting at most `fuel` files deep.
///
/// A line that includes no file (a `<…>` library include among them) is kept
/// with a line break. For a file include with path `p`, `resolve` answers the
/// key `k` and the directory of the file. When `k` was met before, the line
/// gives nothing. Otherwise `k` is added to the keys met and `read` is asked
/// for the text of `k`: no text gives nothing; a text `t` gives the splicing
/// of the lines of `t`, read from the directory of the file, with the keys
/// met so far. The lines after go on with the keys met by then.
///
/// `resolve` and `read` may answer differently on the same question (a file
/// can change on disk), so this is a relation: it names every answer they
/// may give through what their contracts ensure. For a file that is read,
/// `w` is the fuel left for its nesting, the length of the text it gives
/// and the keys met once it is spliced.
pub open spec fn include_expansion<R, L>(
    resolve: R,
    read: L,
    fuel: nat,
    ls: Seq<Seq<char>>,
    dir: Option<Seq<char>>,
    seen: Seq<Seq<char>>,
    out: Seq<char>,
    seen_after: Seq<Seq<char>>,
) -> bool where
    R: Fn(Option<String>, String) -> (String, Option<String>),
    L: Fn(String) -> Option<String>,

    decreases fuel, ls.len(),
{
    if ls.len() == 0 {
        out.len() == 0 && seen_after == seen
    } else {
        let line = ls[0];
        if !is_file_include(line) {
            &&& out.len() >= line.len() + 1
            &&& out.take(line.len() + 1int) == line + seq!['\n']
            &&& include_expansion(
                resolve,
                read,
                fuel,
                ls.drop_first(),
                dir,
                seen,
                out.skip(line.len() + 1int),
                seen_after,
            )
        } else {
            exists|d: Option<String>, s: String, k: String, kd: Option<String>|
                #![trigger resolve.ensures((d, s), (k, kd))]
                opt_str_view(d) == dir && s@ == include_path(line)->0 && resolve.ensures(
                    (d, s),
                    (k, kd),
                ) && if seen.contains(k@) {
                    include_expansion(
                        resolve,
                        read,
                        fuel,
                        ls.drop_first(),
                        dir,
                        seen,
                        out,
                        seen_after,
                    )
                } else {
                    exists|res: Option<String>|
                        #![trigger read.ensures((k,), res)]
                        read.ensures((k,), res) && match res {
                            None => include_expansion(
                                resolve,
                                read,
                                fuel,
                                ls.drop_first(),
                                dir,
                                seen.push(k@),
                                out,
                                seen_after,
                            ),
                            Some(t) => exists|w: (nat, int, Seq<Seq<char>>)|
                                #![trigger w.2]
                                w.0 < fuel && 0 <= w.1 <= out.len() && include_expansion(
                                    resolve,
                                    read,
                                    w.0,
                                    lines(t@),
                                    opt_str_view(kd),
                                    seen.push(k@),
                                    out.take(w.1),
                                    w.2,
                                ) && include_expansion(
                                    resolve,
                                    read,
                                    fuel,
                                    ls.drop_first(),
                                    dir,
                                    w.2,
                                    out.skip(w.1),
                                    seen_after,
                                ),
                        }
                }
        }
    }
}

proof fn lemma_join_lines_first(ls: Seq<Seq<char>>)
    requires
        ls.len() > 0,
    ensures
        join_lines(ls) == ls[0] + seq!['\n'] + join_lines(ls.drop_first()),
    decreases ls.len(),
{
    if ls.len() == 1 {
        assert(ls.drop_last().len() == 0);
        assert(ls.drop_first().len() == 0);
        assert(join_lines(ls.drop_first()) =~= Seq::<char>::empty());
        assert(join_lines(ls.drop_last()) =~= Seq::<char>::empty());
        assert(join_lines(ls) =~= ls[0] + seq!['\n']);
    } else {
        lemma_join_lines_first(ls.drop_last());
        assert(ls.drop_last().drop_first() =~= ls.drop_first().drop_last());
        assert(ls.drop_first().last() == ls.last());
        assert(ls.drop_last()[0] == ls[0]);
        assert(join_lines(ls) =~= ls[0] + seq!['\n'] + join_lines(ls.drop_first()));
    }
}

/// Lines that include no file are spliced as they are, each with a line
/// break, and no key is met.
pub proof fn law_include_free_lines_are_kept<R, L>(
    resolve: R,
    read: L,
    fuel: nat,
    ls: Seq<Seq<char>>,
    dir: Option<Seq<char>>,
    seen: Seq<Seq<char>>,
    out: Seq<char>,
    seen_after: Seq<Seq<char>>,
) where
    R: Fn(Option<String>, String) -> (String, Option<String>),
    L: Fn(String) -> Option<String>,

    requires
        forall|j: int| 0 <= j < ls.len() ==> !is_file_include(#[trigger] ls[j]),
    ensures
        include_expansion(resolve, read, fuel, ls, dir, seen, out, seen_after) <==> (out
            == join_lines(ls) && seen_after == seen),
    decreases ls.len(),
{
    if ls.len() == 0 {
        assert(join_lines(ls) =~= Seq::<char>::empty());
        if out.len() == 0 {
            assert(out =~= Seq::<char>::empty());
        }
    } else {
        let line = ls[0];
        assert(!is_file_include(ls[0]));
        let rest = ls.drop_first();
        assert forall|j: int| 0 <= j < rest.len() implies !is_file_include(#[trigger] rest[j]) by {
            assert(rest[j] == ls[j + 1]);
        }
        law_include_free_lines_are_kept(resolve, read, fuel, rest, dir, seen, out.skip(line.len() + 1int), seen_after);
        lemma_join_lines_first(ls);
        if out == join_lines(ls) {
            assert(out.take(line.len() + 1int) =~= line + seq!['\n']);
            assert(out.skip(line.len() + 1int) =~= join_lines(rest));
        }
        if out.len() >= line.len() + 1 && out.take(line.len() + 1int) == line + seq!['\n'] && out.skip(line.len() + 1int) == join_lines(rest) {
            assert(out =~= out.take(line.len() + 1int) + out.skip(line.len() + 1int));
        }
    }
}

/// A copy of a directory, equal to it.
fn copy_dir(d: &Option<String>) -> (r: Option<String>)
    ensures
        r == *d,
{
    match d {
        Some(s) => Some(s.clone()),
        None => None,
    }
}

/// Splices the files named by `!include` lines into `source`, each file at
/// most once over the whole expansion. `resolve` turns a path, read from the
/// directory given, into the file's key and the directory of that file;
/// `read` gives a file's text, or `None` when it cannot be read (the line
/// then expands to nothing). The keys of the files met are added to `seen`,
/// in the order first met and without repeats (see [`include_expansion`]).
fn expand_includes<R, L>(
    source: &[char],
    base_dir: Option<String>,
    seen: &mut Vec<Vec<char>>,
    resolve: &R,
    read: &L,
) -> (out: Vec<char>) where
    R: Fn(Option<String>, String) -> (String, Option<String>),
    L: Fn(String) -> Option<String>,

    requires
        forall|b: Option<String>, p: String| resolve.requires((b, p)),
        forall|p: String| read.requires((p,)),
        key_views(old(seen)@).no_duplicates(),
    ensures
        old(seen)@.len() <= final(seen)@.len(),
        key_views(final(seen)@).no_duplicates(),
        include_expansion(
            *resolve,
            *read,
            (usize::MAX - old(seen)@.len()) as nat,
            lines(source@),
            opt_str_view(base_dir),
            key_views(old(seen)@),
            out@,
            key_views(final(seen)@),
        ),
    decreases usize::MAX - old(seen)@.len(),
{
    let ls = split_lines(source);
    let ghost lsv = ls.deep_view();
    let ghost seen0 = key_views(seen@);
    let ghost fuel: nat = (usize::MAX - seen@.len()) as nat;
    let ghost dirv = opt_str_view(base_dir);
    let mut out: Vec<char> = Vec::new();
    let mut i: usize = 0;
    proof {
        assert forall|o2: Seq<char>, s2: Seq<Seq<char>>|
            #[trigger] include_expansion(*resolve, *read, fuel, lsv.skip(0), dirv, key_views(seen@), o2, s2)
        implies include_expansion(*resolve, *read, fuel, lsv, dirv, seen0, out@ + o2, s2) by {
            assert(lsv.skip(0) =~= lsv);
            assert(out@ + o2 =~= o2);
        }
    }
    while i < ls.len()
        invariant
            i <= ls@.len(),
            lsv == ls.deep_view(),
            lsv == lines(source@),
            fuel == (usize::MAX - old(seen)@.len()) as nat,
            seen0 == key_views(old(seen)@),
            dirv == opt_str_view(base_dir),
            old(seen)@.len() <= seen@.len(),
            key_views(seen@).no_duplicates(),
            forall|b: Option<String>, p: String| resolve.requires((b, p)),
            forall|p: String| read.requires((p,)),
            forall|o2: Seq<char>, s2: Seq<Seq<char>>|
                #[trigger] include_expansion(*resolve, *read, fuel, lsv.skip(i as int), dirv, key_views(seen@), o2, s2)
                    ==> include_expansion(*resolve, *read, fuel, lsv, dirv, seen0, out@ + o2, s2),
        decreases ls.len() - i,
    {
        let line = &ls[i];
        let ghost out0 = out@;
        let ghost sv0 = key_views(seen@);
        let ghost len0 = seen@.len();
        proof {
            lemma_chars_deep_view(line);
            assert(line@ == lsv[i as int]);
            assert(lsv.skip(i as int)[0] == lsv[i as int]);
            assert(lsv.skip(i as int).drop_first() =~= lsv.skip(i + 1));
            reveal_strlit("\n");
        }
        match include_path_chars(line.as_slice()) {
            None => {
                append_line(&mut out, line.as_slice());
                proof {
                    let piece = line@ + seq!['\n'];
                    assert(out@ =~= out0 + piece);
                    assert forall|o2: Seq<char>, s2: Seq<Seq<char>>|
                        #[trigger] include_expansion(*resolve, *read, fuel, lsv.skip(i + 1), dirv, key_views(seen@), o2, s2)
                    implies include_expansion(*resolve, *read, fuel, lsv, dirv, seen0, out@ + o2, s2) by {
                        assert((piece + o2).take(line@.len() + 1int) =~= piece);
                        assert((piece + o2).skip(line@.len() + 1int) =~= o2);
                        assert(include_expansion(*resolve, *read, fuel, lsv.skip(i as int), dirv, sv0, piece + o2, s2));
                        assert(out0 + (piece + o2) =~= out@ + o2);
                    }
                }
            },
            Some(path) => {
                if path.len() > 0 && path[0] == '<' && path[path.len() - 1] == '>' {
                    append_line(&mut out, line.as_slice());
                    proof {
                        let piece = line@ + seq!['\n'];
                        assert(out@ =~= out0 + piece);
                        assert forall|o2: Seq<char>, s2: Seq<Seq<char>>|
                            #[trigger] include_expansion(*resolve, *read, fuel, lsv.skip(i + 1), dirv, key_views(seen@), o2, s2)
                        implies include_expansion(*resolve, *read, fuel, lsv, dirv, seen0, out@ + o2, s2) by {
                            assert((piece + o2).take(line@.len() + 1int) =~= piece);
                            assert((piece + o2).skip(line@.len() + 1int) =~= o2);
                            assert(include_expansion(*resolve, *read, fuel, lsv.skip(i as int), dirv, sv0, piece + o2, s2));
                            assert(out0 + (piece + o2) =~= out@ + o2);
                        }
                    }
                } else {
                    let d = copy_dir(&base_dir);
                    let s = string_of(path.as_slice());
                    let ghost gd = d;
                    let ghost gs = s;
                    let (key, dir) = resolve(d, s);
                    let ghost gk = key;
                    let ghost gkd = dir;
                    assert(resolve.ensures((gd, gs), (gk, gkd)));
                    let key_chars = chars_of(key.as_str());
                    if !contains_path(seen, key_chars.as_slice()) {
                        seen.push(key_chars);
                        proof {
                            assert(key_views(seen@) =~= sv0.push(key@));
                        }
                        let res = read(key);
                        let ghost gres = res;
                        assert(read.ensures((gk,), gres));
                        match res {
                            Some(contents) => {
                                let sub = chars_of(contents.as_str());
                                let ghost sv1 = key_views(seen@);
                                let ghost len1 = seen@.len();
                                assert(seen@.len() == seen.len());
                                assert(len1 > old(seen)@.len());
                                let text = expand_includes(sub.as_slice(), dir, seen, resolve, read);
                                append(&mut out, text.as_slice());
                                proof {
                                    let f: nat = (usize::MAX - len1) as nat;
                                    let n = text@.len() as int;
                                    assert(out@ =~= out0 + text@);
                                    assert forall|o2: Seq<char>, s2: Seq<Seq<char>>|
                                        #[trigger] include_expansion(*resolve, *read, fuel, lsv.skip(i + 1), dirv, key_views(seen@), o2, s2)
                                    implies include_expansion(*resolve, *read, fuel, lsv, dirv, seen0, out@ + o2, s2) by {
                                        let all = text@ + o2;
                                        assert(sv1 == sv0.push(key@));
                                        assert(all.take(n) =~= text@);
                                        assert(all.skip(n) =~= o2);
                                        let li = lsv.skip(i as int);
                                        assert(li[0] == line@);
                                        assert(gres == Some(contents));
                                        assert((*resolve).ensures((gd, gs), (gk, gkd)));
                                        assert((*read).ensures((gk,), gres));
                                        // The witness of the nested splice.
                                        let w = (f, n, key_views(seen@));
                                        assert(include_expansion(*resolve, *read, w.0, lines(contents@), opt_str_view(gkd), sv0.push(gk@), all.take(w.1), w.2));
                                        assert(include_expansion(*resolve, *read, fuel, li, dirv, sv0, all, s2));
                                        assert(out0 + all =~= out@ + o2);
                                    }
                                }
                            },
                            None => {
                                proof {
                                    assert(out@ =~= out0);
                                    assert forall|o2: Seq<char>, s2: Seq<Seq<char>>|
                                        #[trigger] include_expansion(*resolve, *read, fuel, lsv.skip(i + 1), dirv, key_views(seen@), o2, s2)
                                    implies include_expansion(*resolve, *read, fuel, lsv, dirv, seen0, out@ + o2, s2) by {
                                        assert(include_expansion(*resolve, *read, fuel, lsv.skip(i as int), dirv, sv0, o2, s2));
                                    }
                                }
                            },
                        }
                    } else {
                        proof {
                            assert(out@ =~= out0);
                            assert(sv0.contains(key@));
                            assert forall|o2: Seq<char>, s2: Seq<Seq<char>>|
                                #[trigger] include_expansion(*resolve, *read, fuel, lsv.skip(i + 1), dirv, key_views(seen@), o2, s2)
                            implies include_expansion(*resolve, *read, fuel, lsv, dirv, seen0, out@ + o2, s2) by {
                                assert(include_expansion(*resolve, *read, fuel, lsv.skip(i as int), dirv, sv0, o2, s2));
                            }
                        }
                    }
                }
            },
        }
        i = i + 1;
    }
    proof {
        assert(lsv.skip(ls@.len() as int).len() == 0);
        assert(include_expansion(*resolve, *read, fuel, lsv.skip(i as int), dirv, key_views(seen@), Seq::<char>::empty(), key_views(seen@)));
        assert(out@ + Seq::<char>::empty() =~= out@);
    }
    out
}

// ---------------------------------------------------------------------------
// The whole pass
// ---------------------------------------------------------------------------

/// The diagram blocks of a source whose includes are already spliced in:
/// C4 macros translated, then `!define`s applied, then comments removed and
/// the text split at its markers.
pub open spec fn spec_preprocess_expanded(expanded: Seq<char>) -> Seq<BlockView> {
    spec_split_diagrams(spec_expand_defines(c4::spec_translate(expanded)))
}

/// The passes that follow include expansion (see
/// [`spec_preprocess_expanded`]).
pub fn preprocess_expanded(expanded: &str) -> (r: Vec<DiagramSource>)
    ensures
        sources_view(r@) == spec_preprocess_expanded(expanded@),
{
    let translated = c4::translate(expanded);
    let defined = expand_defines(translated.as_str());
    split_diagrams(defined.as_str())
}

/// The view of an optional directory.
pub open spec fn opt_dir_view(o: Option<&str>) -> Option<Seq<char>> {
    match o {
        Some(s) => Some(s@),
        None => None,
    }
}

/// Splices the includes of `source` (see [`include_expansion`]), starting
/// with no key met: the text it gives, and the keys of the files reached, in
/// the order first met and without repeats. `base_dir` is where relative
/// include paths are read from; `resolve` and `read` give access to files.
pub fn splice_includes<R, L>(
    source: &str,
    base_dir: Option<&str>,
    resolve: &R,
    read: &L,
) -> (r: (String, Vec<String>)) where
    R: Fn(Option<String>, String) -> (String, Option<String>),
    L: Fn(String) -> Option<String>,

    requires
        forall|b: Option<String>, p: String| resolve.requires((b, p)),
        forall|p: String| read.requires((p,)),
    ensures
        include_expansion(
            *resolve,
            *read,
            usize::MAX as nat,
            lines(source@),
            opt_dir_view(base_dir),
            Seq::<Seq<char>>::empty(),
            r.0@,
            string_views(r.1@),
        ),
        string_views(r.1@).no_duplicates(),
        include_free(source@) ==> r.0@ == join_lines(lines(source@)) && r.1@.len() == 0,
{
    let chars = chars_of(source);
    let dir: Option<String> = match base_dir {
        Some(d) => Some(d.to_owned()),
        None => None,
    };
    let mut seen: Vec<Vec<char>> = Vec::new();
    assert(key_views(seen@) =~= Seq::<Seq<char>>::empty());
    let expanded = expand_includes(chars.as_slice(), dir, &mut seen, resolve, read);
    let text = string_of(expanded.as_slice());
    let mut keys: Vec<String> = Vec::new();
    let mut j: usize = 0;
    while j < seen.len()
        invariant
            j <= seen@.len(),
            keys@.len() == j,
            forall|k: int| 0 <= k < j ==> (#[trigger] keys@[k])@ == seen@[k]@,
        decreases seen.len() - j,
    {
        keys.push(string_of(seen[j].as_slice()));
        j = j + 1;
    }
    assert(string_views(keys@) =~= key_views(seen@));
    proof {
        if include_free(source@) {
            law_include_free_lines_are_kept(
                *resolve,
                *read,
                usize::MAX as nat,
                lines(source@),
                opt_dir_view(base_dir),
                Seq::<Seq<char>>::empty(),
                expanded@,
                key_views(seen@),
            );
        }
    }
    (text, keys)
}

/// The directive lines that the `!define` pass keeps unknown: each line
/// that, trimmed, starts with `!` but not with `!define ` or `!theme `,
/// trimmed, in order.
pub open spec fn unknown_directives_of(ls: Seq<Seq<char>>) -> Seq<Seq<char>>
    decreases ls.len(),
{
    if ls.len() == 0 {
        seq![]
    } else {
        let prev = unknown_directives_of(ls.drop_last());
        let t = trim(ls.last());
        if !starts_with(t, "!define "@) && !starts_with(t, "!theme "@) && starts_with(t, "!"@) {
            prev.push(t)
        } else {
            prev
        }
    }
}

/// The unknown directives of `text` (see [`unknown_directives_of`]).
pub fn unknown_directives(text: &str) -> (r: Vec<String>)
    ensures
        string_views(r@) == unknown_directives_of(lines(text@)),
{
    let chars = chars_of(text);
    let ls = split_lines(chars.as_slice());
    let ghost lsv = ls.deep_view();
    let mut r: Vec<String> = Vec::new();
    let mut i: usize = 0;
    while i < ls.len()
        invariant
            i <= ls@.len(),
            lsv == ls.deep_view(),
            lsv == lines(text@),
            string_views(r@) == unknown_directives_of(lsv.take(i as int)),
        decreases ls.len() - i,
    {
        assert(lsv.take(i + 1).drop_last() =~= lsv.take(i as int));
        let line = &ls[i];
        proof {
            lemma_chars_deep_view(line);
        }
        assert(line@ == lsv[i as int]);
        let t = trim_chars(line.as_slice());
        if !starts_with_str(t.as_slice(), "!define ") && !starts_with_str(t.as_slice(), "!theme ")
            && starts_with_str(t.as_slice(), "!") {
            let ghost before = r@;
            r.push(string_of(t.as_slice()));
            assert(string_views(r@) =~= string_views(before).push(t@));
        }
        i = i + 1;
    }
    assert(lsv.take(ls@.len() as int) =~= lsv);
    r
}

/// The warnings of the `!define` pass on a source whose includes are
/// spliced in: its unknown directives once C4 macros are translated.
pub fn directive_warnings(expanded: &str) -> (r: Vec<String>)
    ensures
        string_views(r@) == unknown_directives_of(lines(c4::spec_translate(expanded@))),
{
    let translated = c4::translate(expanded);
    unknown_directives(translated.as_str())
}

/// Preprocesses `source` into its diagram blocks and also returns the keys
/// of the files reached through `!include`, in the order they were first
/// met and without repeats. `base_dir` is where relative include paths are
/// read from; `resolve` and `read` give access to the files.
///
/// The blocks are those of the text that splicing the includes gives (see
/// [`include_expansion`]), starting with no key met; the keys returned are
/// the keys met by that splicing.
pub fn preprocess_with_includes<R, L>(
    source: &str,
    base_dir: Option<&str>,
    resolve: &R,
    read: &L,
) -> (r: (Vec<DiagramSource>, Vec<String>)) where
    R: Fn(Option<String>, String) -> (String, Option<String>),
    L: Fn(String) -> Option<String>,

    requires
        forall|b: Option<String>, p: String| resolve.requires((b, p)),
        forall|p: String| read.requires((p,)),
    ensures
        exists|text: Seq<char>|
            include_expansion(
                *resolve,
                *read,
                usize::MAX as nat,
                lines(source@),
                opt_dir_view(base_dir),
                Seq::<Seq<char>>::empty(),
                text,
                string_views(r.1@),
            ) && sources_view(r.0@) == spec_preprocess_expanded(text),
        string_views(r.1@).no_duplicates(),
        include_free(source@) ==> sources_view(r.0@) == spec_preprocess_expanded(
            join_lines(lines(source@)),
        ) && r.1@.len() == 0,
{
    let (text, keys) = splice_includes(source, base_dir, resolve, read);
    let diagrams = preprocess_expanded(text.as_str());
    (diagrams, keys)
}

/// The diagram blocks of `source` (see [`preprocess_with_includes`]).
pub fn preprocess<R, L>(source: &str, base_dir: Option<&str>, resolve: &R, read: &L) -> (r: Vec<
    DiagramSource,
>) where
    R: Fn(Option<String>, String) -> (String, Option<String>),
    L: Fn(String) -> Option<String>,

    requires
        forall|b: Option<String>, p: String| resolve.requires((b, p)),
        forall|p: String| read.requires((p,)),
    ensures
        exists|text: Seq<char>, keys: Seq<Seq<char>>|
            include_expansion(
                *resolve,
                *read,
                usize::MAX as nat,
                lines(source@),
                opt_dir_view(base_dir),
                Seq::<Seq<char>>::empty(),
                text,
                keys,
            ) && sources_view(r@) == spec_preprocess_expanded(text),
        include_free(source@) ==> sources_view(r@) == spec_preprocess_expanded(
            join_lines(lines(source@)),
        ),
{
    preprocess_with_includes(source, base_dir, resolve, read).0
}

// ---------------------------------------------------------------------------
// Laws
// ---------------------------------------------------------------------------

/// The lines of `ls` that are not end markers.
pub open spec fn non_end_lines(ls: Seq<Seq<char>>) -> Seq<Seq<char>>
    decreases ls.len(),
{
    if ls.len() == 0 {
        seq![]
    } else if spec_is_end_marker(trim(ls.last())) {
        non_end_lines(ls.drop_last())
    } else {
        non_end_lines(ls.drop_last()).push(ls.last())
    }
}

proof fn lemma_fold_without_markers(ls: Seq<Seq<char>>)
    requires
        forall|i: int| 0 <= i < ls.len() ==> start_marker_hint(trim(#[trigger] ls[i])) is None,
    ensures
        split_fold(ls) == (SplitState {
            closed: seq![],
            open: None,
            bare: non_end_lines(ls),
            has_markers: false,
        }),
    decreases ls.len(),
{
    if ls.len() > 0 {
        assert(start_marker_hint(trim(ls[ls.len() - 1])) is None);
        lemma_fold_without_markers(ls.drop_last());
    }
}

/// A text with no start marker is a single block without a type hint,
/// made of all its lines but the end markers; it has no block when every
/// line is an end marker.
pub proof fn law_unmarked_text_is_one_block(ls: Seq<Seq<char>>)
    requires
        forall|i: int| 0 <= i < ls.len() ==> start_marker_hint(trim(#[trigger] ls[i])) is None,
    ensures
        non_end_lines(ls).len() > 0 ==> blocks_of_lines(ls) == seq![
            (None::<Seq<char>>, join_lines(non_end_lines(ls))),
        ],
        non_end_lines(ls).len() == 0 ==> blocks_of_lines(ls).len() == 0,
{
    lemma_fold_without_markers(ls);
    assert(Seq::<BlockView>::empty().push((None::<Seq<char>>, join_lines(non_end_lines(ls))))
        =~= seq![(None::<Seq<char>>, join_lines(non_end_lines(ls)))]);
}

} // verus!
