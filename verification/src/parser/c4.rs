//! C4 model macro translation.
//!
//! The C4-PlantUML standard library (`!include <C4/Container>` and friends)
//! defines function-style macros: `Person(alias, "label", "description")`,
//! `System(...)`, `Container(...)`, `Rel(from, to, "label", "tech")`, ...
//! Each macro call is translated at preprocess time into plain class and
//! relation syntax, which the class pipeline then handles.
//!
//! Translation only happens when a C4 include directive is present; any
//! other source passes through unchanged.
use vstd::prelude::*;
use crate::text::{
    append, append_line, append_str, ascii_lower, chars_of, contains, contains_str, ends_with,
    ends_with_str, eq_str, find, find_char, is_alnum, is_ascii_alnum, lemma_chars_deep_view, lines,
    occurs_at, slice_of, split_lines, starts_with, starts_with_str, string_of, to_ascii_lower, trim,
    trim_bounds, trim_chars, trim_start,
};

verus! {

// ---------------------------------------------------------------------------
// Specification
// ---------------------------------------------------------------------------

/// A C4 stdlib include directive (`!include <C4/...>`, `!includeurl` of a
/// C4-PlantUML file, ...), given a trimmed line.
pub open spec fn spec_is_c4_include_line(t: Seq<char>) -> bool {
    (starts_with(t, "!include"@) || starts_with(t, "!includeurl"@)) && (contains(t, "<C4/"@)
        || contains(t, "/C4_"@) || contains(t, "C4-PlantUML"@) || contains(t, "c4-plantuml"@))
}

/// Some line of `s`, trimmed, is a C4 include directive.
pub open spec fn spec_is_c4_source(s: Seq<char>) -> bool {
    exists|i: int| 0 <= i < lines(s).len() && spec_is_c4_include_line(trim(#[trigger] lines(s)[i]))
}

/// Layout, styling and metadata macros that carry no diagram content.
pub open spec fn spec_is_c4_layout_line(t: Seq<char>) -> bool {
    ||| starts_with(t, "LAYOUT_"@)
    ||| starts_with(t, "Lay_"@)
    ||| starts_with(t, "UpdateElementStyle"@)
    ||| starts_with(t, "UpdateRelStyle"@)
    ||| starts_with(t, "UpdateBoundaryStyle"@)
    ||| starts_with(t, "AddElementTag"@)
    ||| starts_with(t, "AddRelTag"@)
    ||| starts_with(t, "AddBoundaryTag"@)
    ||| starts_with(t, "AddProperty"@)
    ||| starts_with(t, "WithoutPropertyHeader"@)
    ||| starts_with(t, "SetPropertyHeader"@)
    ||| starts_with(t, "SHOW_FLOATING_LEGEND"@)
    ||| starts_with(t, "SHOW_LEGEND"@)
    ||| t == "SHOW_PERSON_OUTLINE()"@
    ||| t == "HIDE_STEREOTYPE()"@
    ||| t == "HIDE_PERSON_OUTLINE()"@
}

/// A parsed macro call `Name(arg, ...)`, optionally followed by `{`.
pub struct CallView {
    pub name: Seq<char>,
    pub args: Seq<Seq<char>>,
    pub block: bool,
}

/// Index of the `)` closing an already-open `(`, scanning from `i` with
/// `depth` open parentheses and quote state `q`; parentheses inside
/// double quotes do not count.
pub open spec fn closing_paren_from(s: Seq<char>, i: int, depth: int, q: bool) -> Option<int>
    decreases s.len() - i,
{
    if i < 0 || i >= s.len() {
        None
    } else if s[i] == '"' {
        closing_paren_from(s, i + 1, depth, !q)
    } else if s[i] == '(' && !q {
        closing_paren_from(s, i + 1, depth + 1, q)
    } else if s[i] == ')' && !q {
        if depth - 1 == 0 {
            Some(i)
        } else {
            closing_paren_from(s, i + 1, depth - 1, q)
        }
    } else {
        closing_paren_from(s, i + 1, depth, q)
    }
}

/// Trim, then drop one pair of surrounding double quotes.
pub open spec fn spec_unquote_trim(s: Seq<char>) -> Seq<char> {
    let t = trim(s);
    if t.len() >= 2 && t[0] == '"' && t.last() == '"' {
        t.subrange(1, t.len() - 1)
    } else {
        t
    }
}

/// Split a comma separated argument list; commas inside double quotes or
/// nested parentheses do not split. `out` holds the finished arguments,
/// `cur` the one being read.
pub open spec fn split_args_from(
    s: Seq<char>,
    i: int,
    out: Seq<Seq<char>>,
    cur: Seq<char>,
    q: bool,
    d: int,
) -> Seq<Seq<char>>
    decreases s.len() - i,
{
    if i < 0 || i >= s.len() {
        if trim(cur).len() > 0 {
            out.push(spec_unquote_trim(cur))
        } else {
            out
        }
    } else {
        let c = s[i];
        if c == '"' {
            split_args_from(s, i + 1, out, cur.push(c), !q, d)
        } else if c == '(' && !q {
            split_args_from(s, i + 1, out, cur.push(c), q, d + 1)
        } else if c == ')' && !q {
            split_args_from(s, i + 1, out, cur.push(c), q, d - 1)
        } else if c == ',' && !q && d == 0 {
            split_args_from(s, i + 1, out.push(spec_unquote_trim(cur)), seq![], q, d)
        } else {
            split_args_from(s, i + 1, out, cur.push(c), q, d)
        }
    }
}

pub open spec fn spec_split_args(s: Seq<char>) -> Seq<Seq<char>> {
    split_args_from(s, 0, seq![], seq![], false, 0)
}

pub open spec fn is_name_char(c: char) -> bool {
    is_ascii_alnum(c) || c == '_'
}

/// `Name(args...)` with an optional trailing `{`; `None` for anything
/// that is not shaped like a macro call.
pub open spec fn spec_parse_macro_call(line: Seq<char>) -> Option<CallView> {
    match find_char(line, '(') {
        None => None,
        Some(open) => {
            let name = trim(line.take(open as int));
            let after = line.skip(open as int + 1);
            if name.len() == 0 || !(forall|k: int| 0 <= k < name.len() ==> is_name_char(name[k])) {
                None
            } else {
                match closing_paren_from(after, 0, 1, false) {
                    None => None,
                    Some(j) => Some(
                        CallView {
                            name,
                            args: spec_split_args(after.take(j)),
                            block: starts_with(trim_start(after.skip(j + 1)), "{"@),
                        },
                    ),
                }
            }
        },
    }
}

/// `args[i]`, or `d` when there are not that many arguments.
pub open spec fn arg_or(args: Seq<Seq<char>>, i: int, d: Seq<char>) -> Seq<char> {
    if 0 <= i < args.len() {
        args[i]
    } else {
        d
    }
}

/// Macros that produce a class-like element (and so own an alias).
pub open spec fn is_class_macro(lower: Seq<char>) -> bool {
    ||| lower == "person"@
    ||| lower == "person_ext"@
    ||| lower == "system"@
    ||| lower == "system_ext"@
    ||| lower == "systemdb"@
    ||| lower == "systemdb_ext"@
    ||| lower == "systemqueue"@
    ||| lower == "systemqueue_ext"@
    ||| lower == "container"@
    ||| lower == "container_ext"@
    ||| lower == "containerdb"@
    ||| lower == "containerdb_ext"@
    ||| lower == "containerqueue"@
    ||| lower == "component"@
    ||| lower == "component_ext"@
    ||| lower == "componentdb"@
    ||| lower == "componentqueue"@
    ||| lower == "deployment_node"@
    ||| lower == "node"@
    ||| lower == "node_l"@
    ||| lower == "node_r"@
    ||| lower == "node_b"@
    ||| lower == "containerinstance"@
    ||| lower == "componentinstance"@
}

pub open spec fn spec_first_arg(call: CallView) -> Option<Seq<char>> {
    if is_class_macro(ascii_lower(call.name)) && call.args.len() > 0 {
        Some(call.args[0])
    } else {
        None
    }
}

pub open spec fn spec_boundary_kind(call: CallView) -> Seq<char> {
    let lower = ascii_lower(call.name);
    if starts_with(lower, "enterprise"@) {
        "enterprise"@
    } else if starts_with(lower, "system"@) {
        "system"@
    } else if starts_with(lower, "container"@) {
        "container"@
    } else {
        arg_or(call.args, 2, seq![])
    }
}

pub open spec fn is_node_macro(lower: Seq<char>) -> bool {
    lower == "deployment_node"@ || lower == "node"@ || lower == "node_l"@ || lower == "node_r"@
        || lower == "node_b"@
}

pub open spec fn is_boundary_name(lower: Seq<char>) -> bool {
    ends_with(lower, "_boundary"@) || lower == "boundary"@
}

/// `kw "label" as alias <<stereo>>tail`
pub open spec fn element_line(
    kw: Seq<char>,
    label: Seq<char>,
    alias: Seq<char>,
    stereo: Seq<char>,
    tail: Seq<char>,
) -> Seq<char> {
    kw + " \""@ + label + "\" as "@ + alias + " <<"@ + stereo + ">>"@ + tail
}

/// `database` / `queue` / `fallback` according to the macro name.
pub open spec fn store_keyword(lower: Seq<char>, fallback: Seq<char>) -> Seq<char> {
    if contains(lower, "db"@) {
        "database"@
    } else if contains(lower, "queue"@) {
        "queue"@
    } else {
        fallback
    }
}

/// `base`, then `: tech` when a technology is given, then ` (external)`
/// for `_ext` macros.
pub open spec fn tech_stereo(base: Seq<char>, tech: Seq<char>, lower: Seq<char>) -> Seq<char> {
    let with_tech = if tech.len() > 0 {
        base + ": "@ + tech
    } else {
        base
    };
    if contains(lower, "ext"@) {
        with_tech + " (external)"@
    } else {
        with_tech
    }
}

/// ` : label [tech]`, with either part left out when empty.
pub open spec fn rel_label_part(label: Seq<char>, tech: Seq<char>) -> Seq<char> {
    if label.len() == 0 && tech.len() == 0 {
        seq![]
    } else if tech.len() == 0 {
        " : "@ + label
    } else if label.len() == 0 {
        " : ["@ + tech + "]"@
    } else {
        " : "@ + label + " ["@ + tech + "]"@
    }
}

pub open spec fn tail_of(block: bool) -> Seq<char> {
    if block {
        " {"@
    } else {
        seq![]
    }
}

pub open spec fn is_person(lower: Seq<char>) -> bool {
    lower == "person"@ || lower == "person_ext"@
}

pub open spec fn is_system(lower: Seq<char>) -> bool {
    lower == "system"@ || lower == "system_ext"@ || lower == "systemdb"@ || lower
        == "systemdb_ext"@ || lower == "systemqueue"@ || lower == "systemqueue_ext"@
}

pub open spec fn is_container(lower: Seq<char>) -> bool {
    lower == "container"@ || lower == "container_ext"@ || lower == "containerdb"@ || lower
        == "containerdb_ext"@ || lower == "containerqueue"@
}

pub open spec fn is_component(lower: Seq<char>) -> bool {
    lower == "component"@ || lower == "component_ext"@ || lower == "componentdb"@ || lower
        == "componentqueue"@
}

pub open spec fn is_instance(lower: Seq<char>) -> bool {
    lower == "containerinstance"@ || lower == "componentinstance"@
}

pub open spec fn is_rel(lower: Seq<char>) -> bool {
    starts_with(lower, "rel"@) || lower == "birel"@
}

/// `Person` / `Person_Ext`.
pub open spec fn spec_expand_person(lower: Seq<char>, args: Seq<Seq<char>>, block: bool) -> Seq<
    char,
> {
    let stereo = if lower == "person_ext"@ {
        "person external"@
    } else {
        "person"@
    };
    element_line("class"@, arg_or(args, 1, args[0]), args[0], stereo, tail_of(block))
}

/// `System`, `SystemDb`, `SystemQueue` and their `_Ext` forms.
pub open spec fn spec_expand_system(lower: Seq<char>, args: Seq<Seq<char>>, block: bool) -> Seq<
    char,
> {
    let stereo = if contains(lower, "ext"@) {
        "system external"@
    } else {
        "system"@
    };
    element_line(
        store_keyword(lower, "rectangle"@),
        arg_or(args, 1, args[0]),
        args[0],
        stereo,
        tail_of(block),
    )
}

/// `Container*` (base `container`) and `Component*` (base `component`):
/// `Name(alias, label, technology, description?)`.
pub open spec fn spec_expand_part(
    base: Seq<char>,
    lower: Seq<char>,
    args: Seq<Seq<char>>,
    block: bool,
) -> Seq<char> {
    element_line(
        store_keyword(lower, "component"@),
        arg_or(args, 1, args[0]),
        args[0],
        tech_stereo(base, arg_or(args, 2, seq![]), lower),
        tail_of(block),
    )
}

/// `Deployment_Node` / `Node*` without a block.
pub open spec fn spec_expand_node(args: Seq<Seq<char>>, block: bool) -> Seq<char> {
    let kind_arg = arg_or(args, 2, seq![]);
    let stereo = if kind_arg.len() == 0 {
        "deployment node"@
    } else {
        "deployment node: "@ + kind_arg
    };
    element_line("node"@, arg_or(args, 1, args[0]), args[0], stereo, tail_of(block))
}

/// `ContainerInstance(alias, target)` / `ComponentInstance(alias, target)`.
pub open spec fn spec_expand_instance(lower: Seq<char>, args: Seq<Seq<char>>) -> Seq<char> {
    let target = arg_or(args, 1, seq![]);
    let label = if target.len() == 0 {
        args[0]
    } else {
        target
    };
    let stereo = if lower == "containerinstance"@ {
        "container instance"@
    } else {
        "component instance"@
    };
    let full = if target.len() == 0 {
        stereo
    } else {
        stereo + ": "@ + target
    };
    element_line("component"@, label, args[0], full, seq![])
}

pub open spec fn rel_offset(lower: Seq<char>) -> int {
    if starts_with(lower, "relindex"@) || starts_with(lower, "rel_with_index"@) {
        1
    } else {
        0
    }
}

/// Relations: `Rel(from, to, label?, tech?)` and its directional, reverse
/// (`Rel_Back*`), bidirectional (`BiRel*`) and numbered (`RelIndex`,
/// `Rel_with_index`) variants.
pub open spec fn spec_expand_rel(lower: Seq<char>, args: Seq<Seq<char>>) -> Seq<char> {
    let off = rel_offset(lower);
    let idx = if off == 1 {
        arg_or(args, 0, seq![])
    } else {
        seq![]
    };
    let label = arg_or(args, off + 2, seq![]);
    let tech = arg_or(args, off + 3, seq![]);
    let arrow = if starts_with(lower, "birel"@) {
        "<-->"@
    } else if starts_with(lower, "rel_back"@) {
        "<--"@
    } else {
        "-->"@
    };
    let labelled = if idx.len() > 0 {
        trim("("@ + trim(idx) + ") "@ + label)
    } else {
        label
    };
    args[off] + " "@ + arrow + " "@ + args[off + 1] + rel_label_part(labelled, tech)
}

/// The puml text one macro call expands to; `None` for macros that are not
/// recognised or lack their required arguments (the line is then passed
/// through unchanged).
pub open spec fn spec_expand(call: CallView) -> Option<Seq<char>> {
    let lower = ascii_lower(call.name);
    let args = call.args;
    if is_person(lower) {
        if args.len() == 0 {
            None
        } else {
            Some(spec_expand_person(lower, args, call.block))
        }
    } else if is_system(lower) {
        if args.len() == 0 {
            None
        } else {
            Some(spec_expand_system(lower, args, call.block))
        }
    } else if is_container(lower) {
        if args.len() == 0 {
            None
        } else {
            Some(spec_expand_part("container"@, lower, args, call.block))
        }
    } else if is_component(lower) {
        if args.len() == 0 {
            None
        } else {
            Some(spec_expand_part("component"@, lower, args, call.block))
        }
    } else if is_boundary_name(lower) {
        Some("' ["@ + call.name + ": "@ + arg_or(args, 1, arg_or(args, 0, seq![])) + "]"@)
    } else if is_node_macro(lower) {
        if args.len() == 0 {
            None
        } else {
            Some(spec_expand_node(args, call.block))
        }
    } else if is_instance(lower) {
        if args.len() == 0 {
            None
        } else {
            Some(spec_expand_instance(lower, args))
        }
    } else if is_rel(lower) {
        if args.len() < rel_offset(lower) + 2 {
            None
        } else {
            Some(spec_expand_rel(lower, args))
        }
    } else {
        None
    }
}

/// Skinparam lines injected into every translated C4 diagram.
pub open spec fn preamble() -> Seq<char> {
    C4_STYLE_PREAMBLE@
}

/// One membership record per open boundary, outermost first.
pub open spec fn member_lines(stack: Seq<Seq<char>>, alias: Seq<char>) -> Seq<char>
    decreases stack.len(),
{
    if stack.len() == 0 {
        seq![]
    } else {
        member_lines(stack.drop_last(), alias) + "skinparam pumlC4BoundaryMember "@ + stack.last()
            + "|"@ + alias + "\n"@
    }
}

/// The call opens a boundary block (`*_Boundary(...) {`, or a node macro
/// with a block).
pub open spec fn opens_boundary(call: CallView) -> bool {
    let lower = ascii_lower(call.name);
    call.block && (is_boundary_name(lower) || is_node_macro(lower))
}

/// The kind recorded for a boundary block.
pub open spec fn block_kind(call: CallView) -> Seq<char> {
    let lower = ascii_lower(call.name);
    if is_node_macro(lower) {
        let t = arg_or(call.args, 2, seq![]);
        if t.len() == 0 {
            "deployment node"@
        } else {
            "deployment node: "@ + t
        }
    } else {
        spec_boundary_kind(call)
    }
}

/// One line of a C4 source: the text it contributes, the new stack of open
/// boundary aliases, and whether the preamble is still pending.
pub open spec fn step(line: Seq<char>, stack: Seq<Seq<char>>, pending: bool) -> (
    Seq<char>,
    Seq<Seq<char>>,
    bool,
) {
    let t = trim(line);
    if pending && starts_with(t, "@startuml"@) {
        (line + "\n"@ + preamble(), stack, false)
    } else if spec_is_c4_include_line(t) || spec_is_c4_layout_line(t) {
        (seq![], stack, pending)
    } else if spec_parse_macro_call(t) is Some && opens_boundary(spec_parse_macro_call(t)->0) {
        let call = spec_parse_macro_call(t)->0;
        let alias = arg_or(call.args, 0, seq![]);
        if alias.len() > 0 {
            (
                "skinparam pumlC4Boundary "@ + alias + "|"@ + arg_or(call.args, 1, seq![]) + "|"@
                    + block_kind(call) + "\n"@,
                stack.push(alias),
                pending,
            )
        } else {
            (seq![], stack, pending)
        }
    } else if spec_parse_macro_call(t) is Some && spec_expand(spec_parse_macro_call(t)->0) is Some {
        let call = spec_parse_macro_call(t)->0;
        let members = match spec_first_arg(call) {
            Some(a) => member_lines(stack, a),
            None => seq![],
        };
        (spec_expand(call)->0 + "\n"@ + members, stack, pending)
    } else if t == "}"@ && stack.len() > 0 {
        (seq![], stack.drop_last(), pending)
    } else {
        (line + "\n"@, stack, pending)
    }
}

/// Translation of the lines `ls` of a C4 source. `stack` holds the aliases
/// of the open boundaries, `pending` is set while the preamble still has to
/// be emitted after the first `@startuml`.
pub open spec fn translate_lines(ls: Seq<Seq<char>>, stack: Seq<Seq<char>>, pending: bool) -> Seq<
    char,
>
    decreases ls.len(),
{
    if ls.len() == 0 {
        seq![]
    } else {
        let st = step(ls[0], stack, pending);
        st.0 + translate_lines(ls.drop_first(), st.1, st.2)
    }
}

/// Some line of `s`, with its leading whitespace removed, starts with
/// `@startuml`.
pub open spec fn has_start_marker(s: Seq<char>) -> bool {
    exists|i: int|
        0 <= i < lines(s).len() && starts_with(trim_start(#[trigger] lines(s)[i]), "@startuml"@)
}

/// The whole translation: identity unless the source is a C4 source.
pub open spec fn spec_translate(s: Seq<char>) -> Seq<char> {
    if !spec_is_c4_source(s) {
        s
    } else if has_start_marker(s) {
        translate_lines(lines(s), seq![], true)
    } else {
        preamble() + translate_lines(lines(s), seq![], false)
    }
}

// ---------------------------------------------------------------------------
// Implementation
// ---------------------------------------------------------------------------

/// Skinparam preamble injected into every C4 diagram.
///
/// `pumlC4Mode true` tells the class parser to flip rank propagation so
/// callers render above callees (the C4 convention). The colour skinparams
/// are advisory metadata for stereotype-driven theming.
pub const C4_STYLE_PREAMBLE: &'static str =
    "skinparam pumlC4Mode true\nskinparam c4_person_color #08427B\nskinparam c4_system_color #1168BD\nskinparam c4_system_external_color #999999\nskinparam c4_container_color #438DD5\nskinparam c4_component_color #85BBF0\n";

struct MacroCall {
    name: Vec<char>,
    args: Vec<Vec<char>>,
    has_block_open: bool,
}

impl MacroCall {
    spec fn view(&self) -> CallView {
        CallView { name: self.name@, args: self.args.deep_view(), block: self.has_block_open }
    }
}

fn is_c4_include_line(t: &[char]) -> (r: bool)
    ensures
        r == spec_is_c4_include_line(t@),
{
    let is_include = starts_with_str(t, "!include") || starts_with_str(t, "!includeurl");
    is_include && (contains_str(t, "<C4/") || contains_str(t, "/C4_") || contains_str(
        t,
        "C4-PlantUML",
    ) || contains_str(t, "c4-plantuml"))
}

/// Does the source pull in any C4-PlantUML stdlib file? Accepts the
/// canonical stdlib forms (`<C4/C4_Container>`, `<C4/Container>`), the
/// `!includeurl` directive, and any URL holding `C4_` or `C4-PlantUML`.
pub fn is_c4_source(source: &str) -> (r: bool)
    ensures
        r == spec_is_c4_source(source@),
{
    let chars = chars_of(source);
    let ls = split_lines(chars.as_slice());
    is_c4_lines(&ls)
}

fn is_c4_lines(ls: &Vec<Vec<char>>) -> (r: bool)
    ensures
        r == exists|i: int|
            0 <= i < ls.deep_view().len() && spec_is_c4_include_line(
                trim(#[trigger] ls.deep_view()[i]),
            ),
{
    let ghost lv = ls.deep_view();
    let mut i: usize = 0;
    while i < ls.len()
        invariant
            i <= ls@.len(),
            lv == ls.deep_view(),
            forall|j: int| 0 <= j < i ==> !spec_is_c4_include_line(trim(#[trigger] lv[j])),
        decreases ls.len() - i,
    {
        let t = trim_chars(ls[i].as_slice());
        assert(ls[i as int]@ == lv[i as int]);
        if is_c4_include_line(t.as_slice()) {
            return true;
        }
        i = i + 1;
    }
    false
}

fn is_c4_layout_line(t: &[char]) -> (r: bool)
    ensures
        r == spec_is_c4_layout_line(t@),
{
    starts_with_str(t, "LAYOUT_") || starts_with_str(t, "Lay_") || starts_with_str(
        t,
        "UpdateElementStyle",
    ) || starts_with_str(t, "UpdateRelStyle") || starts_with_str(t, "UpdateBoundaryStyle")
        || starts_with_str(t, "AddElementTag") || starts_with_str(t, "AddRelTag") || starts_with_str(
        t,
        "AddBoundaryTag",
    ) || starts_with_str(t, "AddProperty") || starts_with_str(t, "WithoutPropertyHeader")
        || starts_with_str(t, "SetPropertyHeader") || starts_with_str(t, "SHOW_FLOATING_LEGEND")
        || starts_with_str(t, "SHOW_LEGEND") || eq_str(t, "SHOW_PERSON_OUTLINE()") || eq_str(
        t,
        "HIDE_STEREOTYPE()",
    ) || eq_str(t, "HIDE_PERSON_OUTLINE()")
}

/// Split `s` at the `)` that closes an already-open `(`, skipping quoted
/// text: `(inside, after)`.
fn split_at_matching_paren(s: &[char]) -> (r: Option<(Vec<char>, Vec<char>)>)
    ensures
        match closing_paren_from(s@, 0, 1, false) {
            None => r is None,
            Some(j) => r matches Some((a, b)) && a@ == s@.take(j) && b@ == s@.skip(j + 1),
        },
{
    let mut depth: u128 = 1;
    let mut in_quote = false;
    let mut i: usize = 0;
    while i < s.len()
        invariant
            i <= s@.len(),
            1 <= depth <= i + 1,
            closing_paren_from(s@, 0, 1, false) == closing_paren_from(
                s@,
                i as int,
                depth as int,
                in_quote,
            ),
        decreases s.len() - i,
    {
        let c = s[i];
        if c == '"' {
            in_quote = !in_quote;
        } else if c == '(' && !in_quote {
            depth = depth + 1;
        } else if c == ')' && !in_quote {
            if depth == 1 {
                let a = slice_of(s, 0, i);
                let b = slice_of(s, i + 1, s.len());
                return Some((a, b));
            }
            depth = depth - 1;
        }
        i = i + 1;
    }
    None
}

/// Trim, then strip one level of surrounding double quotes.
fn unquote_trim(s: &[char]) -> (r: Vec<char>)
    ensures
        r@ == spec_unquote_trim(s@),
{
    let t = trim_chars(s);
    if t.len() >= 2 && t[0] == '"' && t[t.len() - 1] == '"' {
        slice_of(t.as_slice(), 1, t.len() - 1)
    } else {
        t
    }
}

/// Split a comma-delimited C4 argument list, respecting double-quoted
/// strings (which may contain commas) and nested parentheses. One level of
/// surrounding quotes is stripped from each argument.
fn split_args(s: &[char]) -> (r: Vec<Vec<char>>)
    ensures
        r.deep_view() == spec_split_args(s@),
{
    let mut out: Vec<Vec<char>> = Vec::new();
    let mut cur: Vec<char> = Vec::new();
    let mut in_quote = false;
    let mut depth: i128 = 0;
    let mut i: usize = 0;
    assert(out.deep_view() =~= Seq::<Seq<char>>::empty());
    while i < s.len()
        invariant
            i <= s@.len(),
            -(i as int) <= depth <= i as int,
            spec_split_args(s@) == split_args_from(
                s@,
                i as int,
                out.deep_view(),
                cur@,
                in_quote,
                depth as int,
            ),
        decreases s.len() - i,
    {
        let c = s[i];
        if c == '"' {
            in_quote = !in_quote;
            cur.push(c);
        } else if c == '(' && !in_quote {
            depth = depth + 1;
            cur.push(c);
        } else if c == ')' && !in_quote {
            depth = depth - 1;
            cur.push(c);
        } else if c == ',' && !in_quote && depth == 0 {
            let a = unquote_trim(cur.as_slice());
            let ghost before = out.deep_view();
            proof {
                lemma_chars_deep_view(&a);
            }
            out.push(a);
            assert(out.deep_view() =~= before.push(spec_unquote_trim(cur@)));
            cur = Vec::new();
        } else {
            cur.push(c);
        }
        i = i + 1;
    }
    let t = trim_chars(cur.as_slice());
    if t.len() > 0 {
        let a = unquote_trim(cur.as_slice());
        let ghost before = out.deep_view();
        proof {
            lemma_chars_deep_view(&a);
        }
        out.push(a);
        assert(out.deep_view() =~= before.push(spec_unquote_trim(cur@)));
    }
    out
}

fn all_name_chars(name: &[char]) -> (r: bool)
    ensures
        r == (forall|k: int| 0 <= k < name@.len() ==> is_name_char(name@[k])),
{
    let mut i: usize = 0;
    while i < name.len()
        invariant
            i <= name@.len(),
            forall|k: int| 0 <= k < i ==> is_name_char(name@[k]),
        decreases name.len() - i,
    {
        let c = name[i];
        if !(is_alnum(c) || c == '_') {
            return false;
        }
        i = i + 1;
    }
    true
}

/// Parse `Name(arg1, "arg with spaces", arg3) {` (trailing `{` optional)
/// into name and argument list; `None` for anything not shaped like a
/// macro call.
fn parse_macro_call(line: &[char]) -> (r: Option<MacroCall>)
    ensures
        match spec_parse_macro_call(line@) {
            None => r is None,
            Some(c) => r is Some && r->0.view() == c,
        },
{
    let open = match find(line, '(') {
        Some(o) => o,
        None => return None,
    };
    let head = slice_of(line, 0, open);
    assert(head@ == line@.take(open as int));
    let name = trim_chars(head.as_slice());
    if name.len() == 0 || !all_name_chars(name.as_slice()) {
        return None;
    }
    assert(open < line.len());
    let after = slice_of(line, open + 1, line.len());
    assert(after@ == line@.skip(open + 1));
    match split_at_matching_paren(after.as_slice()) {
        None => None,
        Some((args_raw, tail)) => {
            let (ta, _tb) = trim_bounds(tail.as_slice());
            let rest = slice_of(tail.as_slice(), ta, tail.len());
            let has_block_open = starts_with_str(rest.as_slice(), "{");
            let args = split_args(args_raw.as_slice());
            Some(MacroCall { name, args, has_block_open })
        },
    }
}


// ---------------------------------------------------------------------------
// Expansion
// ---------------------------------------------------------------------------

fn copy_chars(s: &[char]) -> (r: Vec<char>)
    ensures
        r@ == s@,
{
    let r = slice_of(s, 0, s.len());
    assert(s@.subrange(0, s@.len() as int) =~= s@);
    r
}

/// `args[i]`, or a copy of `d` when there are not that many arguments.
fn get_arg(args: &Vec<Vec<char>>, i: usize, d: &[char]) -> (r: Vec<char>)
    ensures
        r@ == arg_or(args.deep_view(), i as int, d@),
{
    if i < args.len() {
        assert(args.deep_view()[i as int] == args@[i as int]@);
        copy_chars(args[i].as_slice())
    } else {
        copy_chars(d)
    }
}

fn element_line_exec(
    kw: &[char],
    label: &[char],
    alias: &[char],
    stereo: &[char],
    tail: &[char],
) -> (r: Vec<char>)
    ensures
        r@ == element_line(kw@, label@, alias@, stereo@, tail@),
{
    let mut out = copy_chars(kw);
    append_str(&mut out, " \"");
    append(&mut out, label);
    append_str(&mut out, "\" as ");
    append(&mut out, alias);
    append_str(&mut out, " <<");
    append(&mut out, stereo);
    append_str(&mut out, ">>");
    append(&mut out, tail);
    out
}

fn tail_exec(block: bool) -> (r: Vec<char>)
    ensures
        r@ == tail_of(block),
{
    if block {
        chars_of(" {")
    } else {
        Vec::new()
    }
}

fn store_keyword_exec(lower: &[char], fallback: &str) -> (r: Vec<char>)
    ensures
        r@ == store_keyword(lower@, fallback@),
{
    if contains_str(lower, "db") {
        chars_of("database")
    } else if contains_str(lower, "queue") {
        chars_of("queue")
    } else {
        chars_of(fallback)
    }
}

fn tech_stereo_exec(base: &str, tech: &[char], lower: &[char]) -> (r: Vec<char>)
    ensures
        r@ == tech_stereo(base@, tech@, lower@),
{
    let mut out = chars_of(base);
    if tech.len() > 0 {
        append_str(&mut out, ": ");
        append(&mut out, tech);
    }
    if contains_str(lower, "ext") {
        append_str(&mut out, " (external)");
    }
    out
}

fn rel_label_part_exec(label: &[char], tech: &[char]) -> (r: Vec<char>)
    ensures
        r@ == rel_label_part(label@, tech@),
{
    let mut out: Vec<char> = Vec::new();
    if label.len() == 0 && tech.len() == 0 {
        assert(out@ =~= Seq::<char>::empty());
    } else if tech.len() == 0 {
        append_str(&mut out, " : ");
        append(&mut out, label);
        assert(out@ =~= " : "@ + label@);
    } else if label.len() == 0 {
        append_str(&mut out, " : [");
        append(&mut out, tech);
        append_str(&mut out, "]");
        assert(out@ =~= " : ["@ + tech@ + "]"@);
    } else {
        append_str(&mut out, " : ");
        append(&mut out, label);
        append_str(&mut out, " [");
        append(&mut out, tech);
        append_str(&mut out, "]");
        assert(out@ =~= " : "@ + label@ + " ["@ + tech@ + "]"@);
    }
    out
}

fn expand_person(lower: &[char], args: &Vec<Vec<char>>, block: bool) -> (r: Vec<char>)
    requires
        args@.len() > 0,
    ensures
        r@ == spec_expand_person(lower@, args.deep_view(), block),
{
    let alias = get_arg(args, 0, &[]);
    let label = get_arg(args, 1, alias.as_slice());
    let stereo = if eq_str(lower, "person_ext") {
        chars_of("person external")
    } else {
        chars_of("person")
    };
    let kw = chars_of("class");
    let tail = tail_exec(block);
    element_line_exec(kw.as_slice(), label.as_slice(), alias.as_slice(), stereo.as_slice(), tail.as_slice())
}

fn expand_system(lower: &[char], args: &Vec<Vec<char>>, block: bool) -> (r: Vec<char>)
    requires
        args@.len() > 0,
    ensures
        r@ == spec_expand_system(lower@, args.deep_view(), block),
{
    let alias = get_arg(args, 0, &[]);
    let label = get_arg(args, 1, alias.as_slice());
    let stereo = if contains_str(lower, "ext") {
        chars_of("system external")
    } else {
        chars_of("system")
    };
    let kw = store_keyword_exec(lower, "rectangle");
    let tail = tail_exec(block);
    element_line_exec(kw.as_slice(), label.as_slice(), alias.as_slice(), stereo.as_slice(), tail.as_slice())
}

fn expand_part(base: &str, lower: &[char], args: &Vec<Vec<char>>, block: bool) -> (r: Vec<char>)
    requires
        args@.len() > 0,
    ensures
        r@ == spec_expand_part(base@, lower@, args.deep_view(), block),
{
    let alias = get_arg(args, 0, &[]);
    let label = get_arg(args, 1, alias.as_slice());
    let tech = get_arg(args, 2, &[]);
    let stereo = tech_stereo_exec(base, tech.as_slice(), lower);
    let kw = store_keyword_exec(lower, "component");
    let tail = tail_exec(block);
    element_line_exec(kw.as_slice(), label.as_slice(), alias.as_slice(), stereo.as_slice(), tail.as_slice())
}

fn expand_node(args: &Vec<Vec<char>>, block: bool) -> (r: Vec<char>)
    requires
        args@.len() > 0,
    ensures
        r@ == spec_expand_node(args.deep_view(), block),
{
    let alias = get_arg(args, 0, &[]);
    let label = get_arg(args, 1, alias.as_slice());
    let kind_arg = get_arg(args, 2, &[]);
    let mut stereo = chars_of("deployment node");
    if kind_arg.len() > 0 {
        append_str(&mut stereo, ": ");
        append(&mut stereo, kind_arg.as_slice());
        assert(stereo@ =~= "deployment node: "@ + kind_arg@) by {
            assert("deployment node"@ + ": "@ =~= "deployment node: "@) by {
                reveal_strlit("deployment node");
                reveal_strlit(": ");
                reveal_strlit("deployment node: ");
            }
        }
    }
    let kw = chars_of("node");
    let tail = tail_exec(block);
    element_line_exec(kw.as_slice(), label.as_slice(), alias.as_slice(), stereo.as_slice(), tail.as_slice())
}

fn expand_instance(lower: &[char], args: &Vec<Vec<char>>) -> (r: Vec<char>)
    requires
        args@.len() > 0,
    ensures
        r@ == spec_expand_instance(lower@, args.deep_view()),
{
    let alias = get_arg(args, 0, &[]);
    let target = get_arg(args, 1, &[]);
    let label = if target.len() == 0 {
        copy_chars(alias.as_slice())
    } else {
        copy_chars(target.as_slice())
    };
    let mut stereo = if eq_str(lower, "containerinstance") {
        chars_of("container instance")
    } else {
        chars_of("component instance")
    };
    if target.len() > 0 {
        append_str(&mut stereo, ": ");
        append(&mut stereo, target.as_slice());
    }
    let kw = chars_of("component");
    element_line_exec(kw.as_slice(), label.as_slice(), alias.as_slice(), stereo.as_slice(), &[])
}

fn expand_rel(lower: &[char], args: &Vec<Vec<char>>) -> (r: Vec<char>)
    requires
        args@.len() >= rel_offset(lower@) + 2,
    ensures
        r@ == spec_expand_rel(lower@, args.deep_view()),
{
    let indexed = starts_with_str(lower, "relindex") || starts_with_str(lower, "rel_with_index");
    let off: usize = if indexed {
        1
    } else {
        0
    };
    let idx = if indexed {
        get_arg(args, 0, &[])
    } else {
        Vec::new()
    };
    let label = get_arg(args, off + 2, &[]);
    let tech = get_arg(args, off + 3, &[]);
    let arrow = if starts_with_str(lower, "birel") {
        chars_of("<-->")
    } else if starts_with_str(lower, "rel_back") {
        chars_of("<--")
    } else {
        chars_of("-->")
    };
    let labelled = if idx.len() > 0 {
        let mut t = chars_of("(");
        let ti = trim_chars(idx.as_slice());
        append(&mut t, ti.as_slice());
        append_str(&mut t, ") ");
        append(&mut t, label.as_slice());
        trim_chars(t.as_slice())
    } else {
        label
    };
    let from = get_arg(args, off, &[]);
    let to = get_arg(args, off + 1, &[]);
    let mut out = copy_chars(from.as_slice());
    append_str(&mut out, " ");
    append(&mut out, arrow.as_slice());
    append_str(&mut out, " ");
    append(&mut out, to.as_slice());
    let lp = rel_label_part_exec(labelled.as_slice(), tech.as_slice());
    append(&mut out, lp.as_slice());
    out
}

/// Render one macro call as puml text; `None` for unrecognised macros so
/// the original line passes through.
fn expand(call: &MacroCall) -> (r: Option<Vec<char>>)
    ensures
        match spec_expand(call.view()) {
            None => r is None,
            Some(e) => r matches Some(x) && x@ == e,
        },
{
    let lower = to_ascii_lower(call.name.as_slice());
    let l = lower.as_slice();
    let args = &call.args;
    let n = args.len();
    if eq_str(l, "person") || eq_str(l, "person_ext") {
        if n == 0 { None } else { Some(expand_person(l, args, call.has_block_open)) }
    } else if eq_str(l, "system") || eq_str(l, "system_ext") || eq_str(l, "systemdb") || eq_str(
        l,
        "systemdb_ext",
    ) || eq_str(l, "systemqueue") || eq_str(l, "systemqueue_ext") {
        if n == 0 { None } else { Some(expand_system(l, args, call.has_block_open)) }
    } else if eq_str(l, "container") || eq_str(l, "container_ext") || eq_str(l, "containerdb")
        || eq_str(l, "containerdb_ext") || eq_str(l, "containerqueue") {
        if n == 0 { None } else { Some(expand_part("container", l, args, call.has_block_open)) }
    } else if eq_str(l, "component") || eq_str(l, "component_ext") || eq_str(l, "componentdb")
        || eq_str(l, "componentqueue") {
        if n == 0 { None } else { Some(expand_part("component", l, args, call.has_block_open)) }
    } else if ends_with_str(l, "_boundary") || eq_str(l, "boundary") {
        let first = get_arg(args, 0, &[]);
        let label = get_arg(args, 1, first.as_slice());
        let mut out = chars_of("' [");
        append(&mut out, call.name.as_slice());
        append_str(&mut out, ": ");
        append(&mut out, label.as_slice());
        append_str(&mut out, "]");
        Some(out)
    } else if eq_str(l, "deployment_node") || eq_str(l, "node") || eq_str(l, "node_l") || eq_str(
        l,
        "node_r",
    ) || eq_str(l, "node_b") {
        if n == 0 { None } else { Some(expand_node(args, call.has_block_open)) }
    } else if eq_str(l, "containerinstance") || eq_str(l, "componentinstance") {
        if n == 0 { None } else { Some(expand_instance(l, args)) }
    } else if starts_with_str(l, "rel") || eq_str(l, "birel") {
        let indexed = starts_with_str(l, "relindex") || starts_with_str(l, "rel_with_index");
        let need: usize = if indexed { 3 } else { 2 };
        if n < need { None } else { Some(expand_rel(l, args)) }
    } else {
        None
    }
}

/// The alias (first argument) of a class-producing macro, so the
/// translator can record boundary membership right after expanding it.
fn first_arg(call: &MacroCall) -> (r: Option<Vec<char>>)
    ensures
        match spec_first_arg(call.view()) {
            None => r is None,
            Some(e) => r matches Some(x) && x@ == e,
        },
{
    let lower = to_ascii_lower(call.name.as_slice());
    let l = lower.as_slice();
    let is_class = eq_str(l, "person") || eq_str(l, "person_ext") || eq_str(l, "system") || eq_str(
        l,
        "system_ext",
    ) || eq_str(l, "systemdb") || eq_str(l, "systemdb_ext") || eq_str(l, "systemqueue") || eq_str(
        l,
        "systemqueue_ext",
    ) || eq_str(l, "container") || eq_str(l, "container_ext") || eq_str(l, "containerdb") || eq_str(
        l,
        "containerdb_ext",
    ) || eq_str(l, "containerqueue") || eq_str(l, "component") || eq_str(l, "component_ext")
        || eq_str(l, "componentdb") || eq_str(l, "componentqueue") || eq_str(l, "deployment_node")
        || eq_str(l, "node") || eq_str(l, "node_l") || eq_str(l, "node_r") || eq_str(l, "node_b")
        || eq_str(l, "containerinstance") || eq_str(l, "componentinstance");
    if is_class && call.args.len() > 0 {
        Some(get_arg(&call.args, 0, &[]))
    } else {
        None
    }
}

/// Best-effort C4 boundary kind: `Enterprise_Boundary` gives `enterprise`,
/// `System_Boundary` gives `system`, `Container_Boundary` gives
/// `container`; otherwise the third argument, if any.
fn boundary_kind(call: &MacroCall) -> (r: Vec<char>)
    ensures
        r@ == spec_boundary_kind(call.view()),
{
    let lower = to_ascii_lower(call.name.as_slice());
    if starts_with_str(lower.as_slice(), "enterprise") {
        chars_of("enterprise")
    } else if starts_with_str(lower.as_slice(), "system") {
        chars_of("system")
    } else if starts_with_str(lower.as_slice(), "container") {
        chars_of("container")
    } else {
        get_arg(&call.args, 2, &[])
    }
}


// ---------------------------------------------------------------------------
// Translation
// ---------------------------------------------------------------------------

fn block_kind_exec(call: &MacroCall) -> (r: Vec<char>)
    ensures
        r@ == block_kind(call.view()),
{
    let lower = to_ascii_lower(call.name.as_slice());
    let l = lower.as_slice();
    if eq_str(l, "deployment_node") || eq_str(l, "node") || eq_str(l, "node_l") || eq_str(
        l,
        "node_r",
    ) || eq_str(l, "node_b") {
        let t = get_arg(&call.args, 2, &[]);
        if t.len() == 0 {
            chars_of("deployment node")
        } else {
            let mut k = chars_of("deployment node: ");
            append(&mut k, t.as_slice());
            k
        }
    } else {
        boundary_kind(call)
    }
}

fn append_members(out: &mut Vec<char>, stack: &Vec<Vec<char>>, alias: &[char])
    ensures
        final(out)@ == old(out)@ + member_lines(stack.deep_view(), alias@),
{
    let ghost start = out@;
    let ghost sv = stack.deep_view();
    let mut j: usize = 0;
    assert(sv.take(0) =~= Seq::<Seq<char>>::empty());
    while j < stack.len()
        invariant
            j <= stack@.len(),
            sv == stack.deep_view(),
            out@ == start + member_lines(sv.take(j as int), alias@),
        decreases stack.len() - j,
    {
        append_str(out, "skinparam pumlC4BoundaryMember ");
        append(out, stack[j].as_slice());
        append_str(out, "|");
        append(out, alias);
        append_str(out, "\n");
        proof {
            let tk = sv.take(j + 1);
            assert(tk.drop_last() =~= sv.take(j as int));
            assert(tk.last() == stack@[j as int]@);
        }
        j = j + 1;
    }
    assert(sv.take(stack@.len() as int) =~= sv);
}

/// Process one line of a C4 source.
fn translate_step(
    line: &[char],
    stack: &mut Vec<Vec<char>>,
    pending: &mut bool,
    out: &mut Vec<char>,
)
    ensures
        ({
            let st = step(line@, old(stack).deep_view(), *old(pending));
            &&& final(out)@ == old(out)@ + st.0
            &&& final(stack).deep_view() == st.1
            &&& *final(pending) == st.2
        }),
{
    let ghost out0 = out@;
    let ghost stack0 = stack.deep_view();
    let t = trim_chars(line);
    let ts = t.as_slice();
    if *pending && starts_with_str(ts, "@startuml") {
        append_line(out, line);
        append_str(out, C4_STYLE_PREAMBLE);
        *pending = false;
        assert(out@ =~= out0 + (line@ + "\n"@ + preamble()));
        return;
    }
    if is_c4_include_line(ts) || is_c4_layout_line(ts) {
        assert(out@ =~= out0 + Seq::<char>::empty());
        return;
    }
    let call = parse_macro_call(ts);
    if let Some(c) = call {
        let lower = to_ascii_lower(c.name.as_slice());
        let l = lower.as_slice();
        let is_boundary = ends_with_str(l, "_boundary") || eq_str(l, "boundary");
        let is_node = eq_str(l, "deployment_node") || eq_str(l, "node") || eq_str(l, "node_l")
            || eq_str(l, "node_r") || eq_str(l, "node_b");
        if c.has_block_open && (is_boundary || is_node) {
            let alias = get_arg(&c.args, 0, &[]);
            if alias.len() > 0 {
                let label = get_arg(&c.args, 1, &[]);
                let kind = block_kind_exec(&c);
                append_str(out, "skinparam pumlC4Boundary ");
                append(out, alias.as_slice());
                append_str(out, "|");
                append(out, label.as_slice());
                append_str(out, "|");
                append(out, kind.as_slice());
                append_str(out, "\n");
                assert(out@ =~= out0 + ("skinparam pumlC4Boundary "@ + alias@ + "|"@ + label@
                    + "|"@ + kind@ + "\n"@));
                proof {
                    lemma_chars_deep_view(&alias);
                }
                stack.push(alias);
                assert(stack.deep_view() =~= stack0.push(arg_or(c.args.deep_view(), 0, seq![])));
            } else {
                assert(out@ =~= out0 + Seq::<char>::empty());
            }
            return;
        }
        match expand(&c) {
            Some(e) => {
                append_line(out, e.as_slice());
                let ghost mid = out@;
                match first_arg(&c) {
                    Some(a) => {
                        append_members(out, stack, a.as_slice());
                        assert(out@ =~= out0 + (e@ + "\n"@ + member_lines(stack0, a@)));
                    },
                    None => {
                        assert(out@ =~= out0 + (e@ + "\n"@ + Seq::<char>::empty()));
                    },
                }
                return;
            },
            None => {},
        }
    }
    if eq_str(ts, "}") && stack.len() > 0 {
        stack.pop();
        assert(stack.deep_view() =~= stack0.drop_last());
        assert(out@ =~= out0 + Seq::<char>::empty());
        return;
    }
    append_line(out, line);
    assert(out@ =~= out0 + (line@ + "\n"@));
}

fn has_start_lines(ls: &Vec<Vec<char>>) -> (r: bool)
    ensures
        r == exists|i: int|
            0 <= i < ls.deep_view().len() && starts_with(
                trim_start(#[trigger] ls.deep_view()[i]),
                "@startuml"@,
            ),
{
    let ghost lv = ls.deep_view();
    let mut i: usize = 0;
    while i < ls.len()
        invariant
            i <= ls@.len(),
            lv == ls.deep_view(),
            forall|j: int| 0 <= j < i ==> !starts_with(trim_start(#[trigger] lv[j]), "@startuml"@),
        decreases ls.len() - i,
    {
        let line = ls[i].as_slice();
        assert(line@ == lv[i as int]);
        let (a, _b) = trim_bounds(line);
        let ts = slice_of(line, a, line.len());
        if starts_with_str(ts.as_slice(), "@startuml") {
            return true;
        }
        i = i + 1;
    }
    false
}

/// Translate a source holding C4 macros into plain puml syntax. A source
/// without a C4 include directive is returned unchanged.
pub fn translate(source: &str) -> (r: String)
    ensures
        r@ == spec_translate(source@),
{
    let chars = chars_of(source);
    let ls = split_lines(chars.as_slice());
    if !is_c4_lines(&ls) {
        return string_of(chars.as_slice());
    }
    let ghost lv = ls.deep_view();
    let has_start = has_start_lines(&ls);
    let mut out: Vec<char> = Vec::new();
    let mut pending = has_start;
    if !has_start {
        append_str(&mut out, C4_STYLE_PREAMBLE);
    }
    let ghost head = out@;
    let mut stack: Vec<Vec<char>> = Vec::new();
    assert(stack.deep_view() =~= Seq::<Seq<char>>::empty());
    assert(lv.skip(0) =~= lv);
    assert(out@ =~= head + Seq::<char>::empty());
    let mut i: usize = 0;
    while i < ls.len()
        invariant
            i <= ls@.len(),
            lv == ls.deep_view(),
            head + translate_lines(lv, seq![], has_start) == out@ + translate_lines(
                lv.skip(i as int),
                stack.deep_view(),
                pending,
            ),
        decreases ls.len() - i,
    {
        let ghost rest = lv.skip(i as int);
        let ghost out_before = out@;
        let ghost st = step(rest[0], stack.deep_view(), pending);
        assert(rest.drop_first() =~= lv.skip(i + 1));
        assert(rest[0] == ls@[i as int]@);
        assert(translate_lines(rest, stack.deep_view(), pending) == st.0 + translate_lines(
            rest.drop_first(),
            st.1,
            st.2,
        ));
        translate_step(ls[i].as_slice(), &mut stack, &mut pending, &mut out);
        assert(out_before + (st.0 + translate_lines(rest.drop_first(), st.1, st.2)) =~= out@
            + translate_lines(rest.drop_first(), st.1, st.2));
        i = i + 1;
    }
    assert(lv.skip(i as int) =~= Seq::<Seq<char>>::empty());
    assert(out@ + Seq::<char>::empty() =~= out@);
    proof {
        if !has_start {
            assert(head == preamble());
        } else {
            assert(head =~= Seq::<char>::empty());
        }
    }
    string_of(out.as_slice())
}

/// A source that pulls in no C4 library file passes through unchanged.
pub proof fn law_plain_sources_pass_unchanged(s: Seq<char>)
    requires
        !spec_is_c4_source(s),
    ensures
        spec_translate(s) == s,
{
}

/// A C4 source without `@startuml` gets the C4 skin parameters in front.
pub proof fn law_bare_c4_source_starts_with_preamble(s: Seq<char>)
    requires
        spec_is_c4_source(s),
        !has_start_marker(s),
    ensures
        starts_with(spec_translate(s), preamble()),
{
    let t = translate_lines(lines(s), seq![], false);
    assert((preamble() + t).subrange(0, preamble().len() as int) =~= preamble());
}


proof fn lemma_no_pair(s: Seq<char>, p: Seq<char>)
    requires
        p.len() == 2,
        forall|i: int| 0 <= i < s.len() - 1 ==> !(#[trigger] s[i] == p[0] && s[i + 1] == p[1]),
    ensures
        !contains(s, p),
{
    assert forall|i: int| !occurs_at(s, p, i) by {
        if occurs_at(s, p, i) {
            assert(s.subrange(i, i + 2)[0] == p[0]);
            assert(s.subrange(i, i + 2)[1] == p[1]);
        }
    }
}

proof fn lemma_no_first(s: Seq<char>, p: Seq<char>)
    requires
        p.len() > 0,
        forall|i: int| 0 <= i < s.len() ==> s[i] != p[0],
    ensures
        !contains(s, p),
{
    assert forall|i: int| !occurs_at(s, p, i) by {
        if occurs_at(s, p, i) {
            assert(s.subrange(i, i + p.len())[0] == p[0]);
        }
    }
}

/// Stores are drawn with their own shapes: a `SystemDb`, `ContainerDb` or
/// `ComponentDb` macro (and their `_Ext` forms) becomes a `database`, a
/// `SystemQueue`, `ContainerQueue` or `ComponentQueue` (and
/// `SystemQueue_Ext`) a `queue`; a plain `System` or `System_Ext` becomes a
/// `rectangle` and a plain `Container` or `Component` (and their `_Ext`
/// forms) a `component`. The case of the macro name does not matter.
pub proof fn law_stores_keep_their_shape(call: CallView)
    requires
        call.args.len() > 0,
    ensures
        ({
            let lower = ascii_lower(call.name);
            lower == "systemdb"@ || lower == "systemdb_ext"@ || lower == "containerdb"@ || lower
                == "containerdb_ext"@ || lower == "componentdb"@
        }) ==> (spec_expand(call) is Some && starts_with(spec_expand(call)->0, "database \""@)),
        ({
            let lower = ascii_lower(call.name);
            lower == "systemqueue"@ || lower == "systemqueue_ext"@ || lower == "containerqueue"@
                || lower == "componentqueue"@
        }) ==> (spec_expand(call) is Some && starts_with(spec_expand(call)->0, "queue \""@)),
        ({
            let lower = ascii_lower(call.name);
            lower == "system"@ || lower == "system_ext"@
        }) ==> (spec_expand(call) is Some && starts_with(spec_expand(call)->0, "rectangle \""@)),
        ({
            let lower = ascii_lower(call.name);
            lower == "container"@ || lower == "container_ext"@ || lower == "component"@ || lower
                == "component_ext"@
        }) ==> (spec_expand(call) is Some && starts_with(spec_expand(call)->0, "component \""@)),
{
    let lower = ascii_lower(call.name);
    reveal_strlit("person");
    reveal_strlit("person_ext");
    reveal_strlit("system");
    reveal_strlit("system_ext");
    reveal_strlit("systemdb");
    reveal_strlit("systemdb_ext");
    reveal_strlit("systemqueue");
    reveal_strlit("systemqueue_ext");
    reveal_strlit("container");
    reveal_strlit("container_ext");
    reveal_strlit("containerdb");
    reveal_strlit("containerdb_ext");
    reveal_strlit("containerqueue");
    reveal_strlit("component");
    reveal_strlit("component_ext");
    reveal_strlit("componentdb");
    reveal_strlit("componentqueue");
    reveal_strlit("db");
    reveal_strlit("queue");
    reveal_strlit("database");
    reveal_strlit("rectangle");
    reveal_strlit(" \"");
    // Which family a name falls in.
    assert("person"@.len() == 6 && "person_ext"@.len() == 10);
    assert("system"@.len() == 6 && "system_ext"@.len() == 10 && "systemdb"@.len() == 8);
    assert("systemdb_ext"@.len() == 12 && "systemqueue"@.len() == 11 && "systemqueue_ext"@.len() == 15);
    assert("container"@.len() == 9 && "container_ext"@.len() == 13 && "containerdb"@.len() == 11);
    assert("containerdb_ext"@.len() == 15 && "containerqueue"@.len() == 14);
    assert("component"@.len() == 9 && "component_ext"@.len() == 13 && "componentdb"@.len() == 11);
    assert("componentqueue"@.len() == 14);
    if is_system(lower) || is_container(lower) || is_component(lower) {
        assert(lower[0] != 'p');
        assert(!is_person(lower)) by {
            assert("person"@[0] == 'p' && "person_ext"@[0] == 'p');
        }
    }
    if is_container(lower) || is_component(lower) {
        assert(lower[0] == 'c');
        assert(!is_system(lower)) by {
            assert("system"@[0] == 's' && "system_ext"@[0] == 's' && "systemdb"@[0] == 's');
            assert("systemdb_ext"@[0] == 's' && "systemqueue"@[0] == 's' && "systemqueue_ext"@[0] == 's');
        }
    }
    if is_component(lower) {
        assert(lower[2] == 'm');
        assert(!is_container(lower)) by {
            assert("container"@[2] == 'n' && "container_ext"@[2] == 'n' && "containerdb"@[2] == 'n');
            assert("containerdb_ext"@[2] == 'n' && "containerqueue"@[2] == 'n');
        }
    }
    // Which of them name a database or a queue.
    if lower == "systemdb"@ || lower == "systemdb_ext"@ || lower == "containerdb"@ || lower
        == "containerdb_ext"@ || lower == "componentdb"@ {
        let i = lower.len() - 2;
        let i = if lower == "systemdb_ext"@ || lower == "containerdb_ext"@ { i - 4 } else { i };
        assert(lower.subrange(i, i + 2) =~= "db"@);
        assert(occurs_at(lower, "db"@, i));
    }
    if lower == "systemqueue"@ || lower == "systemqueue_ext"@ || lower == "containerqueue"@
        || lower == "componentqueue"@ {
        lemma_no_pair(lower, "db"@);
        let i = if lower == "containerqueue"@ || lower == "componentqueue"@ { 9 } else { 6int };
        assert(lower.subrange(i, i + 5) =~= "queue"@);
        assert(occurs_at(lower, "queue"@, i));
    }
    if lower == "system"@ || lower == "system_ext"@ || lower == "container"@ || lower
        == "container_ext"@ || lower == "component"@ || lower == "component_ext"@ {
        lemma_no_pair(lower, "db"@);
        lemma_no_first(lower, "queue"@);
    }
    let args = call.args;
    reveal_strlit("database \"");
    reveal_strlit("queue \"");
    reveal_strlit("rectangle \"");
    reveal_strlit("component \"");
    assert("database \""@ =~= "database"@ + " \""@);
    assert("queue \""@ =~= "queue"@ + " \""@);
    assert("rectangle \""@ =~= "rectangle"@ + " \""@);
    assert("component \""@ =~= "component"@ + " \""@);
    let label = arg_or(args, 1, args[0]);
    let tail = tail_of(call.block);
    let kw = store_keyword(lower, if is_system(lower) { "rectangle"@ } else { "component"@ });
    if is_system(lower) {
        lemma_element_line_starts(kw, label, args[0], if contains(lower, "ext"@) { "system external"@ } else { "system"@ }, tail);
    } else if is_container(lower) {
        lemma_element_line_starts(kw, label, args[0], tech_stereo("container"@, arg_or(args, 2, seq![]), lower), tail);
    } else if is_component(lower) {
        lemma_element_line_starts(kw, label, args[0], tech_stereo("component"@, arg_or(args, 2, seq![]), lower), tail);
    }
}

proof fn lemma_element_line_starts(kw: Seq<char>, label: Seq<char>, alias: Seq<char>, stereo: Seq<char>, tail: Seq<char>)
    ensures
        starts_with(element_line(kw, label, alias, stereo, tail), kw + " \""@),
{
    let p = kw + " \""@;
    let l = element_line(kw, label, alias, stereo, tail);
    assert(l =~= p + (label + "\" as "@ + alias + " <<"@ + stereo + ">>"@ + tail));
    assert(l.take(p.len() as int) =~= p);
}

} // verus!
