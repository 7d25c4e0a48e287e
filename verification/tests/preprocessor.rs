use puml::parser::preprocessor::{
    expand_defines, is_end_marker, parse_start_marker, preprocess, preprocess_with_includes,
    split_diagrams, strip_comments, DiagramSource,
};

fn resolve_plain(dir: Option<String>, path: String) -> (String, Option<String>) {
    match dir {
        Some(d) => (format!("{}/{}", d, path), Some(d)),
        None => (path, None),
    }
}

fn read_nothing(_path: String) -> Option<String> {
    None
}

fn run(src: &str) -> Vec<DiagramSource> {
    preprocess(src, None, &resolve_plain, &read_nothing)
}

#[test]
fn strips_line_comments() {
    let src = "Alice -> Bob ' this is a comment\nBob -> Alice\n";
    let result = strip_comments(src);
    assert!(result.contains("Alice -> Bob"));
    assert!(!result.contains("this is a comment"));
}

#[test]
fn strips_block_comments() {
    let src = "Alice /' block comment '/ -> Bob\n";
    let result = strip_comments(src);
    assert!(result.contains("Alice"));
    assert!(result.contains("-> Bob"));
    assert!(!result.contains("block comment"));
}

#[test]
fn splits_on_markers() {
    let src = "@startuml\nAlice -> Bob\n@enduml\n@startuml\nBob -> Carol\n@enduml\n";
    let diagrams = run(src);
    assert_eq!(diagrams.len(), 2);
}

#[test]
fn bare_source_treated_as_single_diagram() {
    let src = "Alice -> Bob\n";
    let diagrams = run(src);
    assert_eq!(diagrams.len(), 1);
    assert!(diagrams[0].content.contains("Alice -> Bob"));
}

#[test]
fn type_hint_parsed() {
    let src = "@startuml(sequence)\nAlice -> Bob\n@enduml\n";
    let diagrams = run(src);
    assert_eq!(diagrams[0].type_hint.as_deref(), Some("sequence"));
}

#[test]
fn comment_removal_keeps_line_breaks() {
    let src = "a ' one\n/' two\nthree '/ b\nc\n";
    let out = strip_comments(src);
    assert_eq!(out, "a \n\n b\nc\n");
    assert_eq!(out.matches('\n').count(), src.matches('\n').count());
}

#[test]
fn apostrophe_inside_a_word_is_kept() {
    assert_eq!(strip_comments("[Design]'s task\n"), "[Design]'s task\n");
}

#[test]
fn unterminated_block_comment_runs_to_the_end() {
    assert_eq!(strip_comments("x /' a\nb"), "x \n");
}

#[test]
fn start_markers_name_their_type() {
    assert_eq!(parse_start_marker("@startuml"), Some((None, true)));
    assert_eq!(
        parse_start_marker("@startuml( class )"),
        Some((Some("class".to_string()), true))
    );
    assert_eq!(
        parse_start_marker("@startgantt"),
        Some((Some("gantt".to_string()), true))
    );
    assert_eq!(
        parse_start_marker("@startmindmap"),
        Some((Some("mindmap".to_string()), true))
    );
    assert_eq!(parse_start_marker("Alice -> Bob"), None);
}

#[test]
fn end_markers_match_exactly() {
    assert!(is_end_marker("@enduml"));
    assert!(is_end_marker("@endgantt"));
    assert!(!is_end_marker("@enduml2"));
    assert!(!is_end_marker(" @enduml"));
}

#[test]
fn unclosed_block_is_dropped() {
    let d = split_diagrams("@startuml\na\n@enduml\n@startuml\nb\n");
    assert_eq!(d.len(), 1);
    assert_eq!(d[0].content, "a\n");
}

#[test]
fn text_outside_blocks_is_ignored_once_a_marker_is_seen() {
    let d = split_diagrams("x\n@startuml\na\n@enduml\ny\n");
    assert_eq!(d.len(), 1);
    assert_eq!(d[0].content, "a\n");
}

#[test]
fn only_end_markers_give_no_block() {
    assert_eq!(split_diagrams("@enduml\n").len(), 0);
    assert_eq!(split_diagrams("").len(), 0);
}

#[test]
fn defines_are_substituted() {
    let out = expand_defines("!define HOST server\nHOST -> HOST2\n");
    assert_eq!(out, "server -> server2\n");
}

#[test]
fn redefinition_replaces_the_text() {
    let out = expand_defines("!define A x\n!define A y\nA\n");
    assert_eq!(out, "y\n");
}

#[test]
fn define_without_text_erases_the_name() {
    assert_eq!(expand_defines("!define GONE\na GONE b\n"), "a  b\n");
}

#[test]
fn theme_becomes_a_skin_parameter() {
    assert_eq!(expand_defines("!theme  dark \n"), "skinparam theme dark\n");
}

#[test]
fn other_directives_pass_unchanged() {
    assert_eq!(expand_defines("  !pragma x\n"), "  !pragma x\n");
}

#[test]
fn file_includes_are_spliced_once() {
    let read = |path: String| -> Option<String> {
        if path == "dir/part.puml" {
            Some("Bob -> Carol\n!include part.puml\n".to_string())
        } else {
            None
        }
    };
    let src = "@startuml\nAlice -> Bob\n!include part.puml\n@enduml\n";
    let (diagrams, files) = preprocess_with_includes(src, Some("dir"), &resolve_plain, &read);
    assert_eq!(diagrams.len(), 1);
    assert_eq!(diagrams[0].content, "Alice -> Bob\nBob -> Carol\n");
    assert_eq!(files, vec!["dir/part.puml".to_string()]);
}

#[test]
fn unreadable_include_expands_to_nothing() {
    let src = "!include \"missing.puml\"\nAlice -> Bob\n";
    let (diagrams, files) = preprocess_with_includes(src, None, &resolve_plain, &read_nothing);
    assert_eq!(diagrams.len(), 1);
    assert_eq!(diagrams[0].content, "Alice -> Bob\n");
    assert_eq!(files, vec!["missing.puml".to_string()]);
}

#[test]
fn library_includes_are_kept_for_later_passes() {
    let src = "!include <office/Servers/server>\nAlice -> Bob\n";
    let (diagrams, files) = preprocess_with_includes(src, None, &resolve_plain, &read_nothing);
    assert!(files.is_empty());
    assert_eq!(
        diagrams[0].content,
        "!include <office/Servers/server>\nAlice -> Bob\n"
    );
}

#[test]
fn included_file_is_spliced_in_place() {
    let read = |path: String| -> Option<String> {
        if path == "d/foo.puml" {
            Some("X -> Y\n".to_string())
        } else {
            None
        }
    };
    let (diagrams, files) =
        preprocess_with_includes("!include foo.puml\nA -> B\n", Some("d"), &resolve_plain, &read);
    assert_eq!(diagrams.len(), 1);
    assert_eq!(diagrams[0].content, "X -> Y\nA -> B\n");
    assert_eq!(diagrams[0].type_hint, None);
    assert_eq!(files, vec!["d/foo.puml".to_string()]);
}

#[test]
fn files_that_include_each_other_are_spliced_once_each() {
    let read = |path: String| -> Option<String> {
        match path.as_str() {
            "a.puml" => Some("A1\n!include b.puml\n".to_string()),
            "b.puml" => Some("B1\n!include a.puml\n!include b.puml\n".to_string()),
            _ => None,
        }
    };
    let (diagrams, files) =
        preprocess_with_includes("!include a.puml\n!include b.puml\nEnd\n", None, &resolve_plain, &read);
    assert_eq!(diagrams[0].content, "A1\nB1\nEnd\n");
    assert_eq!(files, vec!["a.puml".to_string(), "b.puml".to_string()]);
}

#[test]
fn unknown_directives_are_reported_trimmed() {
    let w = puml::parser::preprocessor::unknown_directives(
        "!define A b\n  !pragma layout smetana \n!theme dark\nA -> B\n!foo\n",
    );
    assert_eq!(w, vec!["!pragma layout smetana".to_string(), "!foo".to_string()]);
}
