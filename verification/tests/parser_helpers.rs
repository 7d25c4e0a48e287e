use puml::ast::activity::ActivityElement;
use puml::ast::class::{ClassKind, ClassNode, RelationKind};
use puml::ast::gantt::GanttTask;
use puml::ast::sequence::ArrowStyle;
use puml::ast::state::{StateDiagram, StateKind, StateNode, Transition};
use puml::ast::usecase::{NodeKind, UseCaseNode};
use puml::parser::activity::{extract_title, is_title_marker};
use puml::parser::class::{ensure_class, parse_arrow, unquote as class_unquote};
use puml::parser::detect_type;
use puml::parser::gantt::{task_name, update_task};
use puml::parser::sequence::{parse_arrow_style, unquote as sequence_unquote};
use puml::parser::state::{
    ensure_state_by_name, ensure_state_node, ensure_states, kind_of_lowercase_stereotype,
    stereotype_to_kind,
};
use puml::parser::usecase::{ensure_inferred, ensure_node, strip_delims};

#[test]
fn class_arrows() {
    assert_eq!(parse_arrow("--|>"), (RelationKind::Extension, false));
    assert_eq!(parse_arrow("<|-"), (RelationKind::Extension, true));
    assert_eq!(parse_arrow(".|>"), (RelationKind::Implementation, false));
    assert_eq!(parse_arrow("<|.."), (RelationKind::Implementation, true));
    assert_eq!(parse_arrow("-*"), (RelationKind::Composition, false));
    assert_eq!(parse_arrow("*--"), (RelationKind::Composition, true));
    assert_eq!(parse_arrow("--o"), (RelationKind::Aggregation, false));
    assert_eq!(parse_arrow("o-"), (RelationKind::Aggregation, true));
    assert_eq!(parse_arrow("->"), (RelationKind::Dependency, false));
    assert_eq!(parse_arrow("<--"), (RelationKind::Dependency, true));
    assert_eq!(parse_arrow("..>"), (RelationKind::DashedLink, false));
    assert_eq!(parse_arrow("<."), (RelationKind::DashedLink, true));
    assert_eq!(parse_arrow(".."), (RelationKind::DashedLink, false));
    assert_eq!(parse_arrow("--"), (RelationKind::Association, false));
    assert_eq!(parse_arrow("~~"), (RelationKind::Association, false));
}

#[test]
fn class_unquote_trims_and_strips_quotes() {
    assert_eq!(class_unquote("  \"Long Name\" "), "Long Name");
    assert_eq!(class_unquote(" plain "), "plain");
    assert_eq!(class_unquote("\"\""), "");
}

#[test]
fn ensure_class_adds_only_missing_classes() {
    let mut classes: Vec<ClassNode> = Vec::new();
    ensure_class(&mut classes, "A");
    ensure_class(&mut classes, "B");
    ensure_class(&mut classes, "A");
    assert_eq!(classes.len(), 2);
    assert_eq!(classes[0].name, "A");
    assert_eq!(classes[1].kind, ClassKind::Class);
    assert!(classes[1].alias.is_none());
    assert!(classes[1].members.is_empty());
}

#[test]
fn sequence_arrow_styles() {
    assert_eq!(parse_arrow_style("->"), (ArrowStyle::Solid, false));
    assert_eq!(parse_arrow_style("-->"), (ArrowStyle::Dashed, false));
    assert_eq!(parse_arrow_style("<--"), (ArrowStyle::Dashed, true));
    assert_eq!(parse_arrow_style("-->>"), (ArrowStyle::Dashed, false));
    assert_eq!(parse_arrow_style("<<--"), (ArrowStyle::Dashed, true));
    assert_eq!(parse_arrow_style("->>"), (ArrowStyle::SolidThick, false));
    assert_eq!(parse_arrow_style("<<-"), (ArrowStyle::SolidThick, true));
    assert_eq!(parse_arrow_style("->x"), (ArrowStyle::Lost, false));
    assert_eq!(parse_arrow_style("<->"), (ArrowStyle::Solid, false));
    assert_eq!(parse_arrow_style("<-"), (ArrowStyle::Solid, true));
}

#[test]
fn sequence_unquote_does_not_trim() {
    assert_eq!(sequence_unquote("\"Bob\""), "Bob");
    assert_eq!(sequence_unquote(" \"Bob\""), " \"Bob\"");
}

#[test]
fn stereotypes_ignore_case() {
    assert_eq!(stereotype_to_kind("choice"), Some(StateKind::Choice));
    assert_eq!(stereotype_to_kind("FORK"), Some(StateKind::Fork));
    assert_eq!(stereotype_to_kind("Join"), Some(StateKind::Join));
    assert_eq!(stereotype_to_kind("history"), None);
    assert_eq!(kind_of_lowercase_stereotype("choice"), Some(StateKind::Choice));
    assert_eq!(kind_of_lowercase_stereotype("CHOICE"), None);
}

#[test]
fn implicit_states() {
    let mut states: Vec<StateNode> = Vec::new();
    ensure_state_by_name(&mut states, "[*]");
    ensure_state_by_name(&mut states, "Idle");
    ensure_state_by_name(&mut states, "[*]");
    assert_eq!(states.len(), 2);
    assert_eq!(states[0].kind, StateKind::Start);
    assert_eq!(states[1].kind, StateKind::Normal);
}

#[test]
fn transitions_bring_their_states() {
    let mut d = StateDiagram::default();
    let t = Transition {
        from: "A".to_string(),
        to: "B".to_string(),
        label: None,
    };
    ensure_states(&mut d, &t);
    ensure_states(&mut d, &t);
    assert_eq!(d.states.len(), 2);
    assert_eq!(d.states[0].name, "A");
    assert_eq!(d.states[1].name, "B");
}

#[test]
fn declared_state_merges_into_implicit_one() {
    let mut states: Vec<StateNode> = Vec::new();
    ensure_state_by_name(&mut states, "Busy");
    let declared = StateNode {
        name: "Busy".to_string(),
        label: Some("Working".to_string()),
        kind: StateKind::Choice,
        body: Vec::new(),
    };
    ensure_state_node(&mut states, declared);
    assert_eq!(states.len(), 1);
    assert_eq!(states[0].label.as_deref(), Some("Working"));
    assert_eq!(states[0].kind, StateKind::Normal);
    let other = StateNode {
        name: "Other".to_string(),
        label: None,
        kind: StateKind::Fork,
        body: Vec::new(),
    };
    ensure_state_node(&mut states, other);
    assert_eq!(states.len(), 2);
    assert_eq!(states[1].kind, StateKind::Fork);
}

#[test]
fn delimiters_are_stripped() {
    assert_eq!(strip_delims(" ( Login ) ", '(', ')'), "Login");
    assert_eq!(strip_delims(":User:", ':', ':'), "User");
    assert_eq!(strip_delims("plain", '(', ')'), "plain");
}

fn node(name: &str, label: Option<&str>) -> UseCaseNode {
    UseCaseNode {
        name: name.to_string(),
        label: label.map(|l| l.to_string()),
        kind: NodeKind::UseCase,
        stereotype: None,
    }
}

#[test]
fn use_case_nodes_merge() {
    let mut nodes = vec![node("Login", None)];
    ensure_node(&mut nodes, node("Login", Some("Log in")));
    assert_eq!(nodes.len(), 1);
    assert_eq!(nodes[0].label.as_deref(), Some("Log in"));
    ensure_node(&mut nodes, node("Login", Some("Other")));
    assert_eq!(nodes[0].label.as_deref(), Some("Log in"));
    ensure_node(&mut nodes, node("Pay", None));
    assert_eq!(nodes.len(), 2);
}

#[test]
fn inferred_nodes_are_added_once() {
    let mut nodes: Vec<UseCaseNode> = Vec::new();
    ensure_inferred(&mut nodes, "User", NodeKind::Actor);
    ensure_inferred(&mut nodes, "User", NodeKind::UseCase);
    ensure_inferred(&mut nodes, "", NodeKind::Actor);
    assert_eq!(nodes.len(), 1);
    assert_eq!(nodes[0].kind, NodeKind::Actor);
}

#[test]
fn title_markers() {
    assert!(is_title_marker(&ActivityElement::Label("__title__Flow".to_string())));
    assert!(!is_title_marker(&ActivityElement::Label("Flow".to_string())));
    assert!(!is_title_marker(&ActivityElement::Start));
    assert_eq!(extract_title(&ActivityElement::Start), None);
}

#[test]
fn task_names_lose_their_brackets() {
    assert_eq!(task_name(" [Design] "), "Design");
    assert_eq!(task_name("[ Build it ]"), "Build it");
    assert_eq!(task_name("Plain"), "Plain");
}

#[test]
fn update_task_creates_or_edits() {
    let mut tasks: Vec<GanttTask> = Vec::new();
    update_task(&mut tasks, "Design", |mut t| {
        t.duration = 5;
        t
    });
    update_task(&mut tasks, "Design", |mut t| {
        t.milestone = true;
        t
    });
    update_task(&mut tasks, "Build", |t| t);
    assert_eq!(tasks.len(), 2);
    assert_eq!(tasks[0].duration, 5);
    assert!(tasks[0].milestone);
    assert_eq!(tasks[1].duration, 1);
}

#[test]
fn diagram_type_is_guessed_from_the_first_telling_line() {
    assert_eq!(detect_type("title x\nAlice -> Bob\n"), "sequence");
    assert_eq!(detect_type("class Foo\n"), "class");
    assert_eq!(detect_type("Dog --|> Animal\n"), "class");
    assert_eq!(detect_type("start\n:step;\n"), "activity");
    assert_eq!(detect_type("  :step;\n"), "activity");
    assert_eq!(detect_type("state Idle\n"), "state");
    assert_eq!(detect_type("[*] --> Idle\n"), "sequence");
    assert_eq!(detect_type("nothing here\n"), "sequence");
    assert_eq!(detect_type(""), "sequence");
}
