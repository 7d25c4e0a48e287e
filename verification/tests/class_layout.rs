use puml::ast::class::Boundary;
use puml::layout::boundary::boundary_depths;
use puml::ast::class::{
    ClassDiagram, ClassKind, ClassNode, Member, Relation, RelationKind, Visibility,
};
use puml::layout::class::{
    assign_ranks, break_ranking_cycles, build_member_sections, display_name, member_text,
    uses_source_to_target_dependency_ranks,
};

fn class(name: &str) -> ClassNode {
    ClassNode {
        name: name.to_string(),
        alias: None,
        generics: None,
        kind: ClassKind::Class,
        stereotype: None,
        color: None,
        members: Vec::new(),
        namespace: None,
    }
}

fn relation(from: &str, to: &str, kind: RelationKind) -> Relation {
    Relation {
        from: from.to_string(),
        to: to.to_string(),
        kind,
        from_label: None,
        to_label: None,
        label: None,
        reversed: false,
    }
}

fn dependency(from: &str, to: &str) -> Relation {
    relation(from, to, RelationKind::Dependency)
}

fn member(vis: Visibility, name: &str, ty: Option<&str>, method: bool, params: Option<&str>) -> Member {
    Member {
        visibility: vis,
        name: name.to_string(),
        type_annotation: ty.map(|t| t.to_string()),
        is_static: false,
        is_abstract: false,
        is_method: method,
        params: params.map(|p| p.to_string()),
    }
}

#[test]
fn c4_dependency_cycles_keep_forward_ranks() {
    let diagram = ClassDiagram {
        classes: vec![
            class("customer"),
            class("spa"),
            class("sign_in"),
            class("security"),
            class("db"),
        ],
        relations: vec![
            dependency("customer", "spa"),
            dependency("spa", "sign_in"),
            dependency("sign_in", "security"),
            dependency("security", "db"),
            dependency("security", "sign_in"),
            dependency("sign_in", "spa"),
        ],
        c4_mode: true,
        ..ClassDiagram::default()
    };

    // Ranks come in class order: customer, spa, sign_in, security, db.
    let ranks = assign_ranks(&diagram);
    assert_eq!(ranks[0], 0);
    assert_eq!(ranks[1], 1);
    assert_eq!(ranks[2], 2);
    assert_eq!(ranks[3], 3);
    assert_eq!(ranks[4], 4);
}

#[test]
fn inheritance_puts_the_parent_above() {
    let diagram = ClassDiagram {
        classes: vec![class("Dog"), class("Animal"), class("Puppy")],
        relations: vec![
            relation("Dog", "Animal", RelationKind::Extension),
            relation("Puppy", "Dog", RelationKind::Extension),
        ],
        ..ClassDiagram::default()
    };
    assert_eq!(assign_ranks(&diagram), vec![1, 0, 2]);
}

#[test]
fn composition_and_association_do_not_rank() {
    let diagram = ClassDiagram {
        classes: vec![class("A"), class("B"), class("C")],
        relations: vec![
            relation("A", "B", RelationKind::Composition),
            relation("B", "C", RelationKind::Association),
        ],
        ..ClassDiagram::default()
    };
    assert_eq!(assign_ranks(&diagram), vec![0, 0, 0]);
}

#[test]
fn uml_dependency_puts_the_target_above() {
    let diagram = ClassDiagram {
        classes: vec![class("Client"), class("Service")],
        relations: vec![dependency("Client", "Service")],
        ..ClassDiagram::default()
    };
    assert_eq!(assign_ranks(&diagram), vec![1, 0]);
}

#[test]
fn deployment_dependency_puts_the_source_above() {
    let mut node = class("web");
    node.kind = ClassKind::Node;
    let diagram = ClassDiagram {
        classes: vec![node, class("db")],
        relations: vec![dependency("web", "db")],
        ..ClassDiagram::default()
    };
    assert!(uses_source_to_target_dependency_ranks(&diagram));
    assert_eq!(assign_ranks(&diagram), vec![0, 1]);
}

#[test]
fn relations_may_use_aliases() {
    let mut a = class("Long Name");
    a.alias = Some("L".to_string());
    let diagram = ClassDiagram {
        classes: vec![a, class("Base")],
        relations: vec![relation("L", "Base", RelationKind::Implementation)],
        ..ClassDiagram::default()
    };
    assert_eq!(assign_ranks(&diagram), vec![1, 0]);
}

#[test]
fn unknown_ends_and_self_relations_are_ignored() {
    let diagram = ClassDiagram {
        classes: vec![class("A"), class("B")],
        relations: vec![
            relation("A", "Missing", RelationKind::Extension),
            relation("A", "A", RelationKind::Extension),
        ],
        ..ClassDiagram::default()
    };
    assert_eq!(assign_ranks(&diagram), vec![0, 0]);
}

#[test]
fn longest_chain_decides_the_rank() {
    // A above B above C, and A directly above C: C sits two rows down.
    let diagram = ClassDiagram {
        classes: vec![class("A"), class("B"), class("C")],
        relations: vec![
            relation("B", "A", RelationKind::Extension),
            relation("C", "B", RelationKind::Extension),
            relation("C", "A", RelationKind::Extension),
        ],
        ..ClassDiagram::default()
    };
    assert_eq!(assign_ranks(&diagram), vec![0, 1, 2]);
}

#[test]
fn cycle_breaking_drops_the_closing_edge_and_sorts() {
    let kept = break_ranking_cycles(3, &[(2, 0), (0, 1), (1, 2), (0, 1), (1, 1)]);
    assert_eq!(kept, vec![(0, 1), (2, 0)]);
}

#[test]
fn cycle_breaking_keeps_a_dag() {
    let kept = break_ranking_cycles(4, &[(3, 1), (0, 1), (0, 2), (1, 3)]);
    // (1, 3) would close 3 -> 1 -> 3.
    assert_eq!(kept, vec![(0, 1), (0, 2), (3, 1)]);
}

#[test]
fn plain_classes_do_not_flip_dependencies() {
    let diagram = ClassDiagram {
        classes: vec![class("A")],
        ..ClassDiagram::default()
    };
    assert!(!uses_source_to_target_dependency_ranks(&diagram));
    let c4 = ClassDiagram {
        c4_mode: true,
        ..ClassDiagram::default()
    };
    assert!(uses_source_to_target_dependency_ranks(&c4));
}

#[test]
fn member_text_forms() {
    assert_eq!(
        member_text(&member(Visibility::Public, "name", Some("String"), false, None)),
        "+name: String"
    );
    assert_eq!(
        member_text(&member(Visibility::Private, "run", None, true, Some("(x: i32)"))),
        "-run(x: i32)"
    );
    assert_eq!(
        member_text(&member(Visibility::Protected, "f", Some("int"), true, None)),
        "#f: int"
    );
    assert_eq!(
        member_text(&member(Visibility::Package, "p", None, false, Some("()"))),
        "~p"
    );
    assert_eq!(
        member_text(&member(Visibility::Unmarked, "q", None, false, None)),
        "q"
    );
}

#[test]
fn display_name_shows_generics() {
    let mut c = class("List");
    assert_eq!(display_name(&c), "List");
    c.generics = Some("T".to_string());
    assert_eq!(display_name(&c), "List<T>");
}

#[test]
fn member_sections_hold_every_member_in_one_block() {
    let mut c = class("A");
    assert_eq!(build_member_sections(&c).len(), 1);
    assert!(build_member_sections(&c)[0].members.is_empty());
    let mut m = member(Visibility::Public, "x", Some("int"), false, None);
    m.is_static = true;
    c.members.push(m);
    c.members.push(member(Visibility::Private, "y", None, true, Some("()")));
    let sections = build_member_sections(&c);
    assert_eq!(sections.len(), 1);
    assert!(!sections[0].separator);
    assert_eq!(sections[0].members.len(), 2);
    assert_eq!(sections[0].members[0].text, "+x: int");
    assert!(sections[0].members[0].is_static);
    assert_eq!(sections[0].members[1].text, "-y()");
    assert!(!sections[0].members[1].is_abstract);
}

#[test]
fn boundary_depth_counts_nested_boundaries() {
    let b = |alias: &str, members: &[&str]| Boundary {
        alias: alias.to_string(),
        label: alias.to_string(),
        kind: String::new(),
        members: members.iter().map(|m| m.to_string()).collect(),
    };
    let names: Vec<String> = ["web", "db", "cache"].iter().map(|s| s.to_string()).collect();
    let bs = vec![
        b("aws", &["web", "db", "cache"]),
        b("ec2", &["web", "db"]),
        b("node", &["web", "db"]),
        b("ghost", &["nothing"]),
    ];
    let d = boundary_depths(&bs, &names);
    // aws holds ec2 and node; ec2 holds node (same members, declared later);
    // node holds nothing; ghost names no node.
    assert_eq!(d, vec![Some(2), Some(1), Some(0), None]);
}
