use puml::parser::c4::{is_c4_source, translate};


#[test]
fn passes_through_when_no_c4_include() {
    let src = "@startuml\nclass Foo\n@enduml\n";
    assert_eq!(translate(src), src);
}

#[test]
fn detects_angle_bracket_include() {
    assert!(is_c4_source("!include <C4/Container>"));
    assert!(is_c4_source("!include <C4/Context>"));
}

#[test]
fn person_macro_expands_to_class_with_stereotype() {
    let src = "!include <C4/Container>\nPerson(customer, \"Customer\", \"Buys things\")\n";
    let out = translate(src);
    assert!(out.contains("class \"Customer\" as customer <<person>>"));
    // include line removed
    assert!(!out.contains("!include"));
}

#[test]
fn rel_macro_expands_with_label_and_tech() {
    let src = "!include <C4/Container>\nRel(a, b, \"uses\", \"HTTPS\")\n";
    let out = translate(src);
    assert!(out.contains("a --> b : uses [HTTPS]"));
}

#[test]
fn birel_emits_bidirectional_arrow() {
    let src = "!include <C4/Container>\nBiRel(a, b, \"sync\")\n";
    let out = translate(src);
    assert!(out.contains("a <--> b : sync"));
}

#[test]
fn container_with_tech_carries_into_stereotype() {
    let src = "!include <C4/Container>\nContainer(api, \"API\", \"Go\", \"REST\")\n";
    let out = translate(src);
    assert!(
        out.contains("<<container: Go>>"),
        "expected stereotype with tech, got: {out}"
    );
}

#[test]
fn quoted_string_with_comma_keeps_arg_intact() {
    // C4 labels often contain commas inside quoted strings.
    let src = "!include <C4/Container>\nSystem(s, \"Big, Important System\")\n";
    let out = translate(src);
    assert!(out.contains("\"Big, Important System\""), "got: {out}");
}

#[test]
fn layout_calls_are_dropped() {
    let src = "!include <C4/Container>\nLAYOUT_TOP_DOWN()\nPerson(a, \"A\")\n";
    let out = translate(src);
    assert!(!out.contains("LAYOUT_"));
}

#[test]
fn lay_and_styling_macros_are_dropped() {
    let src = "!include <C4/Context>\nLay_R(a, b)\nUpdateElementStyle(person, $bgColor=\"red\")\nAddElementTag(\"thing\", $bgColor=\"blue\")\n";
    let out = translate(src);
    assert!(!out.contains("Lay_"), "got: {out}");
    assert!(!out.contains("UpdateElementStyle"), "got: {out}");
    assert!(!out.contains("AddElementTag"), "got: {out}");
}

#[test]
fn deployment_node_emits_node_shape() {
    let src = "!include <C4/Deployment>\nDeployment_Node(server, \"Web Server\", \"Linux\")\n";
    let out = translate(src);
    assert!(
        out.contains("node \"Web Server\" as server <<deployment node: Linux>>"),
        "got: {out}"
    );
}

#[test]
fn container_instance_carries_target_alias() {
    let src = "!include <C4/Deployment>\nContainerInstance(api1, api)\n";
    let out = translate(src);
    assert!(
        out.contains("component \"api\" as api1 <<container instance: api>>"),
        "got: {out}"
    );
}

#[test]
fn rel_index_prepends_step_number() {
    let src = "!include <C4/Dynamic>\nRelIndex(1, a, b, \"requests\")\n";
    let out = translate(src);
    assert!(out.contains("a --> b : (1) requests"), "got: {out}");
}

#[test]
fn rel_back_emits_reverse_arrow() {
    let src = "!include <C4/Container>\nRel_Back(a, b, \"observed by\")\n";
    let out = translate(src);
    assert!(out.contains("a <-- b : observed by"), "got: {out}");
}

#[test]
fn directional_rel_variants_translate_to_normal_arrow() {
    let src = "!include <C4/Container>\nRel_R(a, b, \"calls\")\nRel_U(c, d, \"reads\")\n";
    let out = translate(src);
    assert!(out.contains("a --> b : calls"), "got: {out}");
    assert!(out.contains("c --> d : reads"), "got: {out}");
}
