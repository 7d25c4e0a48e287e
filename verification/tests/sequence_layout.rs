use puml::layout::sequence::numbered_label;
use puml::ast::sequence::{
    ArrowStyle, Divider, GroupBlock, Message, Participant, ParticipantKind, SequenceDiagram,
    SequenceElement,
};
use puml::layout::sequence::{collect_messages, find_participant, participant_display};

fn participant(name: &str, alias: Option<&str>) -> Participant {
    Participant {
        name: name.to_string(),
        alias: alias.map(|a| a.to_string()),
        kind: ParticipantKind::Participant,
        color: None,
    }
}

fn message(from: &str, to: &str, label: &str) -> Message {
    Message {
        from: from.to_string(),
        to: to.to_string(),
        label: label.to_string(),
        arrow: ArrowStyle::Solid,
        activate: false,
        deactivate: false,
        return_msg: false,
    }
}

#[test]
fn display_prefers_the_name() {
    assert_eq!(participant_display(&participant("Alice", Some("A"))), "Alice");
    assert_eq!(participant_display(&participant("", Some("A"))), "A");
    assert_eq!(participant_display(&participant("", None)), "");
}

#[test]
fn participants_are_found_by_alias_or_name() {
    let a = participant("Long Alice", Some("A"));
    let b = participant("Bob", None);
    let ps = vec![&a, &b];
    assert_eq!(find_participant(&ps, "A"), Some(0));
    assert_eq!(find_participant(&ps, "Long Alice"), Some(0));
    assert_eq!(find_participant(&ps, "Bob"), Some(1));
    assert_eq!(find_participant(&ps, "Carol"), None);
}

#[test]
fn messages_inside_groups_are_collected_in_order() {
    let elements = vec![
        SequenceElement::Message(message("A", "B", "one")),
        SequenceElement::Divider(Divider {
            label: "x".to_string(),
        }),
        SequenceElement::Group(GroupBlock {
            kind: "alt".to_string(),
            label: "ok".to_string(),
            sections: vec![
                (None, vec![SequenceElement::Message(message("B", "A", "two"))]),
                (
                    Some("else".to_string()),
                    vec![
                        SequenceElement::Activate("A".to_string()),
                        SequenceElement::Message(message("B", "C", "three")),
                    ],
                ),
            ],
        }),
        SequenceElement::Message(message("C", "A", "four")),
    ];
    let mut out: Vec<&Message> = Vec::new();
    collect_messages(&elements, &mut out);
    let labels: Vec<&str> = out.iter().map(|m| m.label.as_str()).collect();
    assert_eq!(labels, vec!["one", "two", "three", "four"]);
}

#[test]
fn new_diagram_is_empty_and_lists_participants_in_order() {
    let mut d = SequenceDiagram::new();
    assert!(d.title.is_none() && d.participants.is_empty() && d.elements.is_empty());
    assert!(!d.hide_footbox);
    d.participants.push(participant("Alice", None));
    d.participants.push(participant("Bob", None));
    let ordered = d.ordered_participants();
    assert_eq!(ordered.len(), 2);
    assert_eq!(ordered[0].name, "Alice");
    assert_eq!(ordered[1].name, "Bob");
}

#[test]
fn autonumber_prefixes_labels_and_counts_on() {
    assert_eq!(numbered_label("hello", Some(1)), ("1: hello".to_string(), Some(2)));
    assert_eq!(numbered_label("", Some(10)), ("10:".to_string(), Some(11)));
    assert_eq!(numbered_label("hello", None), ("hello".to_string(), None));
}
