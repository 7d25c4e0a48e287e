use puml::ast::gantt::GanttTask;
use puml::ast::mindmap::Side;
use puml::ast::state::{StateDiagram, StateKind, StateNode, Transition};
use puml::ast::usecase::{AssocKind, Association, NodeKind, UseCaseDiagram, UseCaseNode};
use puml::layout::gantt::{axis_days, axis_step, max_end, task_starts};
use puml::layout::mindmap::{mind_map_parents, mind_map_sides};
use puml::layout::state::state_layers;
use puml::layout::usecase::use_case_columns;

#[test]
fn mind_map_tree_follows_the_depths() {
    let parents = mind_map_parents(&[1, 2, 3, 2, 3, 2]);
    assert_eq!(parents, vec![None, Some(0), Some(1), Some(0), Some(3), Some(0)]);
    assert_eq!(mind_map_parents(&[2, 1, 2]), vec![None, None, Some(1)]);
}

#[test]
fn mind_map_branches_alternate_unless_forced() {
    let parents = vec![None, Some(0), Some(1), Some(0), Some(3), Some(0)];
    let forced = vec![Side::Auto, Side::Auto, Side::Auto, Side::Left, Side::Right, Side::Auto];
    let sides = mind_map_sides(&parents, &forced);
    assert_eq!(
        sides,
        vec![Side::Auto, Side::Right, Side::Right, Side::Left, Side::Left, Side::Left]
    );
}

fn task(name: &str, duration: u32, dep: Option<&str>, fixed: Option<u32>) -> GanttTask {
    GanttTask {
        name: name.to_string(),
        duration,
        milestone: false,
        depends_on: dep.map(|d| d.to_string()),
        fixed_start: fixed,
    }
}

#[test]
fn gantt_starts_follow_fixed_days_and_dependencies() {
    let tasks = vec![
        task("A", 3, None, None),
        task("B", 2, Some("A"), None),
        task("C", 1, None, Some(10)),
        task("D", 1, Some("E"), None),
        task("E", 4, Some("B"), None),
        task("F", 1, Some("Zed"), None),
    ];
    let starts = task_starts(&tasks);
    assert_eq!(starts, vec![0, 3, 10, 9, 5, 0]);
    assert_eq!(max_end(&tasks, &starts), 11);
}

#[test]
fn gantt_cycles_start_at_day_zero() {
    let tasks = vec![task("X", 2, Some("Y"), None), task("Y", 2, Some("X"), None)];
    assert_eq!(task_starts(&tasks), vec![0, 0]);
    assert_eq!(max_end(&[], &[]), 1);
}

#[test]
fn gantt_axis_spacing() {
    assert_eq!(axis_step(10), 1);
    assert_eq!(axis_step(11), 5);
    assert_eq!(axis_step(30), 5);
    assert_eq!(axis_step(31), 10);
    assert_eq!(axis_days(11), vec![0, 5, 10]);
    assert_eq!(axis_days(3), vec![0, 1, 2, 3]);
}

fn uc(name: &str, kind: NodeKind) -> UseCaseNode {
    UseCaseNode { name: name.to_string(), label: None, kind, stereotype: None }
}

fn assoc(from: &str, to: &str) -> Association {
    Association { from: from.to_string(), to: to.to_string(), label: None, kind: AssocKind::Solid }
}

#[test]
fn use_case_columns_uncross_the_associations() {
    let mut d = UseCaseDiagram::default();
    d.nodes.push(uc("a1", NodeKind::Actor));
    d.nodes.push(uc("a2", NodeKind::Actor));
    d.nodes.push(uc("u1", NodeKind::UseCase));
    d.nodes.push(uc("u2", NodeKind::UseCase));
    d.nodes.push(uc("u3", NodeKind::UseCase));
    d.associations.push(assoc("a1", "u3"));
    d.associations.push(assoc("a2", "u1"));
    let (left, right) = use_case_columns(&d, 8);
    assert_eq!(left, vec![0, 1]);
    assert_eq!(right, vec![4, 2, 3]);
}

fn st(name: &str, kind: StateKind) -> StateNode {
    StateNode { name: name.to_string(), label: None, kind, body: Vec::new() }
}

fn tr(from: &str, to: &str) -> Transition {
    Transition { from: from.to_string(), to: to.to_string(), label: None }
}

#[test]
fn state_layers_follow_the_search_from_the_start() {
    let mut d = StateDiagram::default();
    d.states.push(st("[*]", StateKind::Start));
    d.states.push(st("A", StateKind::Normal));
    d.states.push(st("B", StateKind::Normal));
    d.states.push(st("C", StateKind::Normal));
    d.transitions.push(tr("[*]", "A"));
    d.transitions.push(tr("A", "B"));
    d.transitions.push(tr("B", "[*]"));
    assert_eq!(state_layers(&d), vec![vec![0], vec![1], vec![2], vec![3]]);
}

#[test]
fn state_back_edges_raise_a_visited_rank() {
    // [*] -> A -> B -> A: A is visited at rank 0, then raised to 2 by B.
    let mut d = StateDiagram::default();
    d.states.push(st("A", StateKind::Normal));
    d.states.push(st("B", StateKind::Normal));
    d.transitions.push(tr("[*]", "A"));
    d.transitions.push(tr("A", "B"));
    d.transitions.push(tr("B", "A"));
    let l = state_layers(&d);
    assert_eq!(l, vec![vec![], vec![], vec![1], vec![0]]);
}
