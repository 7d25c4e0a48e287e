use puml::ast::gantt::GanttTask;
use puml::init_genai::{needs_force_hint, outcome_of, plan_template, report_counts, Outcome, TemplateAction};
use puml::layout::usecase::sort_by_barycenter;

#[test]
fn new_task_lasts_one_day() {
    let t = GanttTask::new("Design".to_string());
    assert_eq!(t.name, "Design");
    assert_eq!(t.duration, 1);
    assert!(!t.milestone);
    assert!(t.depends_on.is_none());
    assert!(t.fixed_start.is_none());
}

#[test]
fn existing_templates_are_skipped_unless_forced() {
    assert_eq!(plan_template(true, false), TemplateAction::Skip);
    assert_eq!(plan_template(true, true), TemplateAction::Write { overwrite: true });
    assert_eq!(plan_template(false, false), TemplateAction::Write { overwrite: false });
    assert_eq!(
        outcome_of("a".to_string(), TemplateAction::Write { overwrite: true }),
        Outcome::Overwritten("a".to_string())
    );
    assert_eq!(
        outcome_of("b".to_string(), TemplateAction::Skip),
        Outcome::Skipped("b".to_string())
    );
}

#[test]
fn report_counts_add_up() {
    let report = vec![
        Outcome::Created("a".to_string()),
        Outcome::Skipped("b".to_string()),
        Outcome::Created("c".to_string()),
        Outcome::Overwritten("d".to_string()),
    ];
    assert_eq!(report_counts(&report), (2, 1, 1));
    assert!(needs_force_hint(1, false));
    assert!(!needs_force_hint(1, true));
    assert!(!needs_force_hint(0, false));
}

#[test]
fn use_case_columns_follow_their_neighbours() {
    // Actors 0, 1 on the left; use cases 2, 3 on the right; 0-3 and 1-2.
    let adj = vec![vec![3], vec![2], vec![1], vec![0]];
    let left = vec![0, 1];
    let mut right = vec![2, 3];
    sort_by_barycenter(&mut right, &left, &adj);
    assert_eq!(right, vec![3, 2]);
}

#[test]
fn watch_plan_adds_new_files_and_drops_old_ones() {
    let watched = vec!["main.puml".to_string(), "old.puml".to_string()];
    let includes = vec!["a.puml".to_string(), "a.puml".to_string()];
    let plan = puml::watch::watch_plan(&watched, "main.puml", &includes);
    assert_eq!(plan.desired, vec!["a.puml".to_string(), "main.puml".to_string()]);
    assert_eq!(plan.added, vec!["a.puml".to_string()]);
    assert_eq!(plan.removed, vec!["old.puml".to_string()]);
}
