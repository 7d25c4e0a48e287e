use puml::layout::sugiyama::{assign_grid_columns, reorder_barycentric, Side};

#[test]
fn reorder_is_stable_with_no_edges() {
    let mut layers = vec![vec![0, 1, 2], vec![3, 4, 5]];
    reorder_barycentric(&mut layers, &[], 3);
    assert_eq!(layers, vec![vec![0, 1, 2], vec![3, 4, 5]]);
}

#[test]
fn reorder_resolves_simple_crossing() {
    let mut layers = vec![vec![0, 1], vec![2, 3]];
    reorder_barycentric(&mut layers, &[(0, 3), (1, 2)], 3);
    assert_eq!(layers[0], vec![0, 1]);
    assert_eq!(layers[1], vec![3, 2]);
}

#[test]
fn reorder_preserves_orphans() {
    let mut layers = vec![vec![0, 1], vec![99, 2, 3]];
    reorder_barycentric(&mut layers, &[(0, 3), (1, 2)], 3);
    assert!(layers[1].contains(&99));
}

#[test]
fn reorder_orphan_keeps_its_index_as_barycentre() {
    // 99 sits at position 0 (barycentre 0); 3 hangs under 0 (barycentre 0,
    // later position) and 2 under 1 (barycentre 1).
    let mut layers = vec![vec![0, 1], vec![99, 2, 3]];
    reorder_barycentric(&mut layers, &[(0, 3), (1, 2)], 1);
    assert_eq!(layers[1], vec![99, 3, 2]);
}

#[test]
fn reorder_uses_the_mean_of_several_neighbours() {
    // 4 hangs under 0 and 2 (mean 1), 5 under 1 only (mean 1), 6 under 0
    // (mean 0): 6 first, then the tie 4/5 in their current order.
    let mut layers = vec![vec![0, 1, 2], vec![4, 5, 6]];
    reorder_barycentric(&mut layers, &[(0, 4), (2, 4), (1, 5), (0, 6)], 1);
    assert_eq!(layers[1], vec![6, 4, 5]);
}

#[test]
fn reorder_with_one_layer_or_no_sweep_changes_nothing() {
    let mut one = vec![vec![2, 1, 0]];
    reorder_barycentric(&mut one, &[(0, 1)], 5);
    assert_eq!(one, vec![vec![2, 1, 0]]);
    let mut two = vec![vec![0, 1], vec![2, 3]];
    reorder_barycentric(&mut two, &[(0, 3), (1, 2)], 0);
    assert_eq!(two, vec![vec![0, 1], vec![2, 3]]);
}

#[test]
fn reorder_ignores_edges_that_skip_a_layer() {
    let mut layers = vec![vec![0, 1], vec![2], vec![3, 4]];
    reorder_barycentric(&mut layers, &[(1, 3), (0, 4)], 2);
    assert_eq!(layers, vec![vec![0, 1], vec![2], vec![3, 4]]);
}

#[test]
fn reorder_bottom_up_pass_moves_upper_layer() {
    // Bottom layer fixed first by the top-down pass, then the top layer is
    // sorted by its children in the bottom-up pass.
    let mut layers = vec![vec![0, 1], vec![2, 3]];
    reorder_barycentric(&mut layers, &[(1, 2)], 1);
    // Top-down: 2 has parent 1 (bary 1), 3 has none (bary 1) -> [2, 3].
    // Bottom-up: 0 has no child (bary 0), 1 has child 2 (bary 0) -> [0, 1].
    assert_eq!(layers, vec![vec![0, 1], vec![2, 3]]);
}

#[test]
fn reorder_keeps_every_node_in_its_layer() {
    let mut layers = vec![vec![0, 1, 2], vec![3, 4, 5], vec![6, 7]];
    reorder_barycentric(&mut layers, &[(0, 5), (2, 3), (1, 4), (3, 7), (5, 6)], 4);
    let mut sorted: Vec<Vec<usize>> = layers.clone();
    for l in sorted.iter_mut() {
        l.sort();
    }
    assert_eq!(sorted, vec![vec![0, 1, 2], vec![3, 4, 5], vec![6, 7]]);
}

#[test]
fn grid_columns_packs_top_layer() {
    let layers = vec![vec![0, 1, 2], vec![]];
    let col = assign_grid_columns(&layers, &[]);
    assert_eq!(col[&0], 0);
    assert_eq!(col[&1], 1);
    assert_eq!(col[&2], 2);
}

#[test]
fn grid_columns_child_under_single_parent() {
    let layers = vec![vec![10, 11, 12], vec![99]];
    let col = assign_grid_columns(&layers, &[(99, 12)]);
    assert_eq!(col[&12], 2);
    assert_eq!(col[&99], 2);
}

#[test]
fn grid_columns_resolve_collision_via_bump() {
    let layers = vec![vec![7, 8], vec![20, 21]];
    let col = assign_grid_columns(&layers, &[(20, 8), (21, 8)]);
    assert_eq!(col[&8], 1);
    assert_eq!(col[&20], 1);
    assert_eq!(col[&21], 2);
}

#[test]
fn grid_columns_median_of_two_parents() {
    let layers = vec![vec![5, 6, 7, 8], vec![99]];
    let col = assign_grid_columns(&layers, &[(99, 6), (99, 8)]);
    assert_eq!(col[&6], 1);
    assert_eq!(col[&8], 3);
    assert!(col[&99] == 1 || col[&99] == 3);
}

#[test]
fn grid_columns_even_count_takes_the_lower_median() {
    let layers = vec![vec![5, 6, 7, 8], vec![99]];
    let col = assign_grid_columns(&layers, &[(99, 6), (99, 8)]);
    assert_eq!(col[&99], 1);
}

#[test]
fn grid_columns_orphans_step_right() {
    let layers = vec![vec![0, 1, 2], vec![3, 4, 5]];
    let col = assign_grid_columns(&layers, &[(4, 2)]);
    assert_eq!(col[&3], 0);
    assert_eq!(col[&4], 2);
    assert_eq!(col[&5], 3);
}

#[test]
fn grid_columns_of_no_layers_is_empty() {
    let layers: Vec<Vec<usize>> = vec![];
    assert!(assign_grid_columns(&layers, &[(0, 1)]).is_empty());
}

#[test]
fn grid_columns_third_layer_follows_second() {
    let layers = vec![vec![0, 1], vec![2], vec![3]];
    let col = assign_grid_columns(&layers, &[(2, 1), (3, 2)]);
    assert_eq!(col[&2], 1);
    assert_eq!(col[&3], 1);
}

#[test]
fn vertical_sides() {
    assert!(Side::Top.is_vertical());
    assert!(Side::Bottom.is_vertical());
    assert!(!Side::Left.is_vertical());
    assert!(!Side::Right.is_vertical());
}

#[test]
fn edges_between_distant_layers_do_not_steer_the_order() {
    let start = vec![vec![0, 1], vec![2, 3], vec![4, 5]];
    let mut a = start.clone();
    reorder_barycentric(&mut a, &[(0, 3), (1, 2)], 2);
    let mut b = start.clone();
    reorder_barycentric(&mut b, &[(0, 3), (1, 2), (0, 5), (1, 99)], 2);
    assert_eq!(a, b);
    let mut c = start.clone();
    reorder_barycentric(&mut c, &[(0, 5), (4, 1)], 2);
    assert_eq!(c, start);
}

#[test]
fn a_node_after_a_taken_column_sits_just_right_of_it() {
    // Both children want column 0 (their parent); the second is pushed to 1,
    // the third has no parent and follows at 2.
    let layers = vec![vec![1], vec![10, 11, 12]];
    let col = assign_grid_columns(&layers, &[(10, 1), (11, 1)]);
    assert_eq!(col[&10], 0);
    assert_eq!(col[&11], 1);
    assert_eq!(col[&12], 2);
}
