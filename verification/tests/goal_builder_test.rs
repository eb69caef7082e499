use vrp_search_core::goal::Feature;
use vrp_search_core::goal_builder::{
    create_goal_context, extract_feature_map, get_objectives, objective_feature_name,
    ObjectiveKind, ProblemProperties,
};
use vrp_search_core::order::Comparison;
use vrp_search_core::solution::Solution;

#[test]
fn objective_kinds_map_to_their_feature_names() {
    assert_eq!(objective_feature_name(ObjectiveKind::MinimizeCost), "min_cost");
    assert_eq!(objective_feature_name(ObjectiveKind::MinimizeUnassigned), "min_unassigned");
    assert_eq!(objective_feature_name(ObjectiveKind::BalanceMaxLoad), "max_load_balance");
    assert_eq!(objective_feature_name(ObjectiveKind::TourOrder), "tour_order");
    assert_eq!(objective_feature_name(ObjectiveKind::FastService), "fast_service");
}

#[test]
fn default_objectives_follow_the_problem_properties() {
    let plain = get_objectives(None, &ProblemProperties { has_value: false });
    assert_eq!(
        plain,
        vec![
            vec![ObjectiveKind::MinimizeUnassigned],
            vec![ObjectiveKind::MinimizeTours],
            vec![ObjectiveKind::MinimizeCost],
        ]
    );
    let valued = get_objectives(None, &ProblemProperties { has_value: true });
    assert_eq!(valued[0], vec![ObjectiveKind::MaximizeValue]);
    assert_eq!(valued.len(), 4);
}

#[test]
fn declared_objectives_are_kept() {
    let declared = vec![vec![ObjectiveKind::MinimizeDistance]];
    let got = get_objectives(Some(declared.clone()), &ProblemProperties { has_value: true });
    assert_eq!(got, declared);
}

#[test]
fn extract_feature_map_excludes_unassigned_from_the_local_map() {
    let features = vec![
        vec![Feature { name: "min_unassigned".to_string(), objective: Some(0) }],
        vec![Feature { name: "min_tours".to_string(), objective: Some(1) }],
        vec![
            Feature { name: "min_cost".to_string(), objective: Some(2) },
            Feature { name: "guard".to_string(), objective: None },
        ],
    ];
    let (global, local) = extract_feature_map(&features).unwrap();
    assert_eq!(
        global,
        vec![
            vec!["min_unassigned".to_string()],
            vec!["min_tours".to_string()],
            vec!["min_cost".to_string()],
        ]
    );
    assert_eq!(local, vec![vec!["min_tours".to_string()], vec!["min_cost".to_string()]]);
}

#[test]
fn default_goal_context_ranks_by_the_declared_hierarchy() {
    let ctx = create_goal_context(None, &ProblemProperties { has_value: false }).unwrap();
    // fitness entries: unassigned, tours, cost
    let a = Solution::new(vec![0, 3, 500], 3);
    let b = Solution::new(vec![1, 1, 100], 1);
    assert_eq!(ctx.total_order(&a, &b), Comparison::Less);
    let c = Solution::new(vec![0, 3, 400], 3);
    assert_eq!(ctx.total_order(&a, &c), Comparison::Greater);
    assert_eq!(ctx.total_order(&a, &a), Comparison::Equal);
}

#[test]
fn duplicate_declared_objective_fails_composition() {
    let declared =
        vec![vec![ObjectiveKind::MinimizeCost], vec![ObjectiveKind::MinimizeCost]];
    assert!(create_goal_context(Some(declared), &ProblemProperties { has_value: false }).is_err());
}

#[test]
fn declared_empty_level_fails_composition() {
    let declared: Vec<Vec<ObjectiveKind>> = vec![Vec::new()];
    assert!(create_goal_context(Some(declared), &ProblemProperties { has_value: false }).is_err());
}

#[test]
fn composed_context_orders_lexicographically() {
    let declared = vec![
        vec![ObjectiveKind::MinimizeCost],
        vec![ObjectiveKind::MinimizeTours],
        vec![ObjectiveKind::MinimizeDistance],
    ];
    let ctx = create_goal_context(Some(declared), &ProblemProperties { has_value: false }).unwrap();
    let a = Solution::new(vec![0, 1, 2], 0);
    let b = Solution::new(vec![1, 1, 2], 0);
    assert_eq!(ctx.total_order(&a, &b), Comparison::Less);
    assert_eq!(ctx.total_order(&b, &a), Comparison::Greater);
}

#[test]
fn composed_context_skips_inconclusive_pareto_level() {
    let declared = vec![
        vec![ObjectiveKind::MinimizeCost, ObjectiveKind::MinimizeTours],
        vec![ObjectiveKind::MinimizeDistance],
    ];
    let ctx = create_goal_context(Some(declared), &ProblemProperties { has_value: false }).unwrap();
    let a = Solution::new(vec![1, 0, 2], 0);
    let b = Solution::new(vec![0, 1, 0], 0);
    assert_eq!(ctx.total_order(&a, &b), Comparison::Greater);
}

#[test]
fn composed_context_full_tie_is_equal() {
    let declared = vec![
        vec![ObjectiveKind::MinimizeCost],
        vec![ObjectiveKind::MinimizeTours, ObjectiveKind::MinimizeDistance],
    ];
    let ctx = create_goal_context(Some(declared), &ProblemProperties { has_value: false }).unwrap();
    let a = Solution::new(vec![0, 1, 0], 0);
    let b = Solution::new(vec![0, 0, 1], 0);
    assert_eq!(ctx.total_order(&a, &b), Comparison::Equal);
}

#[test]
fn composed_empty_configuration_ranks_everything_equal() {
    let declared: Vec<Vec<ObjectiveKind>> = Vec::new();
    let ctx = create_goal_context(Some(declared), &ProblemProperties { has_value: false }).unwrap();
    let a = Solution::new(vec![5, 0], 0);
    let b = Solution::new(vec![0, 9], 0);
    assert_eq!(ctx.total_order(&a, &b), Comparison::Equal);
}
