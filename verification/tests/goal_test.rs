use vrp_search_core::goal::{Feature, Goal, GoalContext};
use vrp_search_core::order::cmp_i64;
use vrp_search_core::order::Comparison;
use vrp_search_core::solution::Solution;

fn create_objective_feature(index: usize) -> Feature {
    Feature { name: format!("test_{index}"), objective: Some(index) }
}

fn create_individual(data: Vec<i64>) -> Solution {
    Solution::new(data, 0)
}

fn singleton_map() -> Vec<Vec<String>> {
    vec![vec!["test_0".to_string()], vec!["test_1".to_string()], vec!["test_2".to_string()]]
}

fn build_context(objective_map: Vec<Vec<String>>) -> GoalContext {
    let goal = Goal::no_alternatives(objective_map.clone(), objective_map);
    GoalContext::new(
        &vec![create_objective_feature(0), create_objective_feature(1), create_objective_feature(2)],
        goal,
    )
    .unwrap()
}

#[test]
fn can_use_total_order_with_hierarchy() {
    let cases: Vec<(Vec<i64>, Vec<i64>, Comparison)> = vec![
        (vec![0, 1, 2], vec![0, 1, 2], Comparison::Equal),
        (vec![1, 1, 2], vec![0, 1, 2], Comparison::Greater),
        (vec![0, 1, 2], vec![1, 1, 2], Comparison::Less),
        (vec![0, 1, 2], vec![0, 2, 2], Comparison::Less),
        (vec![0, 2, 2], vec![1, 0, 0], Comparison::Less),
    ];
    let goal = build_context(singleton_map());
    for (data_a, data_b, expected) in cases {
        let a = create_individual(data_a);
        let b = create_individual(data_b);
        assert_eq!(goal.total_order(&a, &b), expected);
    }
}

#[test]
fn can_use_total_order_with_multi() {
    let front_map =
        vec![vec!["test_0".to_string(), "test_1".to_string()], vec!["test_2".to_string()]];
    let back_map =
        vec![vec!["test_0".to_string()], vec!["test_1".to_string(), "test_2".to_string()]];
    let front_cases: Vec<(Vec<i64>, Vec<i64>, Comparison)> = vec![
        (vec![0, 1, 2], vec![0, 1, 2], Comparison::Equal),
        (vec![1, 0, 2], vec![0, 1, 2], Comparison::Equal),
        (vec![1, 0, 2], vec![0, 1, 0], Comparison::Greater),
        (vec![1, 0, 2], vec![0, 1, 3], Comparison::Less),
        (vec![1, 1, 2], vec![0, 1, 2], Comparison::Greater),
        (vec![0, 0, 2], vec![0, 1, 2], Comparison::Less),
        (vec![1, 0, 2], vec![0, 1, 2], Comparison::Equal),
    ];
    let back_cases: Vec<(Vec<i64>, Vec<i64>, Comparison)> = vec![
        (vec![0, 1, 2], vec![0, 1, 2], Comparison::Equal),
        (vec![0, 1, 0], vec![0, 1, 1], Comparison::Less),
        (vec![1, 0, 0], vec![0, 1, 1], Comparison::Greater),
        (vec![0, 1, 1], vec![1, 0, 0], Comparison::Less),
        (vec![0, 1, 0], vec![0, 0, 1], Comparison::Equal),
    ];
    for (map, cases) in [(front_map, front_cases), (back_map, back_cases)] {
        let goal = build_context(map);
        for (data_a, data_b, expected) in cases {
            let a = create_individual(data_a);
            let b = create_individual(data_b);
            assert_eq!(goal.total_order(&a, &b), expected);
        }
    }
}

#[test]
fn lexicographic_precedence_decides_at_the_first_level() {
    let goal = build_context(singleton_map());
    let a = create_individual(vec![0, 1, 2]);
    let b = create_individual(vec![1, 1, 2]);
    assert_eq!(goal.total_order(&a, &b), Comparison::Less);
    assert_eq!(goal.total_order(&b, &a), Comparison::Greater);
}

#[test]
fn pareto_tie_breaks_fall_to_the_next_level() {
    let map = vec![vec!["test_0".to_string(), "test_1".to_string()], vec!["test_2".to_string()]];
    let goal = build_context(map);
    let a = create_individual(vec![1, 0, 2]);
    let b = create_individual(vec![0, 1, 0]);
    assert_eq!(goal.total_order(&a, &b), Comparison::Greater);
}

#[test]
fn full_tie_means_equal() {
    let map = vec![vec!["test_0".to_string()], vec!["test_1".to_string(), "test_2".to_string()]];
    let goal = build_context(map);
    let a = create_individual(vec![0, 1, 0]);
    let b = create_individual(vec![0, 0, 1]);
    assert_eq!(goal.total_order(&a, &b), Comparison::Equal);
}

#[test]
fn empty_global_map_ranks_everything_equal() {
    let goal = build_context(Vec::new());
    let a = create_individual(vec![5, 0, 0]);
    let b = create_individual(vec![0, 9, 1]);
    assert_eq!(goal.total_order(&a, &b), Comparison::Equal);
}

#[test]
fn unknown_objective_name_fails_construction() {
    let map = vec![vec!["bogus".to_string()]];
    let goal = Goal::no_alternatives(map.clone(), map);
    let result = GoalContext::new(&vec![create_objective_feature(0)], goal);
    assert!(result.is_err());
    assert!(result.err().unwrap().contains("bogus"));
}

#[test]
fn empty_level_fails_construction() {
    let map = vec![vec!["test_0".to_string()], Vec::new()];
    let goal = Goal::no_alternatives(map.clone(), map);
    assert!(GoalContext::new(&vec![create_objective_feature(0)], goal).is_err());
}

#[test]
fn duplicate_objective_owner_fails_construction() {
    let map = vec![vec!["test_0".to_string()]];
    let goal = Goal::no_alternatives(map.clone(), map);
    let features = vec![
        Feature { name: "test_0".to_string(), objective: Some(0) },
        Feature { name: "test_0".to_string(), objective: Some(1) },
    ];
    assert!(GoalContext::new(&features, goal).is_err());
}

#[test]
fn feature_without_objective_does_not_resolve_a_name() {
    let map = vec![vec!["guard".to_string()]];
    let goal = Goal::no_alternatives(map.clone(), map);
    let features = vec![Feature { name: "guard".to_string(), objective: None }];
    assert!(GoalContext::new(&features, goal).is_err());
}

#[test]
fn distance_is_the_per_objective_difference_vector() {
    let goal = build_context(singleton_map());
    let a = create_individual(vec![3, 10, -4]);
    let b = create_individual(vec![5, 10, 4]);
    assert_eq!(goal.distance(&a, &b), vec![2u64, 0u64, 8u64]);
    assert_eq!(goal.distance(&a, &a), vec![0u64, 0u64, 0u64]);
}

#[test]
fn fitness_values_compare_smaller_is_better() {
    assert_eq!(cmp_i64(1, 2), Comparison::Less);
    assert_eq!(cmp_i64(2, 1), Comparison::Greater);
    assert_eq!(cmp_i64(3, 3), Comparison::Equal);
}
