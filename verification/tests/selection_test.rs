use vrp_search_core::goal::{Feature, Goal, GoalContext};
use vrp_search_core::population::Population;
use vrp_search_core::rng::DeterministicRandom;
use vrp_search_core::selection::{RefinementContext, SelectRandom};
use vrp_search_core::solution::{ExtValue, Solution};

fn cost_context() -> GoalContext {
    let map = vec![vec!["cost".to_string()]];
    let goal = Goal::no_alternatives(map.clone(), map);
    GoalContext::new(&vec![Feature { name: "cost".to_string(), objective: Some(0) }], goal).unwrap()
}

fn context_with(fitnesses: &[i64], seed: u64) -> RefinementContext {
    let mut population = Population::new(cost_context());
    for &f in fitnesses {
        population.add(Solution::new(vec![f], 1));
    }
    RefinementContext { population, random: DeterministicRandom::with_seed(seed) }
}

#[test]
fn population_keeps_members_ranked_best_first() {
    let ctx = context_with(&[30, 10, 20], 0);
    assert_eq!(ctx.population.size(), 3);
    assert_eq!(ctx.population.get(0).fitness, vec![10]);
    assert_eq!(ctx.population.get(1).fitness, vec![20]);
    assert_eq!(ctx.population.get(2).fitness, vec![30]);
}

#[test]
fn less_routes_orders_by_structural_size() {
    let mut population = Population::new(cost_context());
    population.add(Solution::new(vec![10], 5));
    population.add(Solution::new(vec![20], 1));
    population.add(Solution::new(vec![30], 3));
    let order = population.less_routes();
    assert_eq!(order.len(), 3);
    let routes: Vec<usize> = order.iter().map(|&i| population.get(i).routes).collect();
    assert_eq!(routes, vec![1, 3, 5]);
}

#[test]
fn select_returns_a_member_of_the_population() {
    let mut ctx = context_with(&[10, 20, 30], 42);
    let strategy = SelectRandom::new();
    for _ in 0..50 {
        let chosen = strategy.select(&mut ctx);
        assert!(chosen.fitness == vec![10] || chosen.fitness == vec![20] || chosen.fitness == vec![30]);
    }
    assert_eq!(ctx.population.size(), 3);
}

#[test]
fn single_member_is_selected_deterministically() {
    let mut ctx = context_with(&[7], 9);
    let strategy = SelectRandom::default();
    for _ in 0..10 {
        assert_eq!(strategy.select(&mut ctx).fitness, vec![7]);
    }
}

#[test]
fn rank_biased_selection_distribution() {
    let mut ctx = context_with(&[10, 20, 30], 7);
    let strategy = SelectRandom::new();
    let trials = 20_000;
    let mut counts = [0usize; 3];
    for _ in 0..trials {
        let chosen = strategy.select(&mut ctx);
        match chosen.fitness[0] {
            10 => counts[0] += 1,
            20 => counts[1] += 1,
            30 => counts[2] += 1,
            _ => unreachable!(),
        }
    }
    assert!(counts[2] > 0);
    let ratio = counts[0] as f64 / counts[2] as f64;
    // weights 739 : 272 : 100, so best over worst approximates e^2
    assert!(ratio > 5.5 && ratio < 9.5);
}

#[test]
fn mutating_a_selected_copy_leaves_the_population_untouched() {
    let mut ctx = context_with(&[10], 1);
    let strategy = SelectRandom::new();
    let mut copy = strategy.select(&mut ctx);
    copy.fitness[0] = 999;
    copy.routes = 77;
    copy.set_ext(4, ExtValue::Int(5));
    let member = ctx.population.get(0);
    assert_eq!(member.fitness, vec![10]);
    assert_eq!(member.routes, 1);
    assert!(member.get_ext(4).is_none());
}

#[test]
fn same_seed_reproduces_the_same_selections() {
    let strategy = SelectRandom::new();
    let mut first: Vec<i64> = Vec::new();
    let mut second: Vec<i64> = Vec::new();
    for run in [&mut first, &mut second] {
        let mut ctx = context_with(&[10, 20, 30, 40], 1234);
        for _ in 0..100 {
            run.push(strategy.select(&mut ctx).fitness[0]);
        }
    }
    assert_eq!(first, second);
}

#[test]
fn weighted_draw_skips_zero_weights() {
    let mut random = DeterministicRandom::with_seed(3);
    let weights = vec![0u64, 5u64, 0u64, 7u64];
    for _ in 0..100 {
        let idx = random.weighted(&weights);
        assert!(idx == 1 || idx == 3);
    }
}
