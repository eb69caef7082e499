use vrp_search_core::bandit::{random_argmax, Feedback, SlotAction, SlotMachine};
use vrp_search_core::rng::DeterministicRandom;

const SCALE: i64 = 1_000_000;

#[derive(Clone)]
struct TestAction;

impl SlotAction for TestAction {
    type Context = (i64, i64);

    fn take(&self, context: (i64, i64), random: &mut DeterministicRandom) -> Feedback {
        let (mean, var) = context;
        Feedback::new(random.normal_fp(mean, var))
    }
}

#[test]
fn can_find_proper_estimations() {
    let total_episodes = 100;
    let expected_failures_threshold = 20;
    let mut failed_slot_estimations: usize = 0;
    for episode in 0..total_episodes {
        let slot_means = [5 * SCALE, 9 * SCALE, 7 * SCALE, 13 * SCALE, 11 * SCALE];
        let slot_vars = [2 * SCALE, 3 * SCALE, 4 * SCALE, 6 * SCALE, SCALE];
        let prior_mean = SCALE;
        let attempts = 1000;
        let delta = 2 * SCALE;

        let mut random = DeterministicRandom::with_seed(episode as u64);
        let mut slots: Vec<SlotMachine<TestAction>> = Vec::new();
        for _ in 0..5 {
            slots.push(SlotMachine::new(prior_mean, TestAction, random.fork()));
        }

        for _ in 0..attempts {
            let mut samples: Vec<i64> = Vec::new();
            for slot in slots.iter_mut() {
                samples.push(slot.sample());
            }
            let slot_idx = random_argmax(&samples, &mut random).unwrap();
            let slot = &mut slots[slot_idx];
            let feedback = slot.play((slot_means[slot_idx], slot_vars[slot_idx]));
            slot.update(&feedback);
        }

        failed_slot_estimations += slots
            .iter()
            .enumerate()
            .filter(|(idx, slot)| {
                (slot.mu - slot_means[*idx]).abs() > delta || (slot.v - slot_vars[*idx]).abs() > delta
            })
            .count();
    }

    assert!(failed_slot_estimations < expected_failures_threshold);
}

#[test]
fn untried_slot_samples_are_finite_and_near_the_prior() {
    let mut slot = SlotMachine::new(7 * SCALE, TestAction, DeterministicRandom::with_seed(3));
    for _ in 0..100 {
        let s = slot.sample();
        assert!((s - 7 * SCALE).abs() <= 14_000_000_000_000);
    }
    assert_eq!(slot.n, 0);
    assert_eq!(slot.mu, 7 * SCALE);
    assert_eq!(slot.v, 0);
}

#[test]
fn update_folds_rewards_into_mean_and_variance() {
    let mut slot = SlotMachine::new(0, TestAction, DeterministicRandom::with_seed(5));
    slot.update(&Feedback::new(10 * SCALE));
    assert_eq!(slot.n, 1);
    assert_eq!(slot.mu, 10 * SCALE);
    slot.update(&Feedback::new(20 * SCALE));
    assert_eq!(slot.n, 2);
    assert_eq!(slot.mu, 15 * SCALE);
    assert!(slot.v >= 0);
    slot.update(&Feedback::new(15 * SCALE));
    assert_eq!(slot.n, 3);
    assert_eq!(slot.mu, 15 * SCALE);
}

#[test]
fn random_argmax_returns_a_maximal_index_and_breaks_ties() {
    let mut random = DeterministicRandom::with_seed(11);
    let values = vec![3, 9, 9, 1];
    let mut seen = [false; 4];
    for _ in 0..200 {
        let idx = random_argmax(&values, &mut random).unwrap();
        assert!(idx == 1 || idx == 2);
        seen[idx] = true;
    }
    assert!(seen[1] && seen[2]);
    assert_eq!(random_argmax(&Vec::new(), &mut random), None);
}

#[test]
fn feedback_hands_back_its_reward() {
    let f = Feedback::new(123);
    assert_eq!(f.reward(), 123);
}
