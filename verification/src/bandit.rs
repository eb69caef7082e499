//! The adaptive bandit: a set of slots, each wrapping one discrete action
//! with online reward statistics, chosen by Gaussian posterior sampling.
//! Early on a slot's samples are widely dispersed (exploration); as rewards
//! accumulate they concentrate near the observed mean (exploitation).

use vstd::prelude::*;

use crate::rng::{
    spec_div_trunc, spec_isqrt, spec_out, spec_scaled_chain_sum, spec_step, spec_step_n,
    DeterministicRandom, NORMAL_SPREAD_LIMIT, NORMAL_VAR_LIMIT, SCALE,
};

verus! {

/// Largest reward magnitude a slot folds into its statistics (micro-units).
pub const REWARD_LIMIT: i64 = 1_000_000_000_000;

/// Bound on one variance increment and so on the variance estimate itself:
/// the square of the reward range, in micro-units.
pub const VAR_STEP_LIMIT: i64 = 4_000_000_000_000_000_000;

/// Wide prior variance handed to an untried slot (micro-units).
pub const WIDE_PRIOR_VAR: u64 = 100_000_000;

/// Positive floor substituted for a vanishing variance when sampling.
pub const VAR_FLOOR: i64 = 10_000;

/// Largest observation count a slot accepts.
pub const COUNT_LIMIT: u64 = 0x1_0000_0000;

/// Scalar feedback of one played action.
#[derive(Debug)]
pub struct Feedback {
    /// Observed reward in micro-units.
    pub reward: i64,
}

impl Feedback {
    /// Wraps an observed reward.
    pub fn new(reward: i64) -> (r: Feedback)
        ensures
            r.reward == reward,
    {
        Feedback { reward }
    }

    /// The observed reward.
    pub fn reward(&self) -> (r: i64)
        ensures
            r == self.reward,
    {
        self.reward
    }
}

/// One discrete action a slot can play: implemented by the surrounding
/// search loop (e.g. a construction or repair operator). Playing may itself
/// be stochastic through the handed random stream.
pub trait SlotAction {
    /// What the action needs to run.
    type Context;

    /// Performs the action once and reports the observed reward.
    fn take(&self, context: Self::Context, random: &mut DeterministicRandom) -> Feedback;
}

/// Online mean update: the estimate moves toward the reward by the
/// increment `(reward - mean) / count`.
pub open spec fn spec_welford_mean(mu: int, reward: int, n1: int) -> int {
    mu + spec_div_trunc(reward - mu, n1)
}

/// Online second-moment update: the product of the deviations from the old
/// and the new mean, rescaled to micro-units, is folded in.
pub open spec fn spec_welford_m2(m2: int, mu_old: int, mu_new: int, reward: int) -> int {
    m2 + (reward - mu_old) * (reward - mu_new) / (SCALE as int)
}

/// One bandit arm: an action plus running reward statistics `(n, mu, v)`,
/// updated online in constant space.
#[derive(Debug)]
pub struct SlotMachine<A> {
    /// Number of folded observations.
    pub n: u64,
    /// Running mean estimate of the reward (micro-units).
    pub mu: i64,
    /// Running variance estimate of the reward (micro-units), never
    /// negative.
    pub v: i64,
    /// Scaled sum of squared deviations; `v` is `m2` over `n`.
    pub m2: i128,
    /// The wrapped action payload.
    pub action: A,
    /// This slot's deterministic random stream.
    pub sampler: DeterministicRandom,
}

impl<A> SlotMachine<A> {
    /// The statistics stay inside the ranges that the updates preserve.
    pub open spec fn wf(&self) -> bool {
        &&& -REWARD_LIMIT <= self.mu <= REWARD_LIMIT
        &&& 0 <= self.m2 <= (self.n as int) * (VAR_STEP_LIMIT as int)
        &&& self.n <= COUNT_LIMIT
        &&& self.v as int == (if self.n == 0 {
            0int
        } else {
            self.m2 as int / (self.n as int)
        })
        &&& 0 <= self.v <= VAR_STEP_LIMIT
    }

    /// A fresh slot: no observations, the caller's prior mean, zero
    /// variance.
    pub fn new(prior_mean: i64, action: A, sampler: DeterministicRandom) -> (r: SlotMachine<A>)
        requires
            -REWARD_LIMIT <= prior_mean <= REWARD_LIMIT,
        ensures
            r.n == 0,
            r.mu == prior_mean,
            r.v == 0,
            r.wf(),
    {
        SlotMachine { n: 0, mu: prior_mean, v: 0, m2: 0, action, sampler }
    }

    /// The posterior variance a slot samples with: the running estimate plus
    /// a wide prior share that shrinks as observations accumulate, floored
    /// away from zero.
    pub open spec fn spec_sample_var(&self) -> int {
        let wide = (WIDE_PRIOR_VAR as int) / (self.n as int + 1);
        if self.v + wide < VAR_FLOOR {
            VAR_FLOOR as int
        } else {
            self.v + wide
        }
    }

    /// Draws one value from the slot's posterior: a normal draw around the
    /// mean estimate with the posterior variance. The statistics are
    /// untouched, the draw is always finite and well-defined (also for an
    /// untried slot), and it is the exact normal-draw image of the slot's
    /// own stream position, so equal slot states reproduce equal draws.
    pub fn sample(&mut self) -> (r: i64)
        requires
            old(self).wf(),
        ensures
            final(self).n == old(self).n,
            final(self).mu == old(self).mu,
            final(self).v == old(self).v,
            final(self).m2 == old(self).m2,
            final(self).action == old(self).action,
            final(self).wf(),
            old(self).mu - NORMAL_SPREAD_LIMIT <= r <= old(self).mu + NORMAL_SPREAD_LIMIT,
            final(self).sampler.stream() == spec_step_n(old(self).sampler.stream(), 12),
            r as int == ({
                let z = spec_scaled_chain_sum(old(self).sampler.stream(), 12) - 6 * (
                SCALE as int);
                let sigma = spec_isqrt(old(self).spec_sample_var() * (SCALE as int));
                if z >= 0 {
                    old(self).mu + z * sigma / (SCALE as int)
                } else {
                    old(self).mu - (-z) * sigma / (SCALE as int)
                }
            }),
    {
        let wide: u64 = WIDE_PRIOR_VAR / (self.n + 1);
        let mut sigma2: i64 = self.v + (wide as i64);
        if sigma2 < VAR_FLOOR {
            sigma2 = VAR_FLOOR;
        }
        proof {
            assert(sigma2 <= NORMAL_VAR_LIMIT);
            assert(sigma2 as int == old(self).spec_sample_var());
        }
        let mu = self.mu;
        self.sampler.normal_fp(mu, sigma2)
    }

    /// Plays the wrapped action on `context` and reports its feedback. The
    /// action may draw from the slot's random stream; the reward statistics
    /// are not touched.
    pub fn play(&mut self, context: A::Context) -> (r: Feedback) where A: SlotAction
        ensures
            final(self).n == old(self).n,
            final(self).mu == old(self).mu,
            final(self).v == old(self).v,
            final(self).action == old(self).action,
            old(self).wf() ==> final(self).wf(),
    {
        self.action.take(context, &mut self.sampler)
    }

    /// Folds one observed reward into `(n, mu, v)`: a single-pass,
    /// constant-space mean/variance update with truncated division. The
    /// variance estimate never goes negative.
    pub fn update(&mut self, feedback: &Feedback)
        requires
            old(self).wf(),
            -REWARD_LIMIT <= feedback.reward <= REWARD_LIMIT,
            old(self).n < COUNT_LIMIT,
        ensures
            final(self).n == old(self).n + 1,
            final(self).mu as int == spec_welford_mean(
                old(self).mu as int,
                feedback.reward as int,
                old(self).n as int + 1,
            ),
            final(self).m2 == spec_welford_m2(
                old(self).m2 as int,
                old(self).mu as int,
                final(self).mu as int,
                feedback.reward as int,
            ),
            final(self).v as int == final(self).m2 as int / (final(self).n as int),
            final(self).action == old(self).action,
            final(self).wf(),
    {
        let reward = feedback.reward;
        let n1: u64 = self.n + 1;
        let delta: i64 = reward - self.mu;
        let step: i64 = if delta >= 0 {
            ((delta as u64) / n1) as i64
        } else {
            proof {
                vstd::arithmetic::div_mod::lemma_div_is_ordered_by_denominator(
                    -(delta as int),
                    1,
                    n1 as int,
                );
                vstd::arithmetic::div_mod::lemma_div_pos_is_pos(-(delta as int), n1 as int);
            }
            -((((-delta) as u64) / n1) as i64)
        };
        proof {
            if delta >= 0 {
                vstd::arithmetic::div_mod::lemma_div_is_ordered_by_denominator(
                    delta as int,
                    1,
                    n1 as int,
                );
                vstd::arithmetic::div_mod::lemma_div_pos_is_pos(delta as int, n1 as int);
                assert(0 <= step <= delta);
            } else {
                assert(delta <= step <= 0);
            }
        }
        let mu_new: i64 = self.mu + step;
        proof {
            if delta >= 0 {
                assert(old(self).mu <= mu_new <= reward);
            } else {
                assert(reward <= mu_new <= old(self).mu);
            }
            assert(-REWARD_LIMIT <= mu_new <= REWARD_LIMIT);
        }
        let delta2: i64 = reward - mu_new;
        proof {
            assert((delta as int) * (delta2 as int) >= 0) by (nonlinear_arith)
                requires
                    (delta >= 0 && delta2 >= 0) || (delta <= 0 && delta2 <= 0),
            ;
            assert((delta as int) * (delta2 as int) <= (2 * REWARD_LIMIT as int) * (2
                * REWARD_LIMIT as int)) by (nonlinear_arith)
                requires
                    -2 * (REWARD_LIMIT as int) <= delta <= 2 * (REWARD_LIMIT as int) && -2 * (
                    REWARD_LIMIT as int) <= delta2 <= 2 * (REWARD_LIMIT as int),
            ;
        }
        let prod: i128 = (delta as i128) * (delta2 as i128);
        let inc: i128 = ((prod as u128) / (SCALE as u128)) as i128;
        proof {
            vstd::arithmetic::div_mod::lemma_div_is_ordered(
                prod as int,
                (2 * REWARD_LIMIT as int) * (2 * REWARD_LIMIT as int),
                SCALE as int,
            );
            assert((2 * REWARD_LIMIT as int) * (2 * REWARD_LIMIT as int) / (SCALE as int)
                == VAR_STEP_LIMIT as int) by (nonlinear_arith);
            vstd::arithmetic::div_mod::lemma_div_pos_is_pos(prod as int, SCALE as int);
            assert(0 <= inc <= VAR_STEP_LIMIT as int);
            let n0 = old(self).n as int;
            assert(n0 * (VAR_STEP_LIMIT as int) + (VAR_STEP_LIMIT as int) == (n0 + 1) * (
            VAR_STEP_LIMIT as int)) by (nonlinear_arith);
            assert(n1 as int == n0 + 1);
            assert((n1 as int) * (VAR_STEP_LIMIT as int) <= (COUNT_LIMIT as int) * (
            VAR_STEP_LIMIT as int)) by (nonlinear_arith)
                requires
                    n1 <= COUNT_LIMIT,
            ;
        }
        let m2_new: i128 = self.m2 + inc;
        let v_new: i64 = ((m2_new as u128) / (n1 as u128)) as i64;
        proof {
            vstd::arithmetic::div_mod::lemma_div_is_ordered(
                m2_new as int,
                (n1 as int) * (VAR_STEP_LIMIT as int),
                n1 as int,
            );
            vstd::arithmetic::div_mod::lemma_div_by_multiple(VAR_STEP_LIMIT as int, n1 as int);
            assert((VAR_STEP_LIMIT as int) * (n1 as int) == (n1 as int) * (VAR_STEP_LIMIT as int))
                by (nonlinear_arith);
            vstd::arithmetic::div_mod::lemma_div_pos_is_pos(m2_new as int, n1 as int);
            assert(0 <= v_new as int <= VAR_STEP_LIMIT as int);
        }
        self.n = n1;
        self.mu = mu_new;
        self.m2 = m2_new;
        self.v = v_new;
    }
}

/// Count of entries equal to `v`.
pub open spec fn spec_count_eq(s: Seq<i64>, v: i64) -> int
    decreases s.len(),
{
    if s.len() == 0 {
        0
    } else {
        (if s[0] == v {
            1int
        } else {
            0int
        }) + spec_count_eq(s.drop_first(), v)
    }
}

/// Counting one more entry extends the count by whether it matches.
proof fn lemma_count_eq_take_succ(s: Seq<i64>, v: i64, i: int)
    requires
        0 <= i < s.len(),
    ensures
        spec_count_eq(s.take(i + 1), v) == spec_count_eq(s.take(i), v) + (if s[i] == v {
            1int
        } else {
            0int
        }),
    decreases i,
{
    if i == 0 {
        assert(s.take(1) =~= seq![s[0]]);
        assert(s.take(1).drop_first() =~= Seq::<i64>::empty());
        assert(s.take(0) =~= Seq::<i64>::empty());
    } else {
        lemma_count_eq_take_succ(s.drop_first(), v, i - 1);
        assert(s.take(i + 1).drop_first() =~= s.drop_first().take(i));
        assert(s.take(i).drop_first() =~= s.drop_first().take(i - 1));
        assert(s.take(i + 1)[0] == s[0] && s.take(i)[0] == s[0]);
        assert(s.drop_first()[i - 1] == s[i]);
    }
}

/// Counts never go negative.
proof fn lemma_count_eq_nonneg(s: Seq<i64>, v: i64)
    ensures
        spec_count_eq(s, v) >= 0,
    decreases s.len(),
{
    if s.len() > 0 {
        lemma_count_eq_nonneg(s.drop_first(), v);
    }
}

/// Index of the largest sampled value, ties broken uniformly at random —
/// never by position, so arms with identical estimates are treated fairly.
/// `None` only for an empty list, which leaves the stream untouched. The
/// chosen index is the exact function of the values and the stream
/// position: among the maximal positions, the one whose ordinal is the
/// uniform draw over the tie count.
pub fn random_argmax(values: &Vec<i64>, random: &mut DeterministicRandom) -> (r: Option<usize>)
    ensures
        match r {
            Some(i) => i < values@.len() && (forall|j: int|
                0 <= j < values@.len() ==> values@[j] <= values@[i as int])
                && final(random).stream() == spec_step(old(random).stream())
                && spec_count_eq(values@.take(i as int), values@[i as int]) == (spec_out(
                old(random).stream(),
            ) as int) % spec_count_eq(values@, values@[i as int]),
            None => values@.len() == 0 && final(random).stream() == old(random).stream(),
        },
{
    if values.len() == 0 {
        return None;
    }
    let mut best: i64 = values[0];
    let mut i: usize = 1;
    while i < values.len()
        invariant
            1 <= i <= values@.len(),
            *random == *old(random),
            exists|t: int| 0 <= t < i && values@[t] == best,
            forall|t: int| 0 <= t < i ==> values@[t] <= best,
        decreases values@.len() - i,
    {
        if values[i] > best {
            best = values[i];
        }
        i += 1;
    }
    proof {
        assert(values@.take(0) =~= Seq::<i64>::empty());
    }
    let mut count: u64 = 0;
    let mut t: usize = 0;
    while t < values.len()
        invariant
            t <= values@.len(),
            *random == *old(random),
            count == spec_count_eq(values@.take(t as int), best),
            count <= t,
            exists|w: int| 0 <= w < values@.len() && values@[w] == best,
            forall|w: int| 0 <= w < values@.len() ==> values@[w] <= best,
        decreases values@.len() - t,
    {
        proof {
            lemma_count_eq_take_succ(values@, best, t as int);
        }
        if values[t] == best {
            count = count + 1;
        }
        t += 1;
    }
    proof {
        assert(values@.take(values@.len() as int) =~= values@);
        let w = choose|w: int| 0 <= w < values@.len() && values@[w] == best;
        lemma_count_eq_witness(values@, best, w);
    }
    let pick = random.uniform_below(count);
    let mut seen: u64 = 0;
    let mut k: usize = 0;
    while k < values.len()
        invariant
            k <= values@.len(),
            random.stream() == spec_step(old(random).stream()),
            count as int == spec_count_eq(values@, best),
            pick as int == (spec_out(old(random).stream()) as int) % (count as int),
            seen == spec_count_eq(values@.take(k as int), best),
            seen <= pick,
            pick < spec_count_eq(values@, best),
            forall|w: int| 0 <= w < values@.len() ==> values@[w] <= best,
        decreases values@.len() - k,
    {
        proof {
            lemma_count_eq_take_succ(values@, best, k as int);
        }
        if values[k] == best {
            if seen == pick {
                return Some(k);
            }
            seen = seen + 1;
        }
        k += 1;
    }
    proof {
        assert(values@.take(values@.len() as int) =~= values@);
        assert(false);
    }
    None
}

/// A value attained in the sequence is counted at least once.
proof fn lemma_count_eq_witness(s: Seq<i64>, v: i64, w: int)
    requires
        0 <= w < s.len(),
        s[w] == v,
    ensures
        spec_count_eq(s, v) >= 1,
    decreases s.len(),
{
    lemma_count_eq_nonneg(s.drop_first(), v);
    if s[0] != v {
        lemma_count_eq_witness(s.drop_first(), v, w - 1);
    }
}

} // verus!
