//! Parent selection: rank-biased random choice of a population member.
//! Top-ranked solutions are favoured exponentially (decay factor `e` per
//! rank) while every member keeps a nonzero chance, preserving diversity.

use vstd::prelude::*;

use crate::population::Population;
use crate::rng::{spec_step_n, spec_sum_u64, DeterministicRandom};
use crate::solution::Solution;

verus! {

/// The search state handed to a selection strategy: the ranked population
/// and the deterministic random stream of this worker.
#[derive(Debug)]
pub struct RefinementContext {
    pub population: Population,
    pub random: DeterministicRandom,
}

/// The rank weights of a population of `n` members: rank `i` (best first)
/// carries `round(100 * e^(n - 1 - i))`.
pub open spec fn spec_rank_weights(n: int) -> Seq<u64> {
    Seq::new(n as nat, |i: int| spec_rank_weight((n - 1 - i) as nat))
}

/// The rank drawn by a selection from a population of `n` members at stream
/// position `s`: the unique rank whose prefix-sum window holds the weighted
/// draw.
pub open spec fn spec_selected_rank(n: int, s: u64, r: int) -> bool {
    let w = spec_rank_weights(n);
    let u = DeterministicRandom::spec_wide_out(s) % spec_sum_u64(w);
    &&& 0 <= r < n
    &&& spec_sum_u64(w.take(r)) <= u < spec_sum_u64(w.take(r + 1))
}

/// Weight of the member `k` ranks away from the worst: `round(100 * e^k)`,
/// saturating at the top of the word once the exponential no longer fits.
pub open spec fn spec_rank_weight(k: nat) -> u64 {
    if k == 0 {
        100
    } else if k == 1 {
        272
    } else if k == 2 {
        739
    } else if k == 3 {
        2009
    } else if k == 4 {
        5460
    } else if k == 5 {
        14841
    } else if k == 6 {
        40343
    } else if k == 7 {
        109663
    } else if k == 8 {
        298096
    } else if k == 9 {
        810308
    } else if k == 10 {
        2202647
    } else if k == 11 {
        5987414
    } else if k == 12 {
        16275479
    } else if k == 13 {
        44241339
    } else if k == 14 {
        120260428
    } else if k == 15 {
        326901737
    } else if k == 16 {
        888611052
    } else if k == 17 {
        2415495275
    } else if k == 18 {
        6565996914
    } else if k == 19 {
        17848230096
    } else if k == 20 {
        48516519541
    } else if k == 21 {
        131881573448
    } else if k == 22 {
        358491284613
    } else if k == 23 {
        974480344625
    } else if k == 24 {
        2648912212984
    } else if k == 25 {
        7200489933739
    } else if k == 26 {
        19572960942884
    } else if k == 27 {
        53204824060180
    } else if k == 28 {
        144625706429148
    } else if k == 29 {
        393133429714404
    } else if k == 30 {
        1068647458152446
    } else if k == 31 {
        2904884966524742
    } else if k == 32 {
        7896296018268069
    } else if k == 33 {
        21464357978591608
    } else if k == 34 {
        58346174252745488
    } else if k == 35 {
        158601345231343072
    } else if k == 36 {
        431123154711519488
    } else if k == 37 {
        1171914237280261120
    } else if k == 38 {
        3185593175711375360
    } else if k == 39 {
        8659340042399374336
    } else {
        u64::MAX
    }
}

/// Table lookup for `spec_rank_weight`.
fn rank_weight(k: usize) -> (r: u64)
    ensures
        r == spec_rank_weight(k as nat),
        r >= 100,
{
    let table: [u64; 40] = [
        100,
        272,
        739,
        2009,
        5460,
        14841,
        40343,
        109663,
        298096,
        810308,
        2202647,
        5987414,
        16275479,
        44241339,
        120260428,
        326901737,
        888611052,
        2415495275,
        6565996914,
        17848230096,
        48516519541,
        131881573448,
        358491284613,
        974480344625,
        2648912212984,
        7200489933739,
        19572960942884,
        53204824060180,
        144625706429148,
        393133429714404,
        1068647458152446,
        2904884966524742,
        7896296018268069,
        21464357978591608,
        58346174252745488,
        158601345231343072,
        431123154711519488,
        1171914237280261120,
        3185593175711375360,
        8659340042399374336,
    ];
    if k < 40 {
        let r = table[k];
        proof {
            assert(table@[k as int] == spec_rank_weight(k as nat));
        }
        r
    } else {
        u64::MAX
    }
}

/// Rank-biased random selection of a parent solution.
#[derive(Debug)]
pub struct SelectRandom {}

impl Default for SelectRandom {
    /// Same as `new`.
    fn default() -> (r: Self)
        ensures
            r == (SelectRandom {  }),
    {
        Self::new()
    }
}

impl SelectRandom {
    /// A fresh strategy value; the strategy itself is stateless.
    pub fn new() -> (r: SelectRandom)
        ensures
            r == (SelectRandom {  }),
    {
        SelectRandom {  }
    }

    /// Draws a rank: the member of rank `i` (best first) carries weight
    /// `round(100 * e^(size - 1 - i))`, so each step down the ranking
    /// divides the weight by `e` and the worst member still keeps weight
    /// 100.
    fn get_index(refinement_ctx: &mut RefinementContext) -> (r: usize)
        requires
            old(refinement_ctx).population.members().len() >= 1,
        ensures
            r < old(refinement_ctx).population.members().len(),
            final(refinement_ctx).population == old(refinement_ctx).population,
            final(refinement_ctx).random.stream() == spec_step_n(
                old(refinement_ctx).random.stream(),
                2,
            ),
            spec_selected_rank(
                old(refinement_ctx).population.members().len() as int,
                old(refinement_ctx).random.stream(),
                r as int,
            ),
    {
        let size = refinement_ctx.population.size();
        let mut weights: Vec<u64> = Vec::new();
        let mut i: usize = 0;
        while i < size
            invariant
                i <= size,
                size == refinement_ctx.population.members().len(),
                refinement_ctx == old(refinement_ctx),
                weights@.len() == i,
                forall|t: int|
                    0 <= t < i ==> (#[trigger] weights@[t]) == spec_rank_weight(
                        (size - 1 - t) as nat,
                    ) && weights@[t] >= 100,
            decreases size - i,
        {
            weights.push(rank_weight(size - 1 - i));
            i += 1;
        }
        proof {
            lemma_sum_at_least_first(weights@);
            assert(weights@ =~= spec_rank_weights(size as int));
        }
        refinement_ctx.random.weighted(&weights)
    }

    /// Selects one member at a rank-biased random rank and hands back a deep
    /// copy: the caller may mutate it freely, no solution still held by the
    /// population is affected, and the population itself is unchanged.
    pub fn select(&self, refinement_ctx: &mut RefinementContext) -> (r: Solution)
        requires
            old(refinement_ctx).population.members().len() >= 1,
        ensures
            final(refinement_ctx).population == old(refinement_ctx).population,
            final(refinement_ctx).random.stream() == spec_step_n(
                old(refinement_ctx).random.stream(),
                2,
            ),
            exists|i: int|
                #[trigger] spec_selected_rank(
                    old(refinement_ctx).population.members().len() as int,
                    old(refinement_ctx).random.stream(),
                    i,
                ) && r@ == old(refinement_ctx).population.members()[i]@,
    {
        let index = Self::get_index(refinement_ctx);
        let chosen = refinement_ctx.population.get(index);
        let copy = chosen.deep_copy();
        proof {
            assert(copy@ == old(refinement_ctx).population.members()[index as int]@);
        }
        copy
    }
}

/// A nonempty weight vector of positive entries has a positive sum.
proof fn lemma_sum_at_least_first(s: Seq<u64>)
    requires
        s.len() >= 1,
        s[0] >= 100,
    ensures
        spec_sum_u64(s) >= 100,
{
    lemma_sum_nonneg(s.drop_first());
}

/// Weight sums never go negative.
proof fn lemma_sum_nonneg(s: Seq<u64>)
    ensures
        spec_sum_u64(s) >= 0,
    decreases s.len(),
{
    if s.len() > 0 {
        lemma_sum_nonneg(s.drop_first());
    }
}

} // verus!
