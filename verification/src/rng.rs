//! Deterministic random source: uniform draws, weighted-index draws and
//! approximate normal draws, all reproducible from a fixed seed. Parallel
//! workers derive independent streams from a master stream instead of
//! sharing mutable state.

use vstd::prelude::*;

verus! {

/// Fixed-point scale: one unit of measure is `SCALE` micro-units.
pub const SCALE: u64 = 1_000_000;

/// Increment of the underlying splittable generator state.
pub const STREAM_GAMMA: u64 = 0x9E37_79B9_7F4A_7C15;

/// First finalization multiplier of the generator.
pub const MIX_A: u64 = 0xBF58_476D_1CE4_E5B9;

/// Second finalization multiplier of the generator.
pub const MIX_B: u64 = 0x94D0_49BB_1331_11EB;

/// Largest mean magnitude accepted by the normal draw (micro-units).
pub const NORMAL_MEAN_LIMIT: i64 = 1_000_000_000_000_000_000;

/// Largest variance accepted by the normal draw (micro-units).
pub const NORMAL_VAR_LIMIT: i64 = 5_000_000_000_000_000_000;

/// A normal draw lands within this distance of its mean (micro-units).
pub const NORMAL_SPREAD_LIMIT: i64 = 14_000_000_000_000;

/// Truncated-toward-zero division for a positive divisor, the rounding of
/// the fixed-point updates.
pub open spec fn spec_div_trunc(a: int, b: int) -> int {
    if a >= 0 {
        a / b
    } else {
        -((-a) / b)
    }
}

/// Sum of a weight vector.
pub open spec fn spec_sum_u64(s: Seq<u64>) -> int
    decreases s.len(),
{
    if s.len() == 0 {
        0
    } else {
        s[0] + spec_sum_u64(s.drop_first())
    }
}

/// Extending the summed prefix by one element adds that element.
proof fn lemma_sum_take_succ(s: Seq<u64>, i: int)
    requires
        0 <= i < s.len(),
    ensures
        spec_sum_u64(s.take(i + 1)) == spec_sum_u64(s.take(i)) + s[i],
    decreases i,
{
    if i == 0 {
        assert(s.take(1) =~= seq![s[0]]);
        assert(s.take(1).drop_first() =~= Seq::<u64>::empty());
        assert(s.take(0) =~= Seq::<u64>::empty());
    } else {
        lemma_sum_take_succ(s.drop_first(), i - 1);
        assert(s.take(i + 1).drop_first() =~= s.drop_first().take(i));
        assert(s.take(i).drop_first() =~= s.drop_first().take(i - 1));
        assert(s.take(i + 1)[0] == s[0] && s.take(i)[0] == s[0]);
        assert(s.drop_first()[i - 1] == s[i]);
    }
}

/// A sum of `u64` weights is non-negative and bounded by count times the
/// largest weight value.
proof fn lemma_sum_bounds(s: Seq<u64>)
    ensures
        0 <= spec_sum_u64(s) <= s.len() * (u64::MAX as int),
    decreases s.len(),
{
    if s.len() > 0 {
        lemma_sum_bounds(s.drop_first());
        assert(s.len() * (u64::MAX as int) == (s.len() - 1) * (u64::MAX as int) + (
        u64::MAX as int)) by (nonlinear_arith);
    }
}

/// Prefix sums of weights grow with the prefix.
proof fn lemma_sum_take_mono(w: Seq<u64>, a: int, b: int)
    requires
        0 <= a <= b <= w.len(),
    ensures
        spec_sum_u64(w.take(a)) <= spec_sum_u64(w.take(b)),
    decreases b - a,
{
    if a < b {
        lemma_sum_take_succ(w, a);
        lemma_sum_take_mono(w, a + 1, b);
    }
}

/// Law: prefix-sum windows of a weight vector are disjoint, so the drawn
/// value determines the chosen index: two calls on equal weights and an
/// equal stream position pick the same index.
pub proof fn lemma_weighted_window_unique(w: Seq<u64>, u: int, i: int, j: int)
    requires
        0 <= i < w.len(),
        0 <= j < w.len(),
        spec_sum_u64(w.take(i)) <= u < spec_sum_u64(w.take(i + 1)),
        spec_sum_u64(w.take(j)) <= u < spec_sum_u64(w.take(j + 1)),
    ensures
        i == j,
{
    if i < j {
        lemma_sum_take_mono(w, i + 1, j);
    }
    if j < i {
        lemma_sum_take_mono(w, j + 1, i);
    }
}

/// The product of two word-sized values fits in a double word.
proof fn lemma_u64_mul_fits(a: u64, b: u64)
    ensures
        (a as int) * (b as int) <= u128::MAX as int,
{
    assert((a as int) * (b as int) <= (u64::MAX as int) * (u64::MAX as int)) by (nonlinear_arith)
        requires
            0 <= a <= u64::MAX && 0 <= b <= u64::MAX,
    ;
    assert((u64::MAX as int) * (u64::MAX as int) <= u128::MAX as int) by (nonlinear_arith);
}

/// State after one raw draw: the stream position advances by a fixed odd
/// increment.
pub closed spec fn spec_step(s: u64) -> u64 {
    (((s as int) + (STREAM_GAMMA as int)) % 0x1_0000_0000_0000_0000) as u64
}

/// Output of one raw draw taken from stream position `s`: the mixed image
/// of the advanced position.
pub closed spec fn spec_out(s: u64) -> u64 {
    let s1 = spec_step(s);
    let z0 = s1 ^ (s1 >> 30);
    let z1 = (((z0 as int) * (MIX_A as int)) % 0x1_0000_0000_0000_0000) as u64;
    let z2 = z1 ^ (z1 >> 27);
    let z3 = (((z2 as int) * (MIX_B as int)) % 0x1_0000_0000_0000_0000) as u64;
    z3 ^ (z3 >> 31)
}

/// Stream position after `n` raw draws.
pub closed spec fn spec_step_n(s: u64, n: nat) -> u64
    decreases n,
{
    if n == 0 {
        s
    } else {
        spec_step_n(spec_step(s), (n - 1) as nat)
    }
}

/// Sum of `n` successive draws, each reduced below the fixed-point scale.
pub closed spec fn spec_scaled_chain_sum(s: u64, n: nat) -> int
    decreases n,
{
    if n == 0 {
        0
    } else {
        (spec_out(s) % SCALE) + spec_scaled_chain_sum(spec_step(s), (n - 1) as nat)
    }
}

/// One more draw extends the chain by the output at the reached position.
proof fn lemma_chain_succ(s: u64, n: nat)
    ensures
        spec_step_n(s, n + 1) == spec_step(spec_step_n(s, n)),
        spec_scaled_chain_sum(s, n + 1) == spec_scaled_chain_sum(s, n) + (spec_out(
            spec_step_n(s, n),
        ) % SCALE),
    decreases n,
{
    if n == 0 {
        assert(spec_step_n(s, 1) == spec_step_n(spec_step(s), 0));
        assert(spec_scaled_chain_sum(s, 1) == (spec_out(s) % SCALE) + spec_scaled_chain_sum(
            spec_step(s),
            0,
        ));
    } else {
        lemma_chain_succ(spec_step(s), (n - 1) as nat);
        assert(spec_step_n(s, n + 1) == spec_step_n(spec_step(s), n));
        assert(spec_step_n(s, n) == spec_step_n(spec_step(s), (n - 1) as nat));
        assert(spec_scaled_chain_sum(s, n + 1) == (spec_out(s) % SCALE)
            + spec_scaled_chain_sum(spec_step(s), n));
        assert(spec_scaled_chain_sum(s, n) == (spec_out(s) % SCALE) + spec_scaled_chain_sum(
            spec_step(s),
            (n - 1) as nat,
        ));
    }
}

/// `r` is the floor of the square root of `x`.
pub open spec fn spec_is_isqrt(r: int, x: int) -> bool {
    0 <= r && r * r <= x && x < (r + 1) * (r + 1)
}

/// Floor of the square root.
pub open spec fn spec_isqrt(x: int) -> int {
    choose|r: int| spec_is_isqrt(r, x)
}

/// The floor square root is unique.
proof fn lemma_isqrt_unique(x: int, a: int, b: int)
    requires
        0 <= a,
        0 <= b,
        a * a <= x < (a + 1) * (a + 1),
        b * b <= x < (b + 1) * (b + 1),
    ensures
        a == b,
{
    if a < b {
        assert((a + 1) * (a + 1) <= b * b) by (nonlinear_arith)
            requires
                0 <= a && a + 1 <= b,
        ;
    }
    if b < a {
        assert((b + 1) * (b + 1) <= a * a) by (nonlinear_arith)
            requires
                0 <= b && b + 1 <= a,
        ;
    }
}

/// A deterministic pseudo-random source. The generator is a splittable
/// 64-bit mixer: the state advances by a fixed odd increment and the output
/// is a bijective finalizer of the state, so distinct seeds give distinct
/// streams. Every draw is an exact function of the stream position, so
/// equal seeds provably reproduce equal streams.
#[derive(Debug)]
pub struct DeterministicRandom {
    state: u64,
}

impl DeterministicRandom {
    /// The current stream position.
    pub closed spec fn stream(&self) -> u64 {
        self.state
    }

    /// The stream determined by `seed`; equal seeds reproduce equal draws.
    pub fn with_seed(seed: u64) -> (r: DeterministicRandom)
        ensures
            r.stream() == seed,
    {
        DeterministicRandom { state: seed }
    }

    /// An independent stream for a parallel worker, derived from this
    /// stream's next draw; the master stream advances.
    pub fn fork(&mut self) -> (r: DeterministicRandom)
        ensures
            final(self).stream() == spec_step(old(self).stream()),
            r.stream() == spec_out(old(self).stream()) ^ MIX_B,
    {
        let seed = self.next_u64();
        DeterministicRandom { state: seed ^ MIX_B }
    }

    /// One raw draw.
    fn next_u64(&mut self) -> (r: u64)
        ensures
            final(self).stream() == spec_step(old(self).stream()),
            r == spec_out(old(self).stream()),
    {
        let s = (((self.state as u128) + (STREAM_GAMMA as u128))
            % 0x1_0000_0000_0000_0000u128) as u64;
        self.state = s;
        proof {
            assert(s == spec_step(old(self).stream()));
        }
        let z0 = s ^ (s >> 30);
        proof {
            lemma_u64_mul_fits(z0, MIX_A);
        }
        let z1 = (((z0 as u128) * (MIX_A as u128)) % 0x1_0000_0000_0000_0000u128) as u64;
        let z2 = z1 ^ (z1 >> 27);
        proof {
            lemma_u64_mul_fits(z2, MIX_B);
        }
        let z3 = (((z2 as u128) * (MIX_B as u128)) % 0x1_0000_0000_0000_0000u128) as u64;
        z3 ^ (z3 >> 31)
    }

    /// Uniform draw below `n`.
    pub fn uniform_below(&mut self, n: u64) -> (r: u64)
        requires
            n > 0,
        ensures
            r < n,
            r == spec_out(old(self).stream()) % n,
            final(self).stream() == spec_step(old(self).stream()),
    {
        self.next_u64() % n
    }

    /// The double-word value drawn by two successive raw draws from
    /// position `s`.
    pub closed spec fn spec_wide_out(s: u64) -> int {
        (spec_out(s) as int) * 0x1_0000_0000_0000_0000 + (spec_out(spec_step(s)) as int)
    }

    /// Uniform draw below `n`, for totals wider than one word.
    fn uniform_u128_below(&mut self, n: u128) -> (r: u128)
        requires
            n > 0,
        ensures
            r < n,
            r as int == Self::spec_wide_out(old(self).stream()) % (n as int),
            final(self).stream() == spec_step_n(old(self).stream(), 2),
    {
        let hi = self.next_u64() as u128;
        let lo = self.next_u64() as u128;
        let wide = hi * 0x1_0000_0000_0000_0000u128 + lo;
        proof {
            assert(spec_step_n(old(self).stream(), 2) == spec_step(
                spec_step(old(self).stream()),
            )) by {
                lemma_chain_succ(old(self).stream(), 1);
                lemma_chain_succ(old(self).stream(), 0);
            }
        }
        wide % n
    }

    /// Weighted index draw: the chance of index `i` is proportional to
    /// `weights[i]`. An index of weight zero is never drawn, and the chosen
    /// index is the exact function of the stream position and the weights:
    /// the one whose prefix-sum window holds the drawn value.
    #[verifier::rlimit(30)]
    pub fn weighted(&mut self, weights: &Vec<u64>) -> (r: usize)
        requires
            spec_sum_u64(weights@) > 0,
        ensures
            r < weights@.len(),
            weights@[r as int] > 0,
            final(self).stream() == spec_step_n(old(self).stream(), 2),
            ({
                let u = Self::spec_wide_out(old(self).stream()) % spec_sum_u64(weights@);
                spec_sum_u64(weights@.take(r as int)) <= u < spec_sum_u64(
                    weights@.take(r as int + 1),
                )
            }),
    {
        proof {
            lemma_sum_bounds(weights@);
            assert(weights@.take(0) =~= Seq::<u64>::empty());
        }
        let mut total: u128 = 0;
        let mut i: usize = 0;
        while i < weights.len()
            invariant
                i <= weights@.len(),
                *self == *old(self),
                total == spec_sum_u64(weights@.take(i as int)),
                total <= (i as int) * (u64::MAX as int),
            decreases weights@.len() - i,
        {
            proof {
                lemma_sum_take_succ(weights@, i as int);
                lemma_sum_bounds(weights@.take(i as int));
                assert((i as int) * (u64::MAX as int) + (u64::MAX as int) == ((i + 1) as int) * (
                u64::MAX as int)) by (nonlinear_arith);
                assert(((i + 1) as int) * (u64::MAX as int) <= (usize::MAX as int) * (
                u64::MAX as int)) by (nonlinear_arith)
                    requires
                        0 <= i < usize::MAX,
                ;
            }
            total = total + (weights[i] as u128);
            i += 1;
        }
        proof {
            assert(weights@.take(weights@.len() as int) =~= weights@);
        }
        let u = self.uniform_u128_below(total);
        let mut acc: u128 = 0;
        let mut idx: usize = 0;
        while idx < weights.len()
            invariant
                idx <= weights@.len(),
                acc == spec_sum_u64(weights@.take(idx as int)),
                acc <= u,
                u < total,
                total == spec_sum_u64(weights@),
                u as int == Self::spec_wide_out(old(self).stream()) % spec_sum_u64(weights@),
                self.stream() == spec_step_n(old(self).stream(), 2),
            decreases weights@.len() - idx,
        {
            proof {
                lemma_sum_take_succ(weights@, idx as int);
                lemma_sum_bounds(weights@);
                assert(spec_sum_u64(weights@) <= (usize::MAX as int) * (u64::MAX as int))
                    by (nonlinear_arith)
                    requires
                        spec_sum_u64(weights@) <= weights@.len() * (u64::MAX as int) && weights@
                            .len() <= usize::MAX,
                ;
                assert((usize::MAX as int) * (u64::MAX as int) + (u64::MAX as int)
                    <= u128::MAX as int) by (nonlinear_arith);
            }
            let w = weights[idx] as u128;
            if u < acc + w {
                return idx;
            }
            acc = acc + w;
            idx += 1;
        }
        proof {
            assert(weights@.take(weights@.len() as int) =~= weights@);
            assert(false);
        }
        0
    }

    /// Approximately normal draw around `mean` with variance `var` (both in
    /// micro-units): the sum of twelve uniform draws, shifted and scaled by
    /// the square root of the variance. The result is always a well-defined
    /// value within a fixed spread of the mean, and an exact function of
    /// the stream position and the arguments.
    pub fn normal_fp(&mut self, mean: i64, var: i64) -> (r: i64)
        requires
            -NORMAL_MEAN_LIMIT <= mean <= NORMAL_MEAN_LIMIT,
            0 <= var <= NORMAL_VAR_LIMIT,
        ensures
            mean - NORMAL_SPREAD_LIMIT <= r <= mean + NORMAL_SPREAD_LIMIT,
            final(self).stream() == spec_step_n(old(self).stream(), 12),
            r as int == ({
                let z = spec_scaled_chain_sum(old(self).stream(), 12) - 6 * (SCALE as int);
                let sigma = spec_isqrt((var as int) * (SCALE as int));
                if z >= 0 {
                    mean + z * sigma / (SCALE as int)
                } else {
                    mean - (-z) * sigma / (SCALE as int)
                }
            }),
    {
        let mut acc: u64 = 0;
        let mut k: usize = 0;
        while k < 12
            invariant
                k <= 12,
                acc <= (k as int) * ((SCALE - 1) as int),
                self.stream() == spec_step_n(old(self).stream(), k as nat),
                acc as int == spec_scaled_chain_sum(old(self).stream(), k as nat),
            decreases 12 - k,
        {
            let d = self.uniform_below(SCALE);
            proof {
                assert((k as int) * ((SCALE - 1) as int) + ((SCALE - 1) as int) == ((k + 1) as int)
                    * ((SCALE - 1) as int)) by (nonlinear_arith);
                assert(acc <= 11 * ((SCALE - 1) as int)) by (nonlinear_arith)
                    requires
                        acc <= (k as int) * ((SCALE - 1) as int) && 0 <= k <= 11,
                ;
                lemma_chain_succ(old(self).stream(), k as nat);
            }
            acc = acc + d;
            k += 1;
        }
        let z: i64 = (acc as i64) - 6 * (SCALE as i64);
        let sigma = isqrt_u128((var as u128) * (SCALE as u128));
        proof {
            assert((sigma as int) * (sigma as int) <= (NORMAL_VAR_LIMIT as int) * (SCALE as int));
            assert(sigma <= 2_300_000_000_000u64) by (nonlinear_arith)
                requires
                    (sigma as int) * (sigma as int) <= (NORMAL_VAR_LIMIT as int) * (SCALE as int),
            ;
        }
        let m: u64 = if z >= 0 {
            z as u64
        } else {
            (-z) as u64
        };
        proof {
            assert(m <= 6 * SCALE);
            assert((m as int) * (sigma as int) <= (6 * SCALE as int) * (sigma as int))
                by (nonlinear_arith)
                requires
                    0 <= m <= 6 * (SCALE as int) && 0 <= sigma,
            ;
            assert((6 * SCALE as int) * (sigma as int) == (6 * (sigma as int)) * (SCALE as int))
                by (nonlinear_arith);
            assert((6 * (sigma as int)) * (SCALE as int) <= 13_800_000_000_000int * (
            SCALE as int)) by (nonlinear_arith)
                requires
                    sigma <= 2_300_000_000_000u64,
            ;
        }
        let spread: u128 = ((m as u128) * (sigma as u128)) / (SCALE as u128);
        proof {
            vstd::arithmetic::div_mod::lemma_div_is_ordered(
                (m as int) * (sigma as int),
                (6 * (sigma as int)) * (SCALE as int),
                SCALE as int,
            );
            vstd::arithmetic::div_mod::lemma_div_by_multiple(6 * (sigma as int), SCALE as int);
            assert(spread as int <= 6 * (sigma as int));
            assert(spread <= (NORMAL_SPREAD_LIMIT as u128));
        }
        if z >= 0 {
            mean + (spread as i64)
        } else {
            mean - (spread as i64)
        }
    }
}

/// Floor of the square root.
pub fn isqrt_u128(x: u128) -> (r: u64)
    ensures
        (r as int) * (r as int) <= x as int,
        (x as int) < ((r as int) + 1) * ((r as int) + 1),
        r as int == spec_isqrt(x as int),
{
    let mut lo: u128 = 0;
    let mut hi: u128 = 0x1_0000_0000_0000_0000u128;
    proof {
        assert((hi as int) * (hi as int) > u128::MAX as int) by (nonlinear_arith)
            requires
                hi == 0x1_0000_0000_0000_0000u128,
        ;
    }
    while lo + 1 < hi
        invariant
            lo < hi,
            hi <= 0x1_0000_0000_0000_0000u128,
            (lo as int) * (lo as int) <= x as int,
            (x as int) < (hi as int) * (hi as int),
        decreases hi - lo,
    {
        let mid = lo + (hi - lo) / 2;
        proof {
            assert(lo < mid < hi);
            assert((mid as int) * (mid as int) < u128::MAX as int) by (nonlinear_arith)
                requires
                    0 < mid < 0x1_0000_0000_0000_0000u128,
            ;
        }
        if mid * mid <= x {
            lo = mid;
        } else {
            hi = mid;
        }
    }
    proof {
        assert(lo < 0x1_0000_0000_0000_0000u128);
        assert(lo <= u64::MAX as u128);
        assert(spec_is_isqrt(lo as int, x as int));
        let c = spec_isqrt(x as int);
        assert(spec_is_isqrt(c, x as int));
        lemma_isqrt_unique(x as int, lo as int, c);
    }
    lo as u64
}

} // verus!
