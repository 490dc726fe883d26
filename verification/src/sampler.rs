//! From scores to a token.
//!
//! With temperature zero the sampler is greedy: it takes the token with the
//! highest logit and draws nothing. Otherwise it tosses a coin, one draw of
//! its generator, and leaves it to the caller to turn the logits into
//! probabilities; with these and the coin it then picks the token, either
//! from the whole distribution or from its nucleus, the smallest set of
//! most probable tokens whose share exceeds the threshold `topp`.
//!
//! Logits, probabilities, temperature and threshold are bit patterns of
//! singles. Probabilities are weighed as 32-bit fixed-point fractions, and
//! the coin is a 24-bit numerator: the arithmetic of a pick is exact.

use vstd::prelude::*;
use crate::error::EngineError;
use vstd::arithmetic::power2::pow2;
use crate::ieee::{
    at_least_one, at_most_zero, exponent, fixed, greater, gt, is_nan, is_zero, rank, scale,
    significand, to_fixed, unit_fraction, zero, ONE,
};

verus! {

/// The multiplier of the generator's output.
pub const SCRAMBLER: u64 = 0x2545_F491_4F6C_DD1D;

/// One more than the largest coin: a coin is the numerator of a fraction of
/// 24 bits.
pub const COIN_RANGE: u32 = 0x100_0000;

/// The state that follows `state` in the xorshift sequence.
pub open spec fn xorshift(state: u64) -> u64 {
    let a = state ^ (state >> 12);
    let b = a ^ (a << 25);
    b ^ (b >> 27)
}

/// The 32 bits that a state gives out: the upper half of its product with
/// the scrambler, taken modulo two to the 64th.
pub open spec fn scramble(state: u64) -> u32 {
    (((state as int * SCRAMBLER as int) % 0x1_0000_0000_0000_0000) / 0x1_0000_0000) as u32
}

/// The index of the greatest among the first `n` logits, the lowest such
/// index where several are equal. A logit that is not a number is never
/// greater and never less.
pub open spec fn argmax(logits: Seq<u32>, n: int) -> int
    decreases n,
{
    if n <= 1 {
        0
    } else {
        let best = argmax(logits, n - 1);
        if greater(logits[n - 1], logits[best]) {
            n - 1
        } else {
            best
        }
    }
}

/// A candidate token with its probability, as a 32-bit fixed-point
/// fraction.
#[derive(Clone, Copy, Debug, PartialEq, Eq, Structural)]
pub struct ProbeIndex {
    pub prob: u32,
    pub index: u32,
}

/// What the sampler answers to a vector of logits.
#[derive(Clone, Copy, Debug, PartialEq, Eq, Structural)]
pub enum Draw {
    /// The token is chosen.
    Token(u32),
    /// A coin was tossed: the token is the one that `pick` gives for this
    /// coin and the probabilities of the logits at the sampler's
    /// temperature.
    Toss { coin: u32 },
}

/// The sampler's settings, its generator, and the list of candidates that
/// picks work in.
#[derive(Debug)]
pub struct Sampler {
    pub vocab_size: u32,
    pub prob_index: Vec<ProbeIndex>,
    pub temperature: u32,
    pub topp: u32,
    pub rng_state: u64,
}

impl Sampler {
    /// Whether the sampler is greedy: its temperature is zero.
    pub open spec fn greedy(&self) -> bool {
        is_zero(self.temperature)
    }

    /// Whether picks are made from the whole distribution: the threshold is
    /// at most zero, or at least one.
    pub open spec fn unfiltered(&self) -> bool {
        !is_nan(self.topp) && (rank(self.topp) <= 0 || rank(self.topp) >= ONE)
    }

    /// A sampler over `vocab_size` tokens. Temperature and threshold are
    /// bit patterns of singles; the seed is the generator's first state.
    pub fn new(vocab_size: u32, temperature: u32, topp: u32, rng_seed: u64) -> (sampler: Self)
        ensures
            sampler.vocab_size == vocab_size,
            sampler.temperature == temperature,
            sampler.topp == topp,
            sampler.rng_state == rng_seed,
            sampler.prob_index@.len() == 0,
    {
        Self {
            vocab_size,
            prob_index: Vec::with_capacity(vocab_size as usize),
            temperature,
            topp,
            rng_state: rng_seed,
        }
    }

    /// Advances the generator by one state and gives out its 32 bits.
    pub fn random_u32(state: &mut u64) -> (out: u32)
        ensures
            *final(state) == xorshift(*old(state)),
            out == scramble(*final(state)),
    {
        let mut x: u64 = *state;
        x ^= x >> 12;
        x ^= x << 25;
        x ^= x >> 27;
        *state = x;
        let product: u64 = x.wrapping_mul(SCRAMBLER);
        let high: u64 = product >> 32;
        assert(high == product / 0x1_0000_0000 && high <= 0xFFFF_FFFF) by (bit_vector)
            requires
                high == product >> 32,
        ;
        high as u32
    }

    /// Advances the generator by one state and gives out a number from zero
    /// up to, not including, one: the pattern of the single that is the
    /// upper 24 of the 32 bits over two to the 24th.
    pub fn random_f32(state: &mut u64) -> (bits: u32)
        ensures
            *final(state) == xorshift(*old(state)),
            bits < ONE,
            scramble(*final(state)) / 0x100 == 0 ==> bits == 0,
            scramble(*final(state)) / 0x100 > 0 ==> exponent(bits) >= 1,
            significand(bits) * pow2(24) == (scramble(*final(state)) / 0x100) * pow2(scale(bits)),
    {
        let out: u32 = Self::random_u32(state);
        unit_fraction(out / 0x100)
    }

    /// Answers a vector of logits.
    ///
    /// A greedy sampler chooses the token of the greatest logit, the lowest
    /// index among equals, and leaves its generator alone; without any
    /// logit it fails with `DegenerateDistribution`. Any other sampler
    /// advances its generator by one state and hands out the upper 24 of
    /// its 32 bits as the coin.
    pub fn sample(&mut self, logits: &[u32]) -> (drawn: Result<Draw, EngineError>)
        requires
            logits@.len() == old(self).vocab_size,
        ensures
            final(self).vocab_size == old(self).vocab_size,
            final(self).temperature == old(self).temperature,
            final(self).topp == old(self).topp,
            final(self).prob_index == old(self).prob_index,
            old(self).greedy() ==> {
                &&& final(self).rng_state == old(self).rng_state
                &&& logits@.len() == 0 ==> drawn == Err::<Draw, EngineError>(
                    EngineError::DegenerateDistribution,
                )
                &&& logits@.len() > 0 ==> drawn == Ok::<Draw, EngineError>(
                    Draw::Token(argmax(logits@, logits@.len() as int) as u32),
                )
            },
            !old(self).greedy() ==> {
                &&& final(self).rng_state == xorshift(old(self).rng_state)
                &&& drawn == Ok::<Draw, EngineError>(
                    Draw::Toss { coin: scramble(final(self).rng_state) / 0x100 },
                )
            },
    {
        if zero(self.temperature) {
            if logits.len() == 0 {
                return Err(EngineError::DegenerateDistribution);
            }
            Ok(Draw::Token(sample_argmax(logits) as u32))
        } else {
            let bits: u32 = Self::random_u32(&mut self.rng_state);
            Ok(Draw::Toss { coin: bits / 0x100 })
        }
    }
}

/// The index of the greatest logit, the lowest such index where several are
/// equal.
pub fn sample_argmax(logits: &[u32]) -> (best: usize)
    requires
        logits@.len() >= 1,
    ensures
        best == argmax(logits@, logits@.len() as int),
        best < logits@.len(),
{
    let mut best: usize = 0;
    let mut i: usize = 1;
    while i < logits.len()
        invariant
            1 <= i <= logits@.len(),
            best < i,
            best == argmax(logits@, i as int),
        decreases logits@.len() - i,
    {
        if gt(logits[i], logits[best]) {
            best = i;
        }
        i += 1;
    }
    best
}

/// Where no logit is not a number, the greedy choice is a greatest logit,
/// and every logit before it is smaller.
pub proof fn lemma_argmax_is_greatest(logits: Seq<u32>, n: int)
    requires
        1 <= n <= logits.len(),
        forall|i: int| 0 <= i < n ==> !is_nan(#[trigger] logits[i]),
    ensures
        0 <= argmax(logits, n) < n,
        forall|i: int| 0 <= i < n ==> rank(#[trigger] logits[i]) <= rank(logits[argmax(logits, n)]),
        forall|i: int|
            0 <= i < argmax(logits, n) ==> rank(#[trigger] logits[i]) < rank(
                logits[argmax(logits, n)],
            ),
    decreases n,
{
    if n > 1 {
        lemma_argmax_is_greatest(logits, n - 1);
    }
}

/// The probabilities as fixed-point weights.
pub open spec fn weights(probs: Seq<u32>) -> Seq<int> {
    Seq::new(probs.len(), |i: int| fixed(probs[i]))
}

/// The sum of the first `n` weights.
pub open spec fn prefix_sum(w: Seq<int>, n: int) -> int
    decreases n,
{
    if n <= 0 {
        0
    } else {
        prefix_sum(w, n - 1) + w[n - 1]
    }
}

/// The sum of the weights up to and including that of index `k`.
pub open spec fn through(w: Seq<int>, k: int) -> int {
    prefix_sum(w, k + 1)
}

/// The sum of all weights.
pub open spec fn total(w: Seq<int>) -> int {
    prefix_sum(w, w.len() as int)
}

/// The first index from `from` on up to which the weights add up to more
/// than `limit`; the last index where they never do.
pub open spec fn first_above(w: Seq<int>, limit: int, from: int) -> int
    decreases w.len() - from,
{
    if from >= w.len() - 1 {
        w.len() - 1
    } else if through(w, from) > limit {
        from
    } else {
        first_above(w, limit, from + 1)
    }
}

/// The share of `mass` that lies below the coin: the coin is the numerator
/// of a fraction of 24 bits.
pub open spec fn coin_target(coin: u32, mass: int) -> int {
    coin as int * mass / (COIN_RANGE as int)
}

/// The weight that the nucleus must exceed: the threshold's share of the
/// whole. A threshold that is not a number is never exceeded.
pub open spec fn nucleus_limit(topp: u32, mass: int) -> int {
    if is_nan(topp) {
        mass
    } else {
        fixed(topp) * mass / 0x1_0000_0000
    }
}

/// The candidates in the order of their tokens, as `pick` first lists them.
pub open spec fn entries(w: Seq<int>) -> Seq<ProbeIndex> {
    Seq::new(w.len(), |i: int| ProbeIndex { prob: w[i] as u32, index: i as u32 })
}

/// The weights of a list of candidates.
pub open spec fn candidates(order: Seq<ProbeIndex>) -> Seq<int> {
    Seq::new(order.len(), |k: int| order[k].prob as int)
}

/// Whether candidate `a` comes before candidate `b`: the more probable one
/// first, and of two equally probable ones the one with the lower index.
pub open spec fn precedes(a: ProbeIndex, b: ProbeIndex) -> bool {
    a.prob > b.prob || (a.prob == b.prob && a.index < b.index)
}

/// `order` lists every token once, each with its weight.
pub open spec fn arranges(order: Seq<ProbeIndex>, w: Seq<int>) -> bool {
    &&& order.len() == w.len()
    &&& forall|k: int|
        0 <= k < order.len() ==> (#[trigger] order[k]).index < w.len() && order[k].prob
            == w[order[k].index as int]
    &&& forall|j: int, k: int|
        0 <= j < k < order.len() ==> (#[trigger] order[j]).index != (#[trigger] order[k]).index
    &&& forall|i: int| 0 <= i < w.len() ==> #[trigger] listed(order, i)
}

/// Token `i` is among the candidates.
pub open spec fn listed(order: Seq<ProbeIndex>, i: int) -> bool {
    exists|k: int| #[trigger] holds(order, k, i)
}

/// Candidate `k` of `order` is token `i`.
pub open spec fn holds(order: Seq<ProbeIndex>, k: int, i: int) -> bool {
    0 <= k < order.len() && order[k].index == i
}

/// Each of the first `len` candidates comes before every candidate behind
/// it.
pub open spec fn ranked(order: Seq<ProbeIndex>, len: int) -> bool {
    forall|j: int, k: int|
        0 <= j < len && j < k < order.len() ==> precedes(#[trigger] order[j], #[trigger] order[k])
}

/// The last candidate of the nucleus: the first up to which the candidates
/// weigh more than the threshold's share of the whole.
pub open spec fn nucleus_cut(order: Seq<ProbeIndex>, topp: u32, mass: int) -> int {
    first_above(candidates(order), nucleus_limit(topp, mass), 0)
}

/// The weight of the nucleus.
pub open spec fn nucleus_mass(order: Seq<ProbeIndex>, topp: u32, mass: int) -> int {
    prefix_sum(candidates(order), nucleus_cut(order, topp, mass) + 1)
}

/// The candidate that the coin selects within the nucleus.
pub open spec fn nucleus_choice(order: Seq<ProbeIndex>, topp: u32, mass: int, coin: u32) -> int {
    first_above(
        candidates(order).take(nucleus_cut(order, topp, mass) + 1),
        coin_target(coin, nucleus_mass(order, topp, mass)),
        0,
    )
}

/// What `pick` leaves and returns for probabilities with some weight.
///
/// Unfiltered, the candidates stay in the order of their tokens and the
/// token is the first up to which the weights exceed the coin's share of
/// the whole. Otherwise the candidates are rearranged so that the nucleus
/// comes first, ranked, and the token is that of the first candidate up to
/// which the nucleus exceeds the coin's share of its own weight.
pub open spec fn picked(
    unfiltered: bool,
    topp: u32,
    probs: Seq<u32>,
    coin: u32,
    order: Seq<ProbeIndex>,
    token: u32,
) -> bool {
    let w = weights(probs);
    if unfiltered {
        &&& order == entries(w)
        &&& token == first_above(w, coin_target(coin, total(w)), 0)
    } else {
        &&& arranges(order, w)
        &&& ranked(order, nucleus_cut(order, topp, total(w)) + 1)
        &&& token == order[nucleus_choice(order, topp, total(w), coin)].index
    }
}

/// Every weight is a fraction of 32 bits, and the candidates listed in the
/// order of their tokens weigh what the tokens weigh.
pub proof fn lemma_weights_range(probs: Seq<u32>)
    ensures
        forall|i: int| 0 <= i < probs.len() ==> 0 <= #[trigger] weights(probs)[i] <= 0xFFFF_FFFF,
        candidates(entries(weights(probs))) == weights(probs),
{
    assert forall|i: int| 0 <= i < probs.len() implies 0 <= #[trigger] weights(probs)[i]
        <= 0xFFFF_FFFF by {
        crate::ieee::lemma_fixed_range(probs[i]);
    }
    assert(candidates(entries(weights(probs))) =~= weights(probs));
}

/// Sums of the same leading weights are the same.
pub proof fn lemma_prefix_sum_same(a: Seq<int>, b: Seq<int>, n: int)
    requires
        n <= a.len(),
        n <= b.len(),
        forall|i: int| 0 <= i < n ==> a[i] == b[i],
    ensures
        prefix_sum(a, n) == prefix_sum(b, n),
    decreases n,
{
    if n > 0 {
        lemma_prefix_sum_same(a, b, n - 1);
    }
}

/// A sum of fixed-point weights is bounded by their number.
pub proof fn lemma_prefix_sum_bounds(w: Seq<int>, n: int)
    requires
        0 <= n <= w.len(),
        forall|i: int| 0 <= i < n ==> 0 <= #[trigger] w[i] <= 0xFFFF_FFFF,
    ensures
        0 <= prefix_sum(w, n) <= n * 0xFFFF_FFFF,
        forall|m: int| 0 <= m <= n ==> prefix_sum(w, m) <= prefix_sum(w, n),
    decreases n,
{
    if n > 0 {
        lemma_prefix_sum_bounds(w, n - 1);
    }
}

/// The index that a scan stops at is `first_above`: nothing before it
/// exceeds the limit, and it does, or is the last.
pub proof fn lemma_first_above_found(w: Seq<int>, limit: int, from: int, found: int)
    requires
        0 <= from <= found < w.len(),
        forall|j: int| from <= j < found ==> #[trigger] through(w, j) <= limit,
        through(w, found) > limit || found == w.len() - 1,
    ensures
        first_above(w, limit, from) == found,
    decreases found - from,
{
    if from < found {
        lemma_first_above_found(w, limit, from + 1, found);
    }
}

/// `first_above` is an index of the weights at or behind `from`.
pub proof fn lemma_first_above_in_range(w: Seq<int>, limit: int, from: int)
    requires
        0 <= from < w.len(),
    ensures
        from <= first_above(w, limit, from) < w.len(),
    decreases w.len() - from,
{
    if from < w.len() - 1 && through(w, from) <= limit {
        lemma_first_above_in_range(w, limit, from + 1);
    }
}

/// Exchanging two candidates leaves every token listed once.
pub proof fn lemma_swap_arranges(order: Seq<ProbeIndex>, w: Seq<int>, a: int, b: int)
    requires
        arranges(order, w),
        0 <= a < order.len(),
        0 <= b < order.len(),
    ensures
        arranges(order.update(a, order[b]).update(b, order[a]), w),
{
    let swapped = order.update(a, order[b]).update(b, order[a]);
    assert forall|i: int| 0 <= i < w.len() implies #[trigger] listed(swapped, i) by {
        assert(listed(order, i));
        let k = choose|k: int| #[trigger] holds(order, k, i);
        if k == a {
            assert(holds(swapped, b, i));
        } else if k == b {
            assert(holds(swapped, a, i));
        } else {
            assert(holds(swapped, k, i));
        }
    }
}

/// What `first_above` says of its result: nothing before it exceeds the
/// limit, and it does, or is the last index.
pub proof fn lemma_first_above_least(w: Seq<int>, limit: int, from: int)
    requires
        0 <= from < w.len(),
    ensures
        from <= first_above(w, limit, from) < w.len(),
        forall|j: int| from <= j < first_above(w, limit, from) ==> #[trigger] through(w, j) <= limit,
        through(w, first_above(w, limit, from)) > limit || first_above(w, limit, from) == w.len()
            - 1,
    decreases w.len() - from,
{
    if from < w.len() - 1 && through(w, from) <= limit {
        lemma_first_above_least(w, limit, from + 1);
    }
}

/// Weights that are not negative and add up to more than nothing include a
/// positive one.
pub proof fn lemma_positive_sum_has_term(w: Seq<int>, n: int) -> (i: int)
    requires
        0 <= n <= w.len(),
        prefix_sum(w, n) > 0,
    ensures
        0 <= i < n,
        w[i] > 0,
    decreases n,
{
    if w[n - 1] > 0 {
        n - 1
    } else {
        lemma_positive_sum_has_term(w, n - 1)
    }
}

/// Weights that are not negative add up to at least each of them.
pub proof fn lemma_sum_covers_term(w: Seq<int>, n: int, k: int)
    requires
        0 <= k < n <= w.len(),
        forall|i: int| 0 <= i < n ==> 0 <= #[trigger] w[i],
    ensures
        prefix_sum(w, n) >= w[k],
        prefix_sum(w, n) >= 0,
    decreases n,
{
    if k < n - 1 {
        lemma_sum_covers_term(w, n - 1, k);
    } else {
        lemma_sum_nonnegative(w, n - 1);
    }
}

/// Weights that are not negative add up to nothing negative.
pub proof fn lemma_sum_nonnegative(w: Seq<int>, n: int)
    requires
        0 <= n <= w.len(),
        forall|i: int| 0 <= i < n ==> 0 <= #[trigger] w[i],
    ensures
        prefix_sum(w, n) >= 0,
    decreases n,
{
    if n > 0 {
        lemma_sum_nonnegative(w, n - 1);
    }
}

/// The nucleus never leaves out the most probable token: the first
/// candidate weighs at least as much as any token, and it is in the
/// nucleus whatever the threshold.
pub proof fn lemma_nucleus_keeps_top(order: Seq<ProbeIndex>, w: Seq<int>, topp: u32)
    requires
        w.len() >= 1,
        arranges(order, w),
        ranked(order, nucleus_cut(order, topp, total(w)) + 1),
    ensures
        0 <= nucleus_cut(order, topp, total(w)) < order.len(),
        forall|i: int| 0 <= i < w.len() ==> #[trigger] w[i] <= w[order[0].index as int],
        forall|k: int| 0 < k < order.len() ==> precedes(order[0], #[trigger] order[k]),
{
    lemma_first_above_least(candidates(order), nucleus_limit(topp, total(w)), 0);
    assert forall|i: int| 0 <= i < w.len() implies #[trigger] w[i] <= w[order[0].index as int] by {
        assert(listed(order, i));
        let k = choose|k: int| #[trigger] holds(order, k, i);
        if k > 0 {
            assert(precedes(order[0], order[k]));
        }
    }
}

/// The weights of the candidates in the nucleus add up to the weight that
/// the coin is measured against, and that weight is positive: the shares
/// of the candidates in the nucleus add up to one. The candidate that the
/// coin selects is one of them.
pub proof fn lemma_nucleus_mass(probs: Seq<u32>, order: Seq<ProbeIndex>, topp: u32, coin: u32)
    requires
        total(weights(probs)) > 0,
        arranges(order, weights(probs)),
    ensures
        nucleus_mass(order, topp, total(weights(probs))) == prefix_sum(
            candidates(order).take(nucleus_cut(order, topp, total(weights(probs))) + 1),
            nucleus_cut(order, topp, total(weights(probs))) + 1,
        ),
        nucleus_mass(order, topp, total(weights(probs))) > 0,
        0 <= nucleus_choice(order, topp, total(weights(probs)), coin) <= nucleus_cut(
            order,
            topp,
            total(weights(probs)),
        ) < order.len(),
{
    let w = weights(probs);
    let cw = candidates(order);
    let n = w.len() as int;
    let limit = nucleus_limit(topp, total(w));
    let cut = nucleus_cut(order, topp, total(w));
    lemma_weights_range(probs);
    crate::ieee::lemma_fixed_range(topp);
    let i = lemma_positive_sum_has_term(w, n);
    lemma_first_above_least(cw, limit, 0);
    assert(limit >= 0) by (nonlinear_arith)
        requires
            limit == nucleus_limit(topp, total(w)),
            total(w) > 0,
            0 <= fixed(topp),
    ;
    if through(cw, cut) <= limit {
        assert(listed(order, i));
        let k = choose|k: int| #[trigger] holds(order, k, i);
        lemma_sum_covers_term(cw, n, k);
    }
    lemma_prefix_sum_same(cw, cw.take(cut + 1), cut + 1);
    lemma_first_above_in_range(
        cw.take(cut + 1),
        coin_target(coin, nucleus_mass(order, topp, total(w))),
        0,
    );
}

/// Two arrangements of the same tokens whose first `len` candidates are
/// ranked agree on each of those candidates.
pub proof fn lemma_ranked_agree(
    first: Seq<ProbeIndex>,
    second: Seq<ProbeIndex>,
    w: Seq<int>,
    len: int,
    k: int,
)
    requires
        arranges(first, w),
        arranges(second, w),
        ranked(first, len),
        ranked(second, len),
        0 <= k < len <= w.len(),
    ensures
        first[k] == second[k],
    decreases k,
{
    assert forall|j: int| 0 <= j < k implies first[j] == second[j] by {
        lemma_ranked_agree(first, second, w, len, j);
    }
    let p = first[k];
    let q = second[k];
    if p.index != q.index {
        assert(listed(second, p.index as int));
        let there = choose|t: int| #[trigger] holds(second, t, p.index as int);
        assert(there > k) by {
            if there < k {
                assert(first[there] == second[there]);
                assert(first[there].index != first[k].index);
            }
        }
        assert(precedes(second[k], second[there]));
        assert(listed(first, q.index as int));
        let here = choose|t: int| #[trigger] holds(first, t, q.index as int);
        assert(here > k) by {
            if here < k {
                assert(first[here] == second[here]);
                assert(second[here].index != second[k].index);
            }
        }
        assert(precedes(first[k], first[here]));
        assert(second[there].prob == p.prob);
        assert(first[here].prob == q.prob);
        assert(false);
    }
}

/// What a pick gives is determined by the probabilities, the threshold and
/// the coin: two samplers that pick with the same of these pick the same
/// token, and rank the same candidates into the nucleus.
pub proof fn lemma_pick_determined(
    unfiltered: bool,
    topp: u32,
    probs: Seq<u32>,
    coin: u32,
    first: Seq<ProbeIndex>,
    first_token: u32,
    second: Seq<ProbeIndex>,
    second_token: u32,
)
    requires
        probs.len() >= 1,
        picked(unfiltered, topp, probs, coin, first, first_token),
        picked(unfiltered, topp, probs, coin, second, second_token),
    ensures
        first_token == second_token,
        !unfiltered ==> {
            &&& nucleus_cut(first, topp, total(weights(probs))) == nucleus_cut(
                second,
                topp,
                total(weights(probs)),
            )
            &&& forall|k: int|
                0 <= k <= nucleus_cut(first, topp, total(weights(probs))) ==> first[k] == second[k]
        },
{
    if !unfiltered {
        let w = weights(probs);
        let limit = nucleus_limit(topp, total(w));
        let a = candidates(first);
        let b = candidates(second);
        let cut_a = nucleus_cut(first, topp, total(w));
        let cut_b = nucleus_cut(second, topp, total(w));
        lemma_first_above_least(a, limit, 0);
        lemma_first_above_least(b, limit, 0);
        let low = if cut_a <= cut_b {
            cut_a
        } else {
            cut_b
        };
        assert forall|k: int| 0 <= k <= low implies first[k] == second[k] by {
            lemma_ranked_agree(first, second, w, low + 1, k);
        }
        assert forall|j: int| 0 <= j <= low implies through(a, j) == through(b, j) by {
            lemma_prefix_sum_same(a, b, j + 1);
        }
        if cut_a <= cut_b {
            assert forall|j: int| 0 <= j < low implies #[trigger] through(b, j) <= limit by {
                assert(through(a, j) <= limit);
            }
            lemma_first_above_found(b, limit, 0, low);
        } else {
            assert forall|j: int| 0 <= j < low implies #[trigger] through(a, j) <= limit by {
                assert(through(b, j) <= limit);
            }
            lemma_first_above_found(a, limit, 0, low);
        }
        assert(cut_a == cut_b);
        assert(a.take(cut_a + 1) =~= b.take(cut_b + 1));
        lemma_prefix_sum_same(a, b, cut_a + 1);
        lemma_first_above_in_range(
            a.take(cut_a + 1),
            coin_target(coin, nucleus_mass(first, topp, total(w))),
            0,
        );
    }
}

impl Sampler {
    /// Picks the token for a coin, from the probabilities of the logits.
    ///
    /// Fails with `DegenerateDistribution` exactly when no probability has
    /// any weight. Otherwise the token and the candidate list are as
    /// `picked` says. The generator is not touched.
    pub fn pick(&mut self, probs: &[u32], coin: u32) -> (chosen: Result<u32, EngineError>)
        requires
            probs@.len() == old(self).vocab_size,
        ensures
            final(self).vocab_size == old(self).vocab_size,
            final(self).temperature == old(self).temperature,
            final(self).topp == old(self).topp,
            final(self).rng_state == old(self).rng_state,
            match chosen {
                Ok(token) => {
                    &&& total(weights(probs@)) > 0
                    &&& token < old(self).vocab_size
                    &&& picked(
                        old(self).unfiltered(),
                        old(self).topp,
                        probs@,
                        coin,
                        final(self).prob_index@,
                        token,
                    )
                },
                Err(e) => {
                    &&& total(weights(probs@)) == 0
                    &&& e == EngineError::DegenerateDistribution
                },
            },
    {
        let n: usize = probs.len();
        let ghost w = weights(probs@);
        self.prob_index.clear();
        let mut mass: u64 = 0;
        let mut i: usize = 0;
        while i < n
            invariant
                i <= n,
                n == probs@.len(),
                n <= 0xFFFF_FFFF,
                w == weights(probs@),
                self.prob_index@ == entries(w).take(i as int),
                mass == prefix_sum(w, i as int),
                mass <= i * 0xFFFF_FFFF,
                self.vocab_size == old(self).vocab_size,
                self.temperature == old(self).temperature,
                self.topp == old(self).topp,
                self.rng_state == old(self).rng_state,
            decreases n - i,
        {
            let q: u32 = to_fixed(probs[i]);
            self.prob_index.push(ProbeIndex { prob: q, index: i as u32 });
            mass = mass + q as u64;
            i += 1;
            assert(self.prob_index@ =~= entries(w).take(i as int));
        }
        assert(self.prob_index@ =~= entries(w));
        if mass == 0 {
            return Err(EngineError::DegenerateDistribution);
        }
        proof {
            lemma_weights_range(probs@);
        }
        if at_most_zero(self.topp) || at_least_one(self.topp) {
            let limit: u128 = share(coin, mass) / (COIN_RANGE as u128);
            assert(w.take(n as int) =~= w);
            let found: usize = scan(&self.prob_index, n, limit);
            return Ok(self.prob_index[found].index);
        }
        let limit: u128 = if crate::ieee::nan(self.topp) {
            mass as u128
        } else {
            share(to_fixed(self.topp), mass) / 0x1_0000_0000
        };
        assert(limit == nucleus_limit(self.topp, total(w)));
        assert(arranges(self.prob_index@, w)) by {
            assert forall|t: int| 0 <= t < w.len() implies #[trigger] listed(
                self.prob_index@,
                t,
            ) by {
                assert(holds(self.prob_index@, t, t));
            }
        }
        let mut k: usize = 0;
        let mut inside: u64 = 0;
        loop
            invariant_except_break
                inside == prefix_sum(candidates(self.prob_index@), k as int),
            invariant
                k < n,
                n == probs@.len(),
                n <= 0xFFFF_FFFF,
                w == weights(probs@),
                arranges(self.prob_index@, w),
                ranked(self.prob_index@, k as int),
                forall|j: int|
                    0 <= j < k ==> #[trigger] through(candidates(self.prob_index@), j) <= limit,
                self.vocab_size == old(self).vocab_size,
                self.temperature == old(self).temperature,
                self.topp == old(self).topp,
                self.rng_state == old(self).rng_state,
            ensures
                ranked(self.prob_index@, k + 1),
                inside == prefix_sum(candidates(self.prob_index@), k + 1),
                inside > limit || k == n - 1,
            decreases n - k,
        {
            let ghost before = self.prob_index@;
            let best: usize = foremost(&self.prob_index, k);
            let first: ProbeIndex = self.prob_index[k];
            let chosen: ProbeIndex = self.prob_index[best];
            self.prob_index[k] = chosen;
            self.prob_index[best] = first;
            proof {
                let after = self.prob_index@;
                assert(after =~= before.update(k as int, before[best as int]).update(
                    best as int,
                    before[k as int],
                ));
                lemma_swap_arranges(before, w, k as int, best as int);
                assert forall|a: int, b: int| 0 <= a < k + 1 && a < b < after.len() implies precedes(
                    #[trigger] after[a],
                    #[trigger] after[b],
                ) by {
                    if a < k {
                        assert(after[a] == before[a]);
                        if b == k {
                            assert(after[b] == before[best as int]);
                        } else if b == best {
                            assert(after[b] == before[k as int]);
                        } else {
                            assert(after[b] == before[b]);
                        }
                    } else {
                        if b == best {
                            assert(after[b] == before[k as int]);
                        } else {
                            assert(after[b] == before[b]);
                        }
                    }
                }
                lemma_prefix_sum_same(candidates(before), candidates(after), k as int);
                assert forall|j: int| 0 <= j < k implies #[trigger] through(candidates(after), j)
                    <= limit by {
                    lemma_prefix_sum_same(candidates(before), candidates(after), j + 1);
                    assert(through(candidates(before), j) <= limit);
                }
                lemma_prefix_sum_bounds(candidates(after), k as int);
            }
            inside = inside + chosen.prob as u64;
            if inside as u128 > limit || k == n - 1 {
                break ;
            }
            k += 1;
        }
        proof {
            let cw = candidates(self.prob_index@);
            lemma_first_above_found(cw, limit as int, 0, k as int);
            assert(nucleus_cut(self.prob_index@, self.topp, total(w)) == k);
            assert(nucleus_mass(self.prob_index@, self.topp, total(w)) == inside);
        }
        let target: u128 = share(coin, inside) / (COIN_RANGE as u128);
        let found: usize = scan(&self.prob_index, k + 1, target);
        let token: u32 = self.prob_index[found].index;
        Ok(token)
    }
}

/// The product of a 32-bit numerator and a weight, in a width that cannot
/// overflow.
fn share(numerator: u32, mass: u64) -> (product: u128)
    ensures
        product == numerator * mass,
{
    assert(numerator * mass <= 0xFFFF_FFFF * 0xFFFF_FFFF_FFFF_FFFF) by (nonlinear_arith)
        requires
            0 <= numerator <= 0xFFFF_FFFF,
            0 <= mass <= 0xFFFF_FFFF_FFFF_FFFF,
    ;
    (numerator as u128) * (mass as u128)
}

/// Whether candidate `a` comes before candidate `b`.
fn ahead(a: ProbeIndex, b: ProbeIndex) -> (yes: bool)
    ensures
        yes == precedes(a, b),
{
    a.prob > b.prob || (a.prob == b.prob && a.index < b.index)
}

/// The place of the candidate that comes before all others from `from` on.
fn foremost(order: &Vec<ProbeIndex>, from: usize) -> (best: usize)
    requires
        from < order@.len(),
        forall|j: int, k: int|
            0 <= j < k < order@.len() ==> (#[trigger] order@[j]).index != (
            #[trigger] order@[k]).index,
    ensures
        from <= best < order@.len(),
        forall|t: int|
            from <= t < order@.len() && t != best ==> precedes(order@[best as int], #[trigger] order@[t]),
{
    let len: usize = order.len();
    let mut best: usize = from;
    let mut j: usize = from + 1;
    while j < len
        invariant
            from <= best < j <= order@.len(),
            len == order@.len(),
            forall|a: int, b: int|
                0 <= a < b < order@.len() ==> (#[trigger] order@[a]).index != (
                #[trigger] order@[b]).index,
            forall|t: int|
                from <= t < j && t != best ==> precedes(order@[best as int], #[trigger] order@[t]),
        decreases order@.len() - j,
    {
        if ahead(order[j], order[best]) {
            best = j;
        }
        j += 1;
    }
    best
}

/// The first of the leading `len` candidates up to which their weights
/// exceed `limit`; the last of them where they never do.
fn scan(order: &Vec<ProbeIndex>, len: usize, limit: u128) -> (found: usize)
    requires
        1 <= len <= order@.len(),
        len <= 0xFFFF_FFFF,
    ensures
        found < len,
        found == first_above(candidates(order@).take(len as int), limit as int, 0),
{
    let ghost cw = candidates(order@).take(len as int);
    let mut found: usize = 0;
    let mut sum: u64 = order[0].prob as u64;
    assert(prefix_sum(cw, 1) == prefix_sum(cw, 0) + cw[0]);
    while found < len - 1 && sum as u128 <= limit
        invariant
            found < len,
            len <= order@.len(),
            len <= 0xFFFF_FFFF,
            cw == candidates(order@).take(len as int),
            sum == prefix_sum(cw, found + 1),
            sum <= (found + 1) * 0xFFFF_FFFF,
            forall|j: int| 0 <= j < found ==> #[trigger] through(cw, j) <= limit,
        decreases len - found,
    {
        found += 1;
        sum = sum + order[found].prob as u64;
    }
    proof {
        lemma_first_above_found(cw, limit as int, 0, found as int);
    }
    found
}

} // verus!
