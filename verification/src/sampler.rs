//! Token sampling from a logits vector.
//!
//! Supports greedy (argmax) and stochastic sampling with temperature,
//! top-k, and top-p (nucleus) filtering. A small self-contained RNG keeps
//! the crate dependency-free and gives reproducible output from a seed.
//! Logits are given by their bits, and a calculator makes the calculations on them.

use vstd::prelude::*;

use crate::calc::{computes, make, make_sum, math, sum, Calc, Math};
use crate::single::{
    at_most, is_at_most, is_less, is_nan, less, total_place, total_rank, NEG_INFINITY, ONE,
    ZERO,
};

verus! {

/// Sampling configuration.
#[derive(Debug, Clone, Copy, PartialEq, Eq, Structural)]
pub struct SamplingConfig {
    /// Softmax temperature, by its bits. `0.0` (or less) means greedy argmax.
    pub temperature: u32,
    /// Keep only the top `k` logits before sampling. `0` disables.
    pub top_k: usize,
    /// Nucleus sampling: keep the smallest set of tokens whose cumulative
    /// probability exceeds `top_p`, given by its bits. `>= 1.0` disables.
    pub top_p: u32,
    /// RNG seed for reproducibility.
    pub seed: u64,
}

/// The bits of 0.7.
pub const DEFAULT_TEMPERATURE: u32 = 0x3F33_3333;

/// The bits of 0.95.
pub const DEFAULT_TOP_P: u32 = 0x3F73_3333;

impl Default for SamplingConfig {
    fn default() -> (c: Self)
        ensures
            c == (SamplingConfig {
                temperature: DEFAULT_TEMPERATURE,
                top_k: 40,
                top_p: DEFAULT_TOP_P,
                seed: 0xD1CE_5EED,
            }),
    {
        SamplingConfig {
            temperature: DEFAULT_TEMPERATURE,
            top_k: 40,
            top_p: DEFAULT_TOP_P,
            seed: 0xD1CE_5EED,
        }
    }
}

impl SamplingConfig {
    /// Deterministic greedy decoding.
    pub fn greedy() -> (c: Self)
        ensures
            c == (SamplingConfig { temperature: ZERO, top_k: 0, top_p: ONE, seed: 0 }),
    {
        SamplingConfig { temperature: ZERO, top_k: 0, top_p: ONE, seed: 0 }
    }
}

// ── Random numbers ──────────────────────────────────────────────────────────

/// The increment of SplitMix64.
pub const GOLDEN: u64 = 0x9E37_79B9_7F4A_7C15;

/// SplitMix64 → xorshift128+ style PRNG. Small, fast, good enough for sampling.
#[derive(Debug)]
pub struct Rng {
    pub state: u64,
}

/// The finalizer of SplitMix64.
pub open spec fn mixed(z: u64) -> u64 {
    let a = (z ^ (z >> 30)).wrapping_mul(0xBF58_476D_1CE4_E5B9);
    let b = (a ^ (a >> 27)).wrapping_mul(0x94D0_49BB_1331_11EB);
    b ^ (b >> 31)
}

/// The state after one number was drawn.
pub open spec fn stepped(state: u64) -> u64 {
    state.wrapping_add(GOLDEN)
}

/// The 24 bits of the next uniform number, which is this over 2^24.
pub open spec fn draw_of(state: u64) -> u32 {
    (mixed(stepped(state)) >> 40) as u32
}

impl Rng {
    /// A generator for a seed.
    pub fn new(seed: u64) -> (r: Self)
        ensures
            r.state == seed ^ GOLDEN,
    {
        // Avoid a zero state.
        Rng { state: seed ^ GOLDEN }
    }

    /// The next number.
    pub fn next_u64(&mut self) -> (z: u64)
        ensures
            final(self).state == stepped(old(self).state),
            z == mixed(stepped(old(self).state)),
    {
        // SplitMix64.
        self.state = self.state.wrapping_add(GOLDEN);
        let z: u64 = self.state;
        let a: u64 = (z ^ (z >> 30)).wrapping_mul(0xBF58_476D_1CE4_E5B9);
        let b: u64 = (a ^ (a >> 27)).wrapping_mul(0x94D0_49BB_1331_11EB);
        b ^ (b >> 31)
    }

    /// Uniform number in [0, 1), as a multiple of 2^-24.
    pub fn next_bits(&mut self) -> (bits: u32)
        ensures
            final(self).state == stepped(old(self).state),
            bits == draw_of(old(self).state),
            bits < 0x100_0000,
    {
        // Use the top 24 bits for a uniform mantissa.
        let z: u64 = self.next_u64();
        proof {
            assert(((z >> 40) as u32) < 0x100_0000u32) by (bit_vector);
        }
        (z >> 40) as u32
    }
}

/// Every number that is drawn lies in the unit interval: it is less than 2^24 over
/// 2^24.
pub proof fn law_draws_stay_in_unit_interval(state: u64)
    ensures
        0 <= draw_of(state) < 0x100_0000,
{
    let z = mixed(stepped(state));
    assert(((z >> 40) as u32) < 0x100_0000u32) by (bit_vector);
}

// ── The largest logit ───────────────────────────────────────────────────────

/// Whether `i` is the index of the maximum of `xs`: it is the first that no other
/// exceeds. Where nothing exceeds the negative infinity, it is 0.
pub open spec fn is_argmax(xs: Seq<u32>, i: int) -> bool {
    if forall|j: int| 0 <= j < xs.len() ==> !less(NEG_INFINITY, #[trigger] xs[j]) {
        i == 0
    } else {
        &&& 0 <= i < xs.len()
        &&& less(NEG_INFINITY, xs[i])
        &&& forall|j: int| 0 <= j < xs.len() ==> !less(xs[i], #[trigger] xs[j])
        &&& forall|j: int| 0 <= j < i ==> less(#[trigger] xs[j], xs[i]) || is_nan(xs[j])
    }
}

/// There is one index of the maximum.
pub proof fn lemma_argmax_unique(xs: Seq<u32>, i: int, j: int)
    requires
        is_argmax(xs, i),
        is_argmax(xs, j),
    ensures
        i == j,
{
    if exists|k: int| 0 <= k < xs.len() && less(NEG_INFINITY, #[trigger] xs[k]) {
        if i < j {
            assert(less(xs[i], xs[j]) || is_nan(xs[i]));
        } else if j < i {
            assert(less(xs[j], xs[i]) || is_nan(xs[j]));
        }
    }
}

/// Index of the maximum element.
pub fn argmax(xs: &[u32]) -> (best: usize)
    ensures
        is_argmax(xs@, best as int),
{
    let mut best: usize = 0;
    let mut best_v: u32 = NEG_INFINITY;
    let mut i: usize = 0;
    while i < xs.len()
        invariant
            i <= xs@.len(),
            !is_nan(best_v),
            best_v == NEG_INFINITY ==> best == 0 && forall|j: int|
                0 <= j < i ==> !less(NEG_INFINITY, #[trigger] xs@[j]),
            best_v != NEG_INFINITY ==> {
                &&& best < i
                &&& xs@[best as int] == best_v
                &&& less(NEG_INFINITY, best_v)
                &&& forall|j: int| 0 <= j < i ==> !less(best_v, #[trigger] xs@[j])
                &&& forall|j: int|
                    0 <= j < best ==> less(#[trigger] xs@[j], best_v) || is_nan(xs@[j])
            },
        decreases xs@.len() - i,
    {
        let v: u32 = xs[i];
        if is_less(best_v, v) {
            best_v = v;
            best = i;
        }
        i += 1;
    }
    best
}

// ── Ranking ─────────────────────────────────────────────────────────────────

/// A token and its logit.
#[derive(Debug, Clone, Copy, PartialEq, Eq, Structural)]
pub struct Candidate {
    pub id: usize,
    pub logit: u32,
}

/// Whether `a` is ranked before `b`: by its logit in the total order, and by its
/// id where the logits are the same.
pub open spec fn ranked_before(a: Candidate, b: Candidate) -> bool {
    total_place(a.logit) > total_place(b.logit) || (a.logit == b.logit && a.id < b.id)
}

/// Whether candidates are ranked.
pub open spec fn is_ranked(s: Seq<Candidate>) -> bool {
    forall|i: int, j: int| 0 <= i < j < s.len() ==> ranked_before(#[trigger] s[i], #[trigger] s[j])
}

/// All tokens with their logits.
pub open spec fn candidates_of(logits: Seq<u32>) -> Seq<Candidate> {
    Seq::new(logits.len(), |i: int| Candidate { id: i as usize, logit: logits[i] })
}

/// Whether `ranking` is the ranking of all tokens.
pub open spec fn is_ranking(logits: Seq<u32>, ranking: Seq<Candidate>) -> bool {
    &&& is_ranked(ranking)
    &&& ranking.to_multiset() == candidates_of(logits).to_multiset()
}

fn comes_before(a: Candidate, b: Candidate) -> (r: bool)
    ensures
        r == ranked_before(a, b),
{
    let pa: i64 = total_rank(a.logit);
    let pb: i64 = total_rank(b.logit);
    pa > pb || (a.logit == b.logit && a.id < b.id)
}

/// Whether the ids of candidates lie in a range.
spec fn ids_within(s: Seq<Candidate>, lo: int, hi: int) -> bool {
    forall|i: int| 0 <= i < s.len() ==> lo <= (#[trigger] s[i]).id < hi
}

/// Merges two rankings, of tokens below and from `mid` on.
fn merge(a: &Vec<Candidate>, b: &Vec<Candidate>, lo: Ghost<int>, mid: Ghost<int>, hi: Ghost<int>) -> (out:
    Vec<Candidate>)
    requires
        is_ranked(a@),
        is_ranked(b@),
        ids_within(a@, lo@, mid@),
        ids_within(b@, mid@, hi@),
        lo@ <= mid@ <= hi@,
    ensures
        is_ranked(out@),
        ids_within(out@, lo@, hi@),
        out@.to_multiset() == a@.to_multiset().add(b@.to_multiset()),
{
    broadcast use vstd::seq_lib::group_to_multiset_ensures;

    let mut out: Vec<Candidate> = Vec::new();
    let mut i: usize = 0;
    let mut j: usize = 0;
    proof {
        assert(a@.take(0) =~= Seq::empty());
        assert(b@.take(0) =~= Seq::empty());
        assert(out@.to_multiset() =~= a@.take(0).to_multiset().add(b@.take(0).to_multiset()));
    }
    while i < a.len() || j < b.len()
        invariant
            i <= a@.len(),
            j <= b@.len(),
            is_ranked(a@),
            is_ranked(b@),
            ids_within(a@, lo@, mid@),
            ids_within(b@, mid@, hi@),
            lo@ <= mid@ <= hi@,
            is_ranked(out@),
            ids_within(out@, lo@, hi@),
            out@.to_multiset() == a@.take(i as int).to_multiset().add(
                b@.take(j as int).to_multiset(),
            ),
            i < a@.len() ==> forall|k: int|
                0 <= k < out@.len() ==> ranked_before(#[trigger] out@[k], a@[i as int]),
            j < b@.len() ==> forall|k: int|
                0 <= k < out@.len() ==> ranked_before(#[trigger] out@[k], b@[j as int]),
        decreases a@.len() - i + b@.len() - j,
    {
        broadcast use vstd::seq_lib::group_to_multiset_ensures;

        let ghost before = out@;
        let from_a: bool = if i >= a.len() {
            false
        } else if j >= b.len() {
            true
        } else {
            comes_before(a[i], b[j])
        };
        if from_a {
            out.push(a[i]);
            proof {
                assert(a@.take(i + 1) =~= a@.take(i as int).push(a@[i as int]));
                assert(out@.to_multiset() =~= a@.take(i + 1).to_multiset().add(
                    b@.take(j as int).to_multiset(),
                ));
            }
            i += 1;
        } else {
            out.push(b[j]);
            proof {
                assert(b@.take(j + 1) =~= b@.take(j as int).push(b@[j as int]));
                assert(out@.to_multiset() =~= a@.take(i as int).to_multiset().add(
                    b@.take(j + 1).to_multiset(),
                ));
            }
            j += 1;
        }
        proof {
            assert(out@.drop_last() =~= before);
        }
    }
    proof {
        assert(a@.take(i as int) =~= a@);
        assert(b@.take(j as int) =~= b@);
    }
    out
}

/// Ranks the tokens from `lo` up to `hi`.
fn rank_range(logits: &[u32], lo: usize, hi: usize) -> (out: Vec<Candidate>)
    requires
        lo <= hi <= logits@.len(),
    ensures
        is_ranked(out@),
        ids_within(out@, lo as int, hi as int),
        out@.to_multiset() == candidates_of(logits@).subrange(lo as int, hi as int).to_multiset(),
    decreases hi - lo,
{
    let ghost all = candidates_of(logits@);
    if hi - lo <= 1 {
        let mut out: Vec<Candidate> = Vec::new();
        if lo < hi {
            out.push(Candidate { id: lo, logit: logits[lo] });
        }
        proof {
            assert(out@ =~= all.subrange(lo as int, hi as int));
        }
        return out;
    }
    let mid: usize = lo + (hi - lo) / 2;
    let a = rank_range(logits, lo, mid);
    let b = rank_range(logits, mid, hi);
    proof {
        let left = all.subrange(lo as int, mid as int);
        let right = all.subrange(mid as int, hi as int);
        vstd::seq_lib::lemma_multiset_commutative(left, right);
        assert(all.subrange(lo as int, hi as int) =~= left + right);
    }
    merge(&a, &b, Ghost(lo as int), Ghost(mid as int), Ghost(hi as int))
}

/// Ranks all tokens: by their logits, the largest first.
pub fn rank(logits: &[u32]) -> (ranking: Vec<Candidate>)
    ensures
        is_ranking(logits@, ranking@),
        ranking@.len() == logits@.len(),
{
    let ranking = rank_range(logits, 0, logits.len());
    proof {
        let all = candidates_of(logits@);
        assert(all.subrange(0, all.len() as int) =~= all);
        lemma_ranking_len(logits@, ranking@);
    }
    ranking
}

proof fn lemma_ranking_len(logits: Seq<u32>, ranking: Seq<Candidate>)
    requires
        is_ranking(logits, ranking),
    ensures
        ranking.len() == logits.len(),
{
    broadcast use vstd::seq_lib::group_to_multiset_ensures;

    assert(ranking.to_multiset().len() == ranking.len());
    assert(candidates_of(logits).to_multiset().len() == logits.len());
}

/// There is only one ranking of a vector of logits.
pub proof fn law_ranking_is_unique(logits: Seq<u32>, a: Seq<Candidate>, b: Seq<Candidate>)
    requires
        is_ranking(logits, a),
        is_ranking(logits, b),
    ensures
        a == b,
{
    lemma_same_items_same_ranking(a, b);
}

proof fn lemma_same_items_same_ranking(a: Seq<Candidate>, b: Seq<Candidate>)
    requires
        is_ranked(a),
        is_ranked(b),
        a.to_multiset() == b.to_multiset(),
    ensures
        a == b,
    decreases a.len(),
{
    broadcast use vstd::seq_lib::group_to_multiset_ensures;

    assert(a.to_multiset().len() == a.len());
    assert(b.to_multiset().len() == b.len());
    if a.len() > 0 {
        // The last of each is in the other, and nothing comes after it there.
        assert(a.to_multiset().count(a.last()) > 0) by {
            assert(a.contains(a.last()));
        }
        assert(b.contains(a.last()));
        let i = choose|i: int| 0 <= i < b.len() && b[i] == a.last();
        assert(b.to_multiset().count(b.last()) > 0) by {
            assert(b.contains(b.last()));
        }
        assert(a.contains(b.last()));
        let j = choose|j: int| 0 <= j < a.len() && a[j] == b.last();
        if i < b.len() - 1 {
            assert(ranked_before(b[i], b[b.len() - 1]));
            if j < a.len() - 1 {
                assert(ranked_before(a[j], a[a.len() - 1]));
            }
        }
        assert(a.last() == b.last());
        assert(a.drop_last().push(a.last()) =~= a);
        assert(b.drop_last().push(b.last()) =~= b);
        assert(a.drop_last().to_multiset() =~= a.to_multiset().remove(a.last()));
        assert(b.drop_last().to_multiset() =~= b.to_multiset().remove(b.last()));
        lemma_same_items_same_ranking(a.drop_last(), b.drop_last());
    }
}

/// The first of a ranking has the largest logit in the total order.
pub proof fn law_ranking_begins_with_the_largest(logits: Seq<u32>, ranking: Seq<Candidate>)
    requires
        logits.len() > 0,
        logits.len() <= usize::MAX,
        is_ranking(logits, ranking),
    ensures
        ranking.len() == logits.len(),
        ranking[0].id < logits.len(),
        logits[ranking[0].id as int] == ranking[0].logit,
        forall|i: int|
            0 <= i < logits.len() ==> total_place(#[trigger] logits[i]) <= total_place(
                ranking[0].logit,
            ),
{
    broadcast use vstd::seq_lib::group_to_multiset_ensures;

    lemma_ranking_len(logits, ranking);
    let all = candidates_of(logits);
    assert(ranking.contains(ranking[0]));
    assert(all.to_multiset().count(ranking[0]) > 0);
    assert(all.contains(ranking[0]));
    assert forall|i: int| 0 <= i < logits.len() implies total_place(#[trigger] logits[i])
        <= total_place(ranking[0].logit) by {
        assert(all.contains(all[i]));
        assert(ranking.to_multiset().count(all[i]) > 0);
        assert(ranking.contains(all[i]));
        let k = choose|k: int| 0 <= k < ranking.len() && ranking[k] == all[i];
        if k > 0 {
            assert(ranked_before(ranking[0], ranking[k]));
        }
    }
}

// ── Sampling ────────────────────────────────────────────────────────────────

/// The number of candidates that are kept of `n`.
pub open spec fn kept(top_k: usize, n: nat) -> nat {
    if 0 < top_k < n {
        top_k as nat
    } else {
        n
    }
}

/// The candidates that are kept of a ranking.
pub open spec fn top_of(ranking: Seq<Candidate>, top_k: usize) -> Seq<Candidate> {
    ranking.take(kept(top_k, ranking.len()) as int)
}

/// The logits of candidates.
pub open spec fn logits_of(c: Seq<Candidate>) -> Seq<u32> {
    Seq::new(c.len(), |i: int| c[i].logit)
}

/// The weight of a logit: the exponential of its distance from the largest one, over
/// the temperature.
pub open spec fn tempered(m: Math, temperature: u32, logit: u32, top: u32) -> u32 {
    m(Calc::Exp(m(Calc::Mul(m(Calc::Sub(logit, top)), m(Calc::Div(ONE, temperature))))))
}

/// The weights of logits, of which the first is the largest.
pub open spec fn all_tempered(m: Math, temperature: u32, logits: Seq<u32>) -> Seq<u32> {
    Seq::new(logits.len(), |i: int| tempered(m, temperature, logits[i], logits[0]))
}

/// Weights over their sum.
pub open spec fn shares(m: Math, weights: Seq<u32>) -> Seq<u32> {
    Seq::new(weights.len(), |i: int| m(Calc::Div(weights[i], sum(m, weights))))
}

/// The probabilities of logits, of which the first is the largest: softmax with a
/// temperature.
pub open spec fn probabilities(m: Math, temperature: u32, logits: Seq<u32>) -> Seq<u32> {
    shares(m, all_tempered(m, temperature, logits))
}

/// Whether the first `cutoff` candidates are the nucleus: the smallest number of
/// them whose cumulative probability exceeds `top_p`, or all where `top_p` is no
/// limit or is not exceeded.
pub open spec fn is_nucleus(m: Math, top_p: u32, probs: Seq<u32>, cutoff: int) -> bool {
    if less(top_p, ONE) {
        &&& 0 <= cutoff <= probs.len()
        &&& forall|i: int|
            0 < i < cutoff ==> !less(top_p, #[trigger] sum(m, probs.take(i)))
        &&& cutoff < probs.len() ==> cutoff > 0 && less(top_p, sum(m, probs.take(cutoff)))
    } else {
        cutoff == probs.len()
    }
}

/// The bits of 2^24.
pub const DRAWS: u32 = 0x4B80_0000;

/// The random number: the drawn bits over 2^24, of the probability of the nucleus.
pub open spec fn random_number(m: Math, nucleus: Seq<u32>, draw: u32) -> u32 {
    let unit = m(Calc::Div(m(Calc::OfCount(draw as usize)), DRAWS));
    m(Calc::Mul(unit, sum(m, nucleus)))
}

/// Whether candidate `k` of a nucleus is drawn: the first whose cumulative
/// probability is not exceeded by the random number. Where there is none, the most
/// probable candidate is drawn.
pub open spec fn is_drawn(m: Math, nucleus: Seq<u32>, draw: u32, k: int) -> bool {
    let r = random_number(m, nucleus, draw);
    ||| {
        &&& 0 <= k < nucleus.len()
        &&& at_most(r, sum(m, nucleus.take(k + 1)))
        &&& forall|i: int| 0 < i <= k ==> !at_most(r, #[trigger] sum(m, nucleus.take(i)))
    }
    ||| {
        &&& k == 0
        &&& forall|i: int|
            0 < i <= nucleus.len() ==> !at_most(r, #[trigger] sum(m, nucleus.take(i)))
    }
}

/// Whether `token` is candidate `k` of a ranking, and that is drawn from a nucleus of
/// `cutoff` candidates.
pub open spec fn picks(
    m: Math,
    cfg: SamplingConfig,
    draw: u32,
    ranking: Seq<Candidate>,
    cutoff: int,
    k: int,
    token: u32,
) -> bool {
    let top = top_of(ranking, cfg.top_k);
    let probs = probabilities(m, cfg.temperature, logits_of(top));
    &&& is_nucleus(m, cfg.top_p, probs, cutoff)
    &&& is_drawn(m, probs.take(cutoff), draw, k)
    &&& 0 <= k < top.len()
    &&& token == top[k].id as u32
}

/// Whether `token` is the sample from logits for the bits that were drawn.
pub open spec fn is_sample(
    m: Math,
    cfg: SamplingConfig,
    draw: u32,
    logits: Seq<u32>,
    token: u32,
) -> bool {
    exists|ranking: Seq<Candidate>, cutoff: int, k: int| #[trigger]
        is_ranking(logits, ranking) && #[trigger] picks(m, cfg, draw, ranking, cutoff, k, token)
}

/// The probabilities of logits, of which the first is the largest.
fn make_probabilities<F: Fn(Calc) -> u32>(
    calc: &F,
    temperature: u32,
    logits: &Vec<u32>,
) -> (probs: Vec<u32>)
    requires
        computes(*calc),
        logits@.len() > 0,
    ensures
        probs@ == probabilities(math(*calc), temperature, logits@),
{
    let ghost m = math(*calc);
    let top: u32 = logits[0];
    let inv_temp: u32 = make(calc, Calc::Div(ONE, temperature));
    let mut weights: Vec<u32> = Vec::new();
    let mut i: usize = 0;
    while i < logits.len()
        invariant
            i <= logits@.len(),
            m == math(*calc),
            computes(*calc),
            logits@.len() > 0,
            top == logits@[0],
            inv_temp == m(Calc::Div(ONE, temperature)),
            weights@.len() == i,
            forall|j: int|
                0 <= j < i ==> #[trigger] weights@[j] == tempered(m, temperature, logits@[j], top),
        decreases logits@.len() - i,
    {
        let distance: u32 = make(calc, Calc::Sub(logits[i], top));
        let scaled: u32 = make(calc, Calc::Mul(distance, inv_temp));
        weights.push(make(calc, Calc::Exp(scaled)));
        i += 1;
    }
    proof {
        assert(weights@ =~= all_tempered(m, temperature, logits@));
    }
    let total: u32 = make_sum(calc, weights.as_slice());
    let mut probs: Vec<u32> = Vec::new();
    let mut i: usize = 0;
    while i < weights.len()
        invariant
            i <= weights@.len(),
            m == math(*calc),
            computes(*calc),
            total == sum(m, weights@),
            probs@.len() == i,
            forall|j: int|
                0 <= j < i ==> #[trigger] probs@[j] == m(Calc::Div(weights@[j], total)),
        decreases weights@.len() - i,
    {
        probs.push(make(calc, Calc::Div(weights[i], total)));
        i += 1;
    }
    proof {
        assert(probs@ =~= shares(m, weights@));
    }
    probs
}

proof fn lemma_next_sum(m: Math, s: Seq<u32>, i: int)
    requires
        0 <= i < s.len(),
    ensures
        sum(m, s.take(i + 1)) == m(Calc::Add(sum(m, s.take(i)), s[i])),
{
    assert(s.take(i + 1).drop_last() =~= s.take(i));
}

/// The size of the nucleus.
fn find_nucleus<F: Fn(Calc) -> u32>(top_p: u32, probs: &Vec<u32>, calc: &F) -> (cutoff: usize)
    requires
        computes(*calc),
    ensures
        cutoff <= probs@.len(),
        probs@.len() > 0 ==> cutoff > 0,
        is_nucleus(math(*calc), top_p, probs@, cutoff as int),
{
    if !is_less(top_p, ONE) {
        return probs.len();
    }
    let ghost m = math(*calc);
    let mut cum: u32 = ZERO;
    let mut i: usize = 0;
    proof {
        assert(probs@.take(0).len() == 0);
    }
    while i < probs.len()
        invariant
            i <= probs@.len(),
            m == math(*calc),
            computes(*calc),
            less(top_p, ONE),
            cum == sum(m, probs@.take(i as int)),
            forall|j: int| 0 < j <= i ==> !less(top_p, #[trigger] sum(m, probs@.take(j))),
        decreases probs@.len() - i,
    {
        proof {
            lemma_next_sum(m, probs@, i as int);
        }
        cum = make(calc, Calc::Add(cum, probs[i]));
        i += 1;
        if is_less(top_p, cum) {
            return i;
        }
    }
    i
}

/// The candidate of the nucleus on which the random number falls.
fn find_drawn<F: Fn(Calc) -> u32>(nucleus: &[u32], draw: u32, calc: &F) -> (k: usize)
    requires
        computes(*calc),
        nucleus@.len() > 0,
    ensures
        k < nucleus@.len(),
        is_drawn(math(*calc), nucleus@, draw, k as int),
{
    let ghost m = math(*calc);
    let total: u32 = make_sum(calc, nucleus);
    let drawn: u32 = make(calc, Calc::OfCount(draw as usize));
    let unit: u32 = make(calc, Calc::Div(drawn, DRAWS));
    let r: u32 = make(calc, Calc::Mul(unit, total));
    let mut acc: u32 = ZERO;
    let mut i: usize = 0;
    proof {
        assert(nucleus@.take(0).len() == 0);
    }
    while i < nucleus.len()
        invariant
            i <= nucleus@.len(),
            m == math(*calc),
            computes(*calc),
            r == random_number(m, nucleus@, draw),
            acc == sum(m, nucleus@.take(i as int)),
            forall|j: int| 0 < j <= i ==> !at_most(r, #[trigger] sum(m, nucleus@.take(j))),
        decreases nucleus@.len() - i,
    {
        proof {
            lemma_next_sum(m, nucleus@, i as int);
        }
        acc = make(calc, Calc::Add(acc, nucleus[i]));
        if is_at_most(r, acc) {
            return i;
        }
        i += 1;
    }
    // Numerical fallback: the most probable candidate.
    0
}

/// Stateful sampler (owns the RNG so sequential draws differ).
#[derive(Debug)]
pub struct Sampler {
    pub cfg: SamplingConfig,
    pub rng: Rng,
}

/// Whether `token` is what a sampler in a state gives for logits.
pub open spec fn is_choice(
    m: Math,
    cfg: SamplingConfig,
    state: u64,
    logits: Seq<u32>,
    token: u32,
) -> bool {
    if at_most(cfg.temperature, ZERO) {
        exists|i: int| #[trigger] is_argmax(logits, i) && token == i as u32
    } else {
        is_sample(m, cfg, draw_of(state), logits, token)
    }
}

/// The state of a sampler after a choice.
pub open spec fn state_after(cfg: SamplingConfig, state: u64) -> u64 {
    if at_most(cfg.temperature, ZERO) {
        state
    } else {
        stepped(state)
    }
}

impl Sampler {
    /// A sampler that begins at the seed of its configuration.
    pub fn new(cfg: SamplingConfig) -> (s: Self)
        ensures
            s.cfg == cfg,
            s.rng.state == cfg.seed ^ GOLDEN,
    {
        Sampler { cfg, rng: Rng::new(cfg.seed) }
    }

    /// Sample the next token id from raw logits.
    pub fn sample<F: Fn(Calc) -> u32>(&mut self, logits: &[u32], calc: &F) -> (token: u32)
        requires
            logits@.len() > 0,
            computes(*calc),
        ensures
            final(self).cfg == old(self).cfg,
            final(self).rng.state == state_after(old(self).cfg, old(self).rng.state),
            is_choice(math(*calc), old(self).cfg, old(self).rng.state, logits@, token),
    {
        if is_at_most(self.cfg.temperature, ZERO) {
            let i: usize = argmax(logits);
            proof {
                assert(is_argmax(logits@, i as int));
            }
            return i as u32;
        }
        let ghost m = math(*calc);
        let ghost cfg = self.cfg;
        // Sorted by logit, descending.
        let mut candidates = rank(logits);
        let ghost ranking = candidates@;
        // top-k truncation.
        if self.cfg.top_k > 0 && self.cfg.top_k < candidates.len() {
            candidates.truncate(self.cfg.top_k);
        }
        proof {
            assert(candidates@ =~= top_of(ranking, cfg.top_k));
        }
        // Softmax with temperature over the (already sorted) candidates.
        let scores = take_logits(&candidates);
        let probs = make_probabilities(calc, self.cfg.temperature, &scores);
        // top-p (nucleus) truncation over the descending-sorted probs.
        let cutoff: usize = find_nucleus(self.cfg.top_p, &probs, calc);
        // Draw from the surviving nucleus, renormalizing on the fly.
        let nucleus = vstd::slice::slice_subrange(probs.as_slice(), 0, cutoff);
        let draw: u32 = self.rng.next_bits();
        let k: usize = find_drawn(nucleus, draw, calc);
        proof {
            assert(nucleus@ =~= probs@.take(cutoff as int));
            assert(is_ranking(logits@, ranking));
            let token = candidates@[k as int].id as u32;
            assert(picks(m, cfg, draw, ranking, cutoff as int, k as int, token));
        }
        candidates[k].id as u32
    }
}

fn take_logits(c: &Vec<Candidate>) -> (logits: Vec<u32>)
    ensures
        logits@ == logits_of(c@),
{
    let mut logits: Vec<u32> = Vec::new();
    let mut i: usize = 0;
    while i < c.len()
        invariant
            i <= c@.len(),
            logits@.len() == i,
            forall|j: int| 0 <= j < i ==> #[trigger] logits@[j] == c@[j].logit,
        decreases c@.len() - i,
    {
        logits.push(c[i].logit);
        i += 1;
    }
    proof {
        assert(logits@ =~= logits_of(c@));
    }
    logits
}

/// With one candidate kept, the sample is the token with the largest logit,
/// whatever was drawn and however the arithmetic turns out.
pub proof fn law_top_k_1_is_deterministic(
    m: Math,
    cfg: SamplingConfig,
    draw: u32,
    logits: Seq<u32>,
    token: u32,
    ranking: Seq<Candidate>,
)
    requires
        cfg.top_k == 1,
        logits.len() > 0,
        logits.len() <= usize::MAX,
        is_ranking(logits, ranking),
        is_sample(m, cfg, draw, logits, token),
    ensures
        token == ranking[0].id as u32,
        forall|i: int|
            0 <= i < logits.len() ==> total_place(#[trigger] logits[i]) <= total_place(
                logits[ranking[0].id as int],
            ),
{
    let (other, cutoff, k) = choose|other: Seq<Candidate>, cutoff: int, k: int| #[trigger]
        is_ranking(logits, other) && #[trigger] picks(m, cfg, draw, other, cutoff, k, token);
    law_ranking_is_unique(logits, ranking, other);
    law_ranking_begins_with_the_largest(logits, ranking);
}

/// Sampling is reproducible: the configuration, the state of the generator and the
/// logits decide which token is chosen.
pub proof fn law_sampling_is_reproducible(
    m: Math,
    cfg: SamplingConfig,
    state: u64,
    logits: Seq<u32>,
    a: u32,
    b: u32,
)
    requires
        logits.len() <= usize::MAX,
        is_choice(m, cfg, state, logits, a),
        is_choice(m, cfg, state, logits, b),
    ensures
        a == b,
{
    if at_most(cfg.temperature, ZERO) {
        let i = choose|i: int| #[trigger] is_argmax(logits, i) && a == i as u32;
        let j = choose|j: int| #[trigger] is_argmax(logits, j) && b == j as u32;
        lemma_argmax_unique(logits, i, j);
    } else {
        let draw = draw_of(state);
        let (ra, ca, ka) = choose|r: Seq<Candidate>, c: int, k: int| #[trigger]
            is_ranking(logits, r) && #[trigger] picks(m, cfg, draw, r, c, k, a);
        let (rb, cb, kb) = choose|r: Seq<Candidate>, c: int, k: int| #[trigger]
            is_ranking(logits, r) && #[trigger] picks(m, cfg, draw, r, c, k, b);
        law_ranking_is_unique(logits, ra, rb);
        let probs = probabilities(m, cfg.temperature, logits_of(top_of(ra, cfg.top_k)));
        lemma_one_nucleus(m, cfg.top_p, probs, ca, cb);
        lemma_one_draw(m, probs.take(ca), draw, ka, kb);
    }
}

proof fn lemma_one_nucleus(m: Math, top_p: u32, probs: Seq<u32>, a: int, b: int)
    requires
        is_nucleus(m, top_p, probs, a),
        is_nucleus(m, top_p, probs, b),
    ensures
        a == b,
{
    if less(top_p, ONE) {
        if a < b {
            assert(less(top_p, sum(m, probs.take(a))));
        } else if b < a {
            assert(less(top_p, sum(m, probs.take(b))));
        }
    }
}

proof fn lemma_one_draw(m: Math, nucleus: Seq<u32>, draw: u32, a: int, b: int)
    requires
        is_drawn(m, nucleus, draw, a),
        is_drawn(m, nucleus, draw, b),
    ensures
        a == b,
{
    let r = random_number(m, nucleus, draw);
    if a != b {
        let (x, y) = if a < b {
            (a, b)
        } else {
            (b, a)
        };
        assert(at_most(r, sum(m, nucleus.take(y + 1))));
        assert(!at_most(r, sum(m, nucleus.take(x + 1))));
    }
}

} // verus!
