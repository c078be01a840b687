//! What temperature, top-k and top-p do to the choice of a token.

use vstd::prelude::*;

use crate::calc::{sum, Calc, Math};
use crate::sampler::{
    all_tempered, candidates_of, draw_of, is_argmax, is_choice, is_ranking, is_sample,
    law_ranking_is_unique, mixed, picks, probabilities, ranked_before, state_after, stepped,
    Candidate, SamplingConfig,
};
use crate::single::{at_most, is_nan, less, total_place, NEG_INFINITY, ONE, ZERO};

verus! {

/// Arithmetic in which it is the same to divide by a number and to multiply with its
/// inverse.
pub open spec fn inverts(m: Math) -> bool {
    forall|x: u32, t: u32|
        #[trigger] m(Calc::Mul(x, m(Calc::Div(ONE, t)))) == m(Calc::Div(x, t))
}

/// Arithmetic that keeps the order of numbers: a number that is not positive does not
/// become smaller where it is divided by something larger, and larger exponents give
/// larger powers.
pub open spec fn keeps_order(m: Math) -> bool {
    &&& forall|d: u32, s: u32, t: u32|
        at_most(d, ZERO) && less(ZERO, s) && at_most(s, t) ==> #[trigger] at_most(
            m(Calc::Div(d, s)),
            m(Calc::Div(d, t)),
        )
    &&& forall|a: u32, b: u32|
        at_most(a, b) ==> #[trigger] at_most(m(Calc::Exp(a)), m(Calc::Exp(b)))
}

/// The temperature divides: the weight of a logit is the exponential of its distance from
/// the largest one over the temperature, and its probability is its weight over the sum
/// of all weights.
pub proof fn law_the_temperature_divides(m: Math, temperature: u32, logits: Seq<u32>, i: int)
    requires
        inverts(m),
        0 <= i < logits.len(),
    ensures
        ({
            let weights = Seq::new(
                logits.len(),
                |j: int|
                    m(Calc::Exp(m(Calc::Div(m(Calc::Sub(logits[j], logits[0])), temperature)))),
            );
            probabilities(m, temperature, logits)[i] == m(Calc::Div(weights[i], sum(m, weights)))
        }),
{
    let weights = Seq::new(
        logits.len(),
        |j: int| m(Calc::Exp(m(Calc::Div(m(Calc::Sub(logits[j], logits[0])), temperature)))),
    );
    assert(all_tempered(m, temperature, logits) =~= weights);
}

/// A lower temperature makes the choice sharper: every logit that is not above the first,
/// largest one gets a weight that is no larger.
pub proof fn law_a_lower_temperature_is_sharper(
    m: Math,
    low: u32,
    high: u32,
    logits: Seq<u32>,
    i: int,
)
    requires
        inverts(m),
        keeps_order(m),
        0 <= i < logits.len(),
        less(ZERO, low),
        at_most(low, high),
        at_most(m(Calc::Sub(logits[i], logits[0])), ZERO),
    ensures
        at_most(all_tempered(m, low, logits)[i], all_tempered(m, high, logits)[i]),
{
    let d = m(Calc::Sub(logits[i], logits[0]));
    assert(m(Calc::Mul(d, m(Calc::Div(ONE, low)))) == m(Calc::Div(d, low)));
    assert(m(Calc::Mul(d, m(Calc::Div(ONE, high)))) == m(Calc::Div(d, high)));
    assert(at_most(m(Calc::Div(d, low)), m(Calc::Div(d, high))));
}

/// The sum of numbers, taken up one by one from zero.
pub proof fn law_sums_are_taken_up_in_turn(m: Math, s: Seq<u32>, x: u32)
    ensures
        sum(m, Seq::empty()) == 0u32,
        sum(m, s.push(x)) == m(Calc::Add(sum(m, s), x)),
{
    assert(s.push(x).drop_last() =~= s);
}

/// At the temperature zero and below the token with the largest logit is chosen, the
/// first of several.
pub proof fn law_cold_choice_is_the_largest(
    m: Math,
    cfg: SamplingConfig,
    state: u64,
    logits: Seq<u32>,
    token: u32,
)
    requires
        at_most(cfg.temperature, ZERO),
        0 < logits.len() <= u32::MAX,
        forall|j: int| 0 <= j < logits.len() ==> less(NEG_INFINITY, #[trigger] logits[j]),
        is_choice(m, cfg, state, logits, token),
    ensures
        token < logits.len(),
        forall|j: int| 0 <= j < logits.len() ==> at_most(#[trigger] logits[j], logits[token as int]),
        forall|j: int| 0 <= j < token ==> less(#[trigger] logits[j], logits[token as int]),
{
    let i = choose|i: int| #[trigger] is_argmax(logits, i) && token == i as u32;
    assert(less(NEG_INFINITY, logits[0]));
    assert forall|j: int| 0 <= j < logits.len() implies at_most(
        #[trigger] logits[j],
        logits[token as int],
    ) by {
        assert(!less(logits[i], logits[j]));
        assert(less(NEG_INFINITY, logits[j]));
    }
    assert forall|j: int| 0 <= j < token implies less(#[trigger] logits[j], logits[token as int]) by {
        assert(less(NEG_INFINITY, logits[j]));
        assert(less(logits[j], logits[i]) || is_nan(logits[j]));
    }
}

proof fn lemma_ranked(logits: Seq<u32>, ranking: Seq<Candidate>)
    requires
        logits.len() <= usize::MAX,
        is_ranking(logits, ranking),
    ensures
        ranking.len() == logits.len(),
        forall|k: int|
            0 <= k < ranking.len() ==> (#[trigger] ranking[k]).id < logits.len()
                && ranking[k].logit == logits[ranking[k].id as int],
        forall|i: int|
            0 <= i < logits.len() ==> #[trigger] ranking.contains(candidates_of(logits)[i]),
{
    broadcast use vstd::seq_lib::group_to_multiset_ensures;

    let all = candidates_of(logits);
    assert(ranking.to_multiset().len() == ranking.len());
    assert(all.to_multiset().len() == all.len());
    assert forall|k: int| 0 <= k < ranking.len() implies (#[trigger] ranking[k]).id < logits.len()
        && ranking[k].logit == logits[ranking[k].id as int] by {
        assert(ranking.contains(ranking[k]));
        assert(all.to_multiset().count(ranking[k]) > 0);
        assert(all.contains(ranking[k]));
    }
    assert forall|i: int| 0 <= i < logits.len() implies #[trigger] ranking.contains(all[i]) by {
        assert(all.contains(all[i]));
        assert(ranking.to_multiset().count(all[i]) > 0);
    }
}

/// Only the `top_k` largest logits are sampled from: fewer than `top_k` tokens have a
/// larger logit than the one that is chosen. Here `larger` are any tokens with a larger
/// one, without repetition.
pub proof fn law_only_the_largest_are_sampled(
    m: Math,
    cfg: SamplingConfig,
    draw: u32,
    logits: Seq<u32>,
    token: u32,
    larger: Seq<int>,
)
    requires
        0 < logits.len() <= u32::MAX,
        cfg.top_k > 0,
        is_sample(m, cfg, draw, logits, token),
        larger.no_duplicates(),
        forall|i: int|
            0 <= i < larger.len() ==> 0 <= #[trigger] larger[i] < logits.len() && total_place(
                logits[larger[i]],
            ) > total_place(logits[token as int]),
    ensures
        token < logits.len(),
        larger.len() < cfg.top_k,
{
    let (ranking, cutoff, k) = choose|ranking: Seq<Candidate>, cutoff: int, k: int| #[trigger]
        is_ranking(logits, ranking) && #[trigger] picks(m, cfg, draw, ranking, cutoff, k, token);
    lemma_ranked(logits, ranking);
    let all = candidates_of(logits);
    assert(ranking[k].id == token);
    let places = Seq::new(
        larger.len(),
        |i: int| choose|p: int| 0 <= p < ranking.len() && ranking[p] == all[larger[i]],
    );
    assert forall|i: int| 0 <= i < larger.len() implies 0 <= #[trigger] places[i] < k
        && ranking[places[i]] == all[larger[i]] by {
        assert(ranking.contains(all[larger[i]]));
        let p = places[i];
        assert(0 <= p < ranking.len() && ranking[p] == all[larger[i]]);
        if p > k {
            assert(ranked_before(ranking[k], ranking[p]));
        }
    }
    assert(places.no_duplicates()) by {
        assert forall|i: int, j: int|
            0 <= i < places.len() && 0 <= j < places.len() && i != j implies places[i]
            != places[j] by {
            if places[i] == places[j] {
                assert(ranking[places[i]] == all[larger[i]]);
                assert(ranking[places[j]] == all[larger[j]]);
                assert(larger[i] == larger[j]);
            }
        }
    }
    lemma_few_places(places, k);
}

/// Different numbers from 0 on below `n` are no more than `n`.
proof fn lemma_few_places(places: Seq<int>, n: int)
    requires
        0 <= n,
        places.no_duplicates(),
        forall|i: int| 0 <= i < places.len() ==> 0 <= #[trigger] places[i] < n,
    ensures
        places.len() <= n,
{
    places.unique_seq_to_set();
    let all = vstd::set_lib::set_int_range(0, n);
    vstd::set_lib::lemma_int_range(0, n);
    assert(places.to_set().subset_of(all)) by {
        assert forall|x: int| places.to_set().contains(x) implies all.contains(x) by {
            let i = choose|i: int| 0 <= i < places.len() && places[i] == x;
            assert(0 <= places[i] < n);
        }
    }
    vstd::set_lib::lemma_len_subset(places.to_set(), all);
}

/// How many of `n` candidates are kept: `top_k`, or all where that is zero or no less.
pub open spec fn front_len(top_k: usize, n: nat) -> nat {
    if top_k == 0 || top_k >= n {
        n
    } else {
        top_k as nat
    }
}

/// The weights of the first `n` candidates: the exponentials of the distances of their
/// logits from the first one, over the temperature.
pub open spec fn front_weights(
    m: Math,
    temperature: u32,
    ranking: Seq<Candidate>,
    n: nat,
) -> Seq<u32> {
    Seq::new(
        n,
        |j: int|
            m(
                Calc::Exp(
                    m(
                        Calc::Div(
                            m(Calc::Sub(ranking[j].logit, ranking[0].logit)),
                            temperature,
                        ),
                    ),
                ),
            ),
    )
}

/// The probabilities of the first `n` candidates: their weights over the sum of these.
pub open spec fn front_probabilities(
    m: Math,
    temperature: u32,
    ranking: Seq<Candidate>,
    n: nat,
) -> Seq<u32> {
    let weights = front_weights(m, temperature, ranking, n);
    Seq::new(n, |j: int| m(Calc::Div(weights[j], sum(m, weights))))
}

/// How a token is sampled. The tokens are ranked by their logits, the largest first; of
/// these `top_k` are kept, or all where `top_k` is zero or more than there are. Their
/// probabilities are those of a softmax over the temperature. Of them as many are kept,
/// from the front, as it takes to exceed `top_p`, or all where that is not below one or is
/// never exceeded. The drawn bits over 2^24, times the probability that is left, fall on
/// the first token up to which the probabilities add up to no less; the first is taken
/// where they never do.
pub proof fn law_how_a_token_is_sampled(
    m: Math,
    cfg: SamplingConfig,
    draw: u32,
    logits: Seq<u32>,
    ranking: Seq<Candidate>,
    token: u32,
)
    requires
        inverts(m),
        0 < logits.len() <= u32::MAX,
        is_ranking(logits, ranking),
        is_sample(m, cfg, draw, logits, token),
    ensures
        ({
            let n = front_len(cfg.top_k, logits.len());
            let p = front_probabilities(m, cfg.temperature, ranking, n);
            exists|c: int, k: int|
                {
                    &&& #[trigger] is_front(m, cfg.top_p, p, c)
                    &&& #[trigger] falls_on(m, p.take(c), draw, k)
                    &&& 0 <= k < n
                    &&& token == ranking[k].id
                }
        }),
{
    let (other, c, k) = choose|other: Seq<Candidate>, c: int, k: int| #[trigger]
        is_ranking(logits, other) && #[trigger] picks(m, cfg, draw, other, c, k, token);
    law_ranking_is_unique(logits, ranking, other);
    lemma_ranked(logits, ranking);
    let n = front_len(cfg.top_k, logits.len());
    let top = crate::sampler::top_of(ranking, cfg.top_k);
    assert(top =~= ranking.take(n as int));
    let kept = crate::sampler::logits_of(top);
    let p = front_probabilities(m, cfg.temperature, ranking, n);
    assert(all_tempered(m, cfg.temperature, kept) =~= front_weights(
        m,
        cfg.temperature,
        ranking,
        n,
    ));
    assert(probabilities(m, cfg.temperature, kept) =~= p);
    assert(is_front(m, cfg.top_p, p, c)) by {
        assert forall|i: int| 0 < i < c && less(cfg.top_p, ONE) implies !less(
            cfg.top_p,
            #[trigger] sum(m, p.take(i)),
        ) by {}
    }
    assert(falls_on(m, p.take(c), draw, k));
    assert(top[k] == ranking[k]);
    assert(ranking[k].id < logits.len());
    assert(token == ranking[k].id);
}

/// Whether the first `c` probabilities are those that are kept: as few as exceed `top_p`,
/// or all.
pub open spec fn is_front(m: Math, top_p: u32, p: Seq<u32>, c: int) -> bool {
    if less(top_p, ONE) && exists|i: int| 0 < i <= p.len() && less(top_p, #[trigger] sum(m, p.take(i))) {
        &&& 0 < c <= p.len()
        &&& less(top_p, sum(m, p.take(c)))
        &&& forall|i: int| 0 < i < c ==> !less(top_p, #[trigger] sum(m, p.take(i)))
    } else {
        c == p.len()
    }
}

/// Whether the drawn bits fall on the probability `k`.
pub open spec fn falls_on(m: Math, p: Seq<u32>, draw: u32, k: int) -> bool {
    let r = m(
        Calc::Mul(m(Calc::Div(m(Calc::OfCount(draw as usize)), 0x4B80_0000)), sum(m, p)),
    );
    if exists|i: int| 0 < i <= p.len() && at_most(r, #[trigger] sum(m, p.take(i))) {
        &&& 0 <= k < p.len()
        &&& at_most(r, sum(m, p.take(k + 1)))
        &&& forall|i: int| 0 < i <= k ==> !at_most(r, #[trigger] sum(m, p.take(i)))
    } else {
        k == 0
    }
}

/// The generator is SplitMix64: the state goes on by a constant and is mixed by two
/// multiplications between three shifts; a draw is the highest 24 of the 64 bits.
pub proof fn law_draws_are_the_highest_bits(state: u64)
    ensures
        ({
            let next = state.wrapping_add(0x9E37_79B9_7F4A_7C15);
            let x = (next ^ (next >> 30)).wrapping_mul(0xBF58_476D_1CE4_E5B9);
            let y = (x ^ (x >> 27)).wrapping_mul(0x94D0_49BB_1331_11EB);
            let z = y ^ (y >> 31);
            &&& stepped(state) == next
            &&& mixed(next) == z
            &&& draw_of(state) == z / 0x100_0000_0000
        }),
{
    let z = mixed(stepped(state));
    assert((z >> 40) as u32 == z / 0x100_0000_0000) by (bit_vector);
}

/// No two states lead to the same next state, so that the generator runs through all of
/// them.
pub proof fn law_states_do_not_collide(a: u64, b: u64)
    requires
        stepped(a) == stepped(b),
    ensures
        a == b,
{
}

/// And what is drawn that way is a sample: there is no other condition on it.
pub proof fn law_what_is_drawn_is_a_sample(
    m: Math,
    cfg: SamplingConfig,
    draw: u32,
    logits: Seq<u32>,
    ranking: Seq<Candidate>,
    c: int,
    k: int,
)
    requires
        inverts(m),
        0 < logits.len() <= u32::MAX,
        is_ranking(logits, ranking),
        ({
            let n = front_len(cfg.top_k, logits.len());
            let p = front_probabilities(m, cfg.temperature, ranking, n);
            is_front(m, cfg.top_p, p, c) && falls_on(m, p.take(c), draw, k)
        }),
    ensures
        is_sample(m, cfg, draw, logits, ranking[k].id as u32),
{
    lemma_ranked(logits, ranking);
    let n = front_len(cfg.top_k, logits.len());
    let top = crate::sampler::top_of(ranking, cfg.top_k);
    assert(top =~= ranking.take(n as int));
    let kept = crate::sampler::logits_of(top);
    let p = front_probabilities(m, cfg.temperature, ranking, n);
    assert(all_tempered(m, cfg.temperature, kept) =~= front_weights(
        m,
        cfg.temperature,
        ranking,
        n,
    ));
    assert(probabilities(m, cfg.temperature, kept) =~= p);
    assert(top[k] == ranking[k]);
    assert(picks(m, cfg, draw, ranking, c, k, ranking[k].id as u32));
}

/// A sampler goes on to the next state of its generator with every token that it samples;
/// one that takes the largest logit does not draw, and stays where it is.
pub proof fn law_the_generator_goes_on_with_every_sample(cfg: SamplingConfig, state: u64)
    ensures
        less(0, cfg.temperature) ==> state_after(cfg, state) == state.wrapping_add(
            0x9E37_79B9_7F4A_7C15,
        ),
        at_most(cfg.temperature, 0) ==> state_after(cfg, state) == state,
{
}

} // verus!
