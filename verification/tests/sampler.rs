use gguf_rs::calc::Calc;
use gguf_rs::sampler::{argmax, rank, Rng, Sampler, SamplingConfig};
use gguf_rs::single::{is_at_most, is_less, magnitude_of, not_a_number, total_rank, NEG_INFINITY};

fn bits(x: &[f32]) -> Vec<u32> {
    x.iter().map(|v| v.to_bits()).collect()
}

fn f(b: u32) -> f32 {
    f32::from_bits(b)
}

/// Samples with ordinary single-precision arithmetic.
fn sample(s: &mut Sampler, logits: &[f32]) -> u32 {
    s.sample(&bits(logits), &calc)
}

fn calc(c: Calc) -> u32 {
    let r = match c {
        Calc::Add(a, b) => f(a) + f(b),
        Calc::Sub(a, b) => f(a) - f(b),
        Calc::Mul(a, b) => f(a) * f(b),
        Calc::Div(a, b) => f(a) / f(b),
        Calc::Exp(a) => f(a).exp(),
        Calc::OfCount(n) => n as f32,
        _ => panic!("a calculation that sampling does not need"),
    };
    r.to_bits()
}

#[test]
fn greedy_picks_argmax() {
    let mut s = Sampler::new(SamplingConfig::greedy());
    let logits = [0.1, 3.0, -1.0, 2.9];
    assert_eq!(sample(&mut s, &logits), 1);
}

#[test]
fn top_k_1_is_deterministic() {
    let cfg = SamplingConfig {
        temperature: 1.0f32.to_bits(),
        top_k: 1,
        top_p: 1.0f32.to_bits(),
        seed: 42,
    };
    let mut s = Sampler::new(cfg);
    let logits = [0.1, 5.0, 0.2, 0.3];
    for _ in 0..20 {
        assert_eq!(sample(&mut s, &logits), 1);
    }
}

#[test]
fn distribution_is_reproducible() {
    let cfg = SamplingConfig {
        temperature: 1.0f32.to_bits(),
        top_k: 0,
        top_p: 1.0f32.to_bits(),
        seed: 7,
    };
    let logits = [1.0f32, 2.0, 0.5, 1.5, 3.0];
    let a: Vec<u32> = {
        let mut s = Sampler::new(cfg.clone());
        (0..10).map(|_| sample(&mut s, &logits)).collect()
    };
    let b: Vec<u32> = {
        let mut s = Sampler::new(cfg);
        (0..10).map(|_| sample(&mut s, &logits)).collect()
    };
    assert_eq!(a, b);
}

#[test]
fn rng_stays_in_unit_interval() {
    let mut rng = Rng::new(123);
    for _ in 0..10_000 {
        let x = rng.next_bits() as f32 / (1u32 << 24) as f32;
        assert!((0.0..1.0).contains(&x));
    }
}

#[test]
fn default_settings() {
    let c = SamplingConfig::default();
    assert_eq!(f(c.temperature), 0.7);
    assert_eq!(c.top_k, 40);
    assert_eq!(f(c.top_p), 0.95);
    assert_eq!(f(SamplingConfig::greedy().temperature), 0.0);
}

#[test]
fn every_token_of_a_flat_distribution_comes_up() {
    let cfg = SamplingConfig {
        temperature: 1.0f32.to_bits(),
        top_k: 0,
        top_p: 1.0f32.to_bits(),
        seed: 3,
    };
    let mut s = Sampler::new(cfg);
    let logits = [1.0f32; 4];
    let mut seen = [false; 4];
    for _ in 0..200 {
        seen[sample(&mut s, &logits) as usize] = true;
    }
    assert_eq!(seen, [true; 4]);
}

#[test]
fn nucleus_leaves_out_the_tail() {
    // The first token alone has more than half of the probability.
    let cfg = SamplingConfig {
        temperature: 1.0f32.to_bits(),
        top_k: 0,
        top_p: 0.5f32.to_bits(),
        seed: 3,
    };
    let mut s = Sampler::new(cfg);
    for _ in 0..100 {
        assert_eq!(sample(&mut s, &[0.0, 9.0, 0.0, 1.0]), 1);
    }
}

#[test]
fn argmax_takes_the_first_of_equal_ones() {
    assert_eq!(argmax(&bits(&[1.0, 3.0, 3.0])), 1);
    assert_eq!(argmax(&bits(&[-1.0, -2.0])), 0);
    assert_eq!(argmax(&bits(&[f32::NAN, 1.0])), 1);
}

#[test]
fn ranking_is_from_the_largest_down() {
    let ids: Vec<usize> = rank(&bits(&[0.5, -3.0, 2.0, 0.5]))
        .iter()
        .map(|c| c.id)
        .collect();
    assert_eq!(ids, vec![2, 0, 3, 1]);
}

#[test]
fn comparison_of_bits_is_that_of_the_numbers() {
    let values = [
        f32::NEG_INFINITY,
        -1.5,
        -0.0,
        0.0,
        1e-40,
        1.0,
        f32::INFINITY,
        f32::NAN,
    ];
    for a in values {
        for b in values {
            assert_eq!(is_less(a.to_bits(), b.to_bits()), a < b);
            assert_eq!(is_at_most(a.to_bits(), b.to_bits()), a <= b);
            assert_eq!(
                total_rank(a.to_bits()) < total_rank(b.to_bits()),
                a.total_cmp(&b).is_lt()
            );
        }
        assert_eq!(not_a_number(a.to_bits()), a.is_nan());
        assert_eq!(f(magnitude_of(a.to_bits())).to_bits(), a.abs().to_bits());
    }
    assert_eq!(f(NEG_INFINITY), f32::NEG_INFINITY);
}

#[test]
fn nucleus_goes_past_a_probability_that_it_only_meets() {
    // The first token has just half of the probability, which does not exceed one half.
    let cfg = SamplingConfig {
        temperature: 1.0f32.to_bits(),
        top_k: 0,
        top_p: 0.5f32.to_bits(),
        seed: 3,
    };
    let mut s = Sampler::new(cfg);
    let mut seen = [false; 2];
    for _ in 0..200 {
        seen[sample(&mut s, &[0.0, 0.0]) as usize] = true;
    }
    assert_eq!(seen, [true; 2]);
}
