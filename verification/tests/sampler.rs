//! The library's sampling decisions, run with plain floating-point arithmetic
//! and a seeded generator.

use orion_serve::error::EngineError;
use orion_serve::float::{Float32, WrittenFloat};
use orion_serve::id::TokenId;
use orion_serve::sampling as lib;
use orion_serve::sampling_params::{SamplingMode, SamplingParams};
use rand::{RngExt, SeedableRng};
use rand_chacha::ChaCha8Rng;

fn written(v: f32) -> WrittenFloat {
    WrittenFloat::new(v.to_bits(), v.to_string())
}

fn number(v: Float32) -> f32 {
    f32::from_bits(v.bits)
}

fn bits(v: f32) -> Float32 {
    Float32 { bits: v.to_bits() }
}

fn params() -> SamplingParams {
    SamplingParams::default()
}

fn row(v: &[f32]) -> Vec<Float32> {
    v.iter().map(|x| bits(*x)).collect()
}

fn store(logits: &mut [f32], row: &[Float32]) {
    for (l, r) in logits.iter_mut().zip(row) {
        *l = number(*r);
    }
}

fn running_sums(values: impl Iterator<Item = f32>) -> Vec<Float32> {
    let mut sum = 0.0f32;
    values
        .map(|v| {
            sum += v;
            bits(sum)
        })
        .collect()
}

/// Applies a repetition penalty to tokens already in the context (floating
/// point).
fn apply_repetition_penalty(logits: &mut [f32], previous: &[TokenId], penalty: f32) {
    let plan = lib::repetition_penalties(&row(logits), previous, bits(penalty));
    for (l, p) in logits.iter_mut().zip(plan) {
        match p {
            lib::Penalty::Keep => {}
            lib::Penalty::Divide => *l /= penalty,
            lib::Penalty::Multiply => *l *= penalty,
        }
    }
}

/// Scales logits by `1 / temperature` (floating point).
fn apply_temperature(logits: &mut [f32], temperature: f32) {
    if temperature == 1.0 {
        return;
    }
    let inv = 1.0 / temperature;
    for l in logits.iter_mut() {
        *l *= inv;
    }
}

/// Masks all but the `k` highest logits.
fn apply_top_k(logits: &mut [f32], k: usize) {
    let mut r = row(logits);
    lib::apply_top_k(&mut r, k);
    store(logits, &r);
}

/// Masks the tail of the distribution beyond cumulative probability `p`
/// (floating point).
fn apply_top_p(logits: &mut [f32], p: f32) {
    if !lib::filters_nucleus(bits(p)) {
        return;
    }
    let probs = softmax(logits);
    let mut r = row(logits);
    let candidates = lib::nucleus_candidates(&r, &row(&probs));
    let sums = running_sums(candidates.iter().map(|c| probs[c.index]));
    lib::apply_top_p(&mut r, &candidates, &sums, bits(p));
    store(logits, &r);
}

/// Numerically stable softmax (floating point). Masked entries are skipped.
fn softmax(logits: &[f32]) -> Vec<f32> {
    let masked = number(lib::masked());
    let max = logits
        .iter()
        .copied()
        .fold(f32::NEG_INFINITY, |a, b| if b > a { b } else { a });
    if !max.is_finite() || max <= masked {
        // Every logit was masked or non-finite: uniform rather than NaN.
        return vec![1.0 / logits.len() as f32; logits.len()];
    }
    let mut out = vec![0.0f32; logits.len()];
    let mut sum = 0.0f32;
    for (o, &l) in out.iter_mut().zip(logits.iter()) {
        if l <= masked {
            continue;
        }
        let e = (l - max).exp();
        *o = e;
        sum += e;
    }
    if sum > 0.0 {
        for v in out.iter_mut() {
            *v /= sum;
        }
    } else {
        out.fill(1.0 / logits.len() as f32);
    }
    out
}

/// The default sampler: repetition penalty, temperature, top-k, top-p.
///
/// It holds its own generator, so that a seeded request is reproducible however
/// many other requests are in flight.
#[derive(Debug)]
struct DefaultSampler {
    rng: ChaCha8Rng,
}

impl DefaultSampler {
    /// A sampler with a fixed seed.
    fn seeded(seed: u64) -> Self {
        Self {
            rng: ChaCha8Rng::seed_from_u64(seed),
        }
    }

    /// Picks the next token. `logits` is a scratch row.
    fn sample(
        &mut self,
        logits: &mut [f32],
        previous_tokens: &[TokenId],
        params: &SamplingParams,
    ) -> Result<TokenId, EngineError> {
        lib::check_row(logits.len())?;
        apply_repetition_penalty(
            logits,
            previous_tokens,
            number(params.repetition_penalty.value),
        );
        if params.mode() == SamplingMode::Greedy {
            let at = lib::argmax(&row(logits))
                .ok_or_else(|| EngineError::Internal("argmax over empty logits".into()))?;
            return Ok(at as TokenId);
        }
        apply_temperature(logits, number(params.temperature.value));
        apply_top_k(logits, params.top_k);
        apply_top_p(logits, number(params.top_p.value));

        let probs = softmax(logits);
        let sums = running_sums(probs.iter().copied());
        let r: f32 = self.rng.random::<f32>();
        Ok(lib::draw(&row(&probs), &sums, bits(r)) as TokenId)
    }
}

#[test]
fn greedy_decoding_is_deterministic() {
    let mut s = DefaultSampler::seeded(1);
    let p = SamplingParams {
        temperature: written(0.0),
        ..params()
    };
    for _ in 0..20 {
        let mut logits = vec![0.1, 0.9, 0.3, 0.2];
        assert_eq!(s.sample(&mut logits, &[], &p).unwrap(), 1);
    }
}

#[test]
fn the_same_seed_produces_the_same_sequence() {
    let p = SamplingParams {
        temperature: written(1.0),
        ..params()
    };
    let run = |seed: u64| {
        let mut s = DefaultSampler::seeded(seed);
        (0..30)
            .map(|_| {
                let mut logits = vec![1.0, 2.0, 1.5, 0.5, 3.0];
                s.sample(&mut logits, &[], &p).unwrap()
            })
            .collect::<Vec<_>>()
    };

    assert_eq!(run(42), run(42), "seeded sampling must be reproducible");
    assert_ne!(run(42), run(43), "different seeds should diverge");
}

#[test]
fn sampling_always_returns_a_valid_token_id() {
    let mut s = DefaultSampler::seeded(7);
    let p = SamplingParams {
        temperature: written(0.8),
        top_k: 3,
        top_p: written(0.9),
        repetition_penalty: written(1.1),
        ..params()
    };
    for _ in 0..200 {
        let mut logits = vec![1.0, 2.0, 3.0, 0.5, -1.0, 4.0, 0.0, 2.5];
        let t = s.sample(&mut logits, &[1, 2], &p).unwrap();
        assert!((t as usize) < 8, "token {t} out of vocabulary range");
    }
}

#[test]
fn stochastic_sampling_respects_a_top_k_of_one() {
    // With k=1 the distribution collapses, so sampling must equal greedy.
    let mut s = DefaultSampler::seeded(3);
    let p = SamplingParams {
        temperature: written(1.0),
        top_k: 1,
        ..params()
    };
    for _ in 0..50 {
        let mut logits = vec![1.0, 9.0, 2.0];
        assert_eq!(s.sample(&mut logits, &[], &p).unwrap(), 1);
    }
}

#[test]
fn sampling_reflects_the_distribution() {
    // A statistical check: a strongly favoured token should dominate.
    let mut s = DefaultSampler::seeded(11);
    let p = SamplingParams {
        temperature: written(1.0),
        ..params()
    };
    let mut counts = [0usize; 3];
    for _ in 0..3000 {
        let mut logits = vec![0.0, 4.0, 0.0];
        counts[s.sample(&mut logits, &[], &p).unwrap() as usize] += 1;
    }
    // softmax([0,4,0]) puts roughly 96% of mass on index 1.
    assert!(
        counts[1] > 2500,
        "expected the dominant token to win most draws, got {counts:?}"
    );
    assert!(
        counts[0] > 0 && counts[2] > 0,
        "sampling should not be greedy"
    );
}

#[test]
fn top_p_of_one_is_a_no_op() {
    let original = vec![1.0, 2.0, 3.0];
    let mut logits = original.clone();
    apply_top_p(&mut logits, 1.0);
    assert_eq!(logits, original);
}
