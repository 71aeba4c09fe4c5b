use orion_serve::error::EngineError;
use orion_serve::float::Float32;
use orion_serve::sampling::{
    apply_top_k, apply_top_p, argmax, check_row, draw, filters_nucleus, masked,
    nucleus_candidates, repetition_penalties, Penalty,
};

fn number(v: f32) -> Float32 {
    Float32 { bits: v.to_bits() }
}

fn row(v: &[f32]) -> Vec<Float32> {
    v.iter().map(|x| number(*x)).collect()
}

fn values(v: &[Float32]) -> Vec<f32> {
    v.iter().map(|x| f32::from_bits(x.bits)).collect()
}

fn softmax(logits: &[Float32]) -> Vec<f32> {
    let v = values(logits);
    let max = v.iter().copied().fold(f32::NEG_INFINITY, f32::max);
    let e: Vec<f32> = v.iter().map(|l| (l - max).exp()).collect();
    let sum: f32 = e.iter().sum();
    e.iter().map(|x| x / sum).collect()
}

fn running_sums(v: impl Iterator<Item = f32>) -> Vec<Float32> {
    let mut sum = 0.0f32;
    v.map(|x| {
        sum += x;
        number(sum)
    })
    .collect()
}

fn top_p(logits: &mut Vec<Float32>, p: f32) -> usize {
    let probs = softmax(logits);
    let candidates = nucleus_candidates(logits, &row(&probs));
    let sums = running_sums(candidates.iter().map(|c| probs[c.index]));
    apply_top_p(logits, &candidates, &sums, number(p))
}

fn penalised(logits: &[f32], previous: &[u32], penalty: f32) -> Vec<f32> {
    repetition_penalties(&row(logits), previous, number(penalty))
        .iter()
        .zip(logits)
        .map(|(p, l)| match p {
            Penalty::Keep => *l,
            Penalty::Divide => l / penalty,
            Penalty::Multiply => l * penalty,
        })
        .collect()
}

#[test]
fn argmax_picks_the_largest_and_breaks_ties_low() {
    assert_eq!(argmax(&row(&[1.0, 5.0, 3.0])), Some(1));
    assert_eq!(
        argmax(&row(&[5.0, 5.0, 1.0])),
        Some(0),
        "ties go to lowest index"
    );
    assert_eq!(argmax(&[]), None);
    assert_eq!(argmax(&row(&[f32::NAN, -3.0, f32::NAN])), Some(1));
    assert_eq!(argmax(&row(&[f32::NEG_INFINITY, f32::NAN])), None);
}

#[test]
fn top_k_keeps_exactly_k_candidates() {
    let mut logits = row(&[1.0, 5.0, 3.0, 2.0, 4.0]);
    apply_top_k(&mut logits, 2);
    let kept: Vec<usize> = logits
        .iter()
        .enumerate()
        .filter(|(_, l)| **l != masked())
        .map(|(i, _)| i)
        .collect();
    assert_eq!(kept, vec![1, 4], "the two largest are 5.0 and 4.0");
    assert_eq!(values(&logits)[0], -1.0e30);
}

#[test]
fn top_k_is_disabled_at_zero_or_beyond_the_vocabulary() {
    let original = row(&[1.0, 5.0, 3.0]);
    for k in [0, 3, 100] {
        let mut logits = original.clone();
        apply_top_k(&mut logits, k);
        assert_eq!(logits, original, "k={k} should be a no-op");
    }
}

#[test]
fn top_k_never_masks_everything() {
    let mut logits = row(&[2.0, 2.0, 2.0, 2.0]);
    apply_top_k(&mut logits, 1);
    assert!(
        logits.iter().any(|l| *l != masked()),
        "at least one candidate must survive"
    );
}

#[test]
fn top_p_keeps_the_nucleus_and_masks_the_tail() {
    // Probabilities approximately 0.87 / 0.12 / 0.006 / 0.002.
    let mut logits = row(&[5.0, 3.0, 0.0, -1.0]);
    top_p(&mut logits, 0.9);

    assert!(logits[0] != masked(), "the top token must always survive");
    assert!(logits[2] == masked(), "the tail must be masked");
    assert!(logits[3] == masked());
}

#[test]
fn a_share_of_one_filters_nothing() {
    assert!(!filters_nucleus(number(1.0)));
    assert!(!filters_nucleus(number(2.0)));
    assert!(filters_nucleus(number(0.99)));
}

#[test]
fn top_p_always_keeps_at_least_one_token() {
    // Even a tiny p must not produce an empty candidate set.
    let mut logits = row(&[1.0, 1.0, 1.0, 1.0]);
    let cutoff = top_p(&mut logits, 0.01);
    assert_eq!(cutoff, 1);
    assert_eq!(
        logits.iter().filter(|l| **l != masked()).count(),
        1,
        "exactly the single most probable token"
    );
}

#[test]
fn masked_entries_are_no_candidates() {
    let logits = vec![number(1.0), masked(), number(2.0)];
    let c = nucleus_candidates(&logits, &row(&[0.2, 0.3, 0.5]));
    let order: Vec<usize> = c.iter().map(|r| r.index).collect();
    assert_eq!(order, vec![2, 0]);
}

#[test]
fn repetition_penalty_lowers_logits_in_both_directions() {
    // The sign-aware part: a naive subtract would raise the negative logit.
    let logits = penalised(&[2.0, -2.0, 1.0], &[0, 1], 2.0);

    assert_eq!(logits[0], 1.0, "positive logit divided");
    assert_eq!(logits[1], -4.0, "negative logit multiplied");
    assert_eq!(logits[2], 1.0, "untouched token unchanged");
}

#[test]
fn repetition_penalty_applies_once_per_distinct_token() {
    let logits = penalised(&[4.0, 1.0], &[0, 0, 0, 0], 2.0);
    assert_eq!(logits[0], 2.0, "four occurrences, one application");
}

#[test]
fn repetition_penalty_of_one_is_a_no_op() {
    assert_eq!(penalised(&[2.0, -2.0], &[0, 1], 1.0), vec![2.0, -2.0]);
}

#[test]
fn repetition_penalty_ignores_out_of_range_tokens() {
    assert_eq!(
        penalised(&[1.0, 2.0], &[99], 2.0),
        vec![1.0, 2.0],
        "must not panic or corrupt"
    );
}

#[test]
fn an_empty_logits_row_is_an_internal_error_not_a_panic() {
    let err = check_row(0).unwrap_err();
    assert!(matches!(err, EngineError::Internal(_)));
    assert!(check_row(1).is_ok());
}

#[test]
fn a_draw_falls_into_the_first_sum_above_it() {
    let probs = [0.25f32, 0.0, 0.5, 0.25, 0.0];
    let sums = running_sums(probs.iter().copied());
    assert_eq!(draw(&row(&probs), &sums, number(0.0)), 0);
    assert_eq!(draw(&row(&probs), &sums, number(0.25)), 2);
    assert_eq!(draw(&row(&probs), &sums, number(0.9)), 3);
    // Past the total: the last entry with some probability.
    assert_eq!(draw(&row(&probs), &sums, number(1.0)), 3);
    assert_eq!(draw(&row(&[0.0, 0.0]), &row(&[0.0, 0.0]), number(0.5)), 1);
}
