use orion_serve::float::WrittenFloat;
use orion_serve::sampling_params::{
    SamplingMode, SamplingParams, MAX_LOGPROBS, MAX_STOP_SEQUENCES,
};

fn written(v: f32) -> WrittenFloat {
    WrittenFloat::new(v.to_bits(), format!("{v}"))
}

#[test]
fn defaults_validate() {
    assert!(SamplingParams::default().validate().is_ok());
}

#[test]
fn zero_temperature_is_greedy_and_deterministic() {
    let p = SamplingParams {
        temperature: written(0.0),
        ..Default::default()
    };
    assert_eq!(p.mode(), SamplingMode::Greedy);
    assert!(p.is_deterministic());
}

#[test]
fn unseeded_stochastic_sampling_is_not_deterministic() {
    let p = SamplingParams::default();
    assert_eq!(p.mode(), SamplingMode::Stochastic);
    assert!(!p.is_deterministic());
    assert!(p.with_seed(42).is_deterministic());
}

#[test]
fn rejects_non_finite_temperature() {
    for bad in [f32::NAN, f32::INFINITY, -1.0] {
        let p = SamplingParams {
            temperature: written(bad),
            ..Default::default()
        };
        assert!(p.validate().is_err(), "accepted temperature {bad}");
    }
}

#[test]
fn rejects_top_p_outside_unit_interval() {
    for bad in [0.0, -0.5, 1.5, f32::NAN] {
        let p = SamplingParams {
            top_p: written(bad),
            ..Default::default()
        };
        assert!(p.validate().is_err(), "accepted top_p {bad}");
    }
    assert!(SamplingParams {
        top_p: written(1.0),
        ..Default::default()
    }
    .validate()
    .is_ok());
}

#[test]
fn rejects_zero_max_tokens_and_inverted_bounds() {
    assert!(SamplingParams {
        max_tokens: 0,
        ..Default::default()
    }
    .validate()
    .is_err());
    assert!(SamplingParams {
        min_tokens: 10,
        max_tokens: 5,
        ..Default::default()
    }
    .validate()
    .is_err());
}

#[test]
fn rejects_excessive_logprobs_and_stop_sequences() {
    assert!(SamplingParams {
        logprobs: Some(MAX_LOGPROBS + 1),
        ..Default::default()
    }
    .validate()
    .is_err());
    assert!(SamplingParams {
        stop_sequences: vec!["x".into(); MAX_STOP_SEQUENCES + 1],
        ..Default::default()
    }
    .validate()
    .is_err());
    assert!(SamplingParams {
        stop_sequences: vec![String::new()],
        ..Default::default()
    }
    .validate()
    .is_err());
}
