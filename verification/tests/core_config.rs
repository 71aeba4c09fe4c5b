use orion_serve::config::{
    CacheConfig, EngineConfig, PreemptionMode, SchedulerConfig, ServerConfig,
};
use orion_serve::float::WrittenFloat;

fn written(v: f32) -> WrittenFloat {
    WrittenFloat::new(v.to_bits(), format!("{v}"))
}

#[test]
fn defaults_are_valid() {
    assert!(EngineConfig::default().validate().is_ok());
}

#[test]
fn block_size_must_be_a_power_of_two_in_range() {
    for bad in [0usize, 3, 12, 100] {
        let c = CacheConfig {
            block_size: bad,
            ..Default::default()
        };
        assert!(c.validate().is_err(), "accepted block_size {bad}");
    }
    for good in [4usize, 16, 32, 256] {
        let c = CacheConfig {
            block_size: good,
            ..Default::default()
        };
        assert!(c.validate().is_ok(), "rejected block_size {good}");
    }
    // A power of two can still be out of range.
    let c = CacheConfig {
        block_size: 512,
        ..Default::default()
    };
    assert!(c.validate().is_err());
}

#[test]
fn memory_utilization_must_be_a_sane_fraction() {
    for bad in [0.0, -0.1, 1.5, f32::NAN] {
        let c = CacheConfig {
            gpu_memory_utilization: written(bad),
            ..Default::default()
        };
        assert!(c.validate().is_err(), "accepted utilization {bad}");
    }
}

#[test]
fn token_budget_below_sequence_count_is_rejected() {
    let s = SchedulerConfig {
        max_num_seqs: 256,
        max_num_batched_tokens: 128,
        ..Default::default()
    };
    assert!(s.validate().is_err());
}

#[test]
fn unchunked_prefill_shorter_than_context_is_rejected() {
    let s = SchedulerConfig {
        enable_chunked_prefill: false,
        max_model_len: Some(32768),
        max_num_batched_tokens: 8192,
        ..Default::default()
    };
    assert!(
        s.validate().is_err(),
        "a prompt at max_model_len could never be scheduled"
    );

    // The same setting is fine once chunked prefill is on.
    let s = SchedulerConfig {
        enable_chunked_prefill: true,
        ..s
    };
    assert!(s.validate().is_ok());
}

#[test]
fn swap_preemption_requires_swap_blocks() {
    let cfg = EngineConfig {
        scheduler: SchedulerConfig {
            preemption_mode: PreemptionMode::Swap,
            ..Default::default()
        },
        ..Default::default()
    };
    assert!(cfg.validate().is_err());

    let cfg = EngineConfig {
        cache: CacheConfig {
            num_cpu_swap_blocks: 512,
            ..Default::default()
        },
        ..cfg
    };
    assert!(cfg.validate().is_ok());
}

#[test]
fn server_limits_are_bounded() {
    assert!(ServerConfig {
        host: "  ".into(),
        ..Default::default()
    }
    .validate()
    .is_err());
    assert!(ServerConfig {
        port: 0,
        ..Default::default()
    }
    .validate()
    .is_err());
    assert!(ServerConfig {
        max_request_bytes: 16,
        ..Default::default()
    }
    .validate()
    .is_err());
}
