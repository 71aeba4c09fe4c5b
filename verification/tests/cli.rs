use orion_serve::cli::{describe, ServeOptions};
use orion_serve::config::{CacheConfig, EngineConfig};
use orion_serve::float::Float32;
use orion_serve::models::config::Architecture;
use orion_serve::traits::{DType, ModelMetadata};

fn options() -> ServeOptions {
    ServeOptions {
        host: "0.0.0.0".to_string(),
        port: 9000,
        num_blocks: 4096,
        block_size: 32,
        max_num_seqs: 128,
        max_num_batched_tokens: 4096,
        max_model_len: None,
        no_prefix_caching: true,
        no_chunked_prefill: false,
    }
}

#[test]
fn a_bad_block_size_is_caught_by_config_validation() {
    // 12 is not a power of two; validation must reject it before any model
    // is loaded.
    let config = EngineConfig {
        cache: CacheConfig {
            block_size: 12,
            num_blocks: Some(64),
            ..Default::default()
        },
        ..Default::default()
    };
    assert!(config.validate().is_err());
}

#[test]
fn options_become_a_configuration() {
    let c = options().engine_config();
    assert!(c.validate().is_ok());
    assert_eq!(c.cache.block_size, 32);
    assert_eq!(c.cache.num_blocks, Some(4096));
    assert!(!c.cache.enable_prefix_caching);
    assert_eq!(c.scheduler.max_num_seqs, 128);
    assert!(c.scheduler.enable_chunked_prefill);
    assert_eq!(c.server.host, "0.0.0.0");
    assert_eq!(c.server.port, 9000);
}

#[test]
fn the_model_bounds_requests_unless_the_operator_does() {
    let o = options();
    let c = o.engine_config();
    assert_eq!(o.scheduler_config(&c, 8192).max_model_len, Some(8192));
    let o = ServeOptions {
        max_model_len: Some(100),
        ..options()
    };
    assert_eq!(o.scheduler_config(&c, 8192).max_model_len, Some(100));
}

#[test]
fn a_model_is_described_line_by_line() {
    let m = ModelMetadata {
        architecture: "llama".into(),
        name: "t".into(),
        hidden_size: 4096,
        num_layers: 32,
        num_attention_heads: 32,
        num_kv_heads: 8,
        head_dim: 128,
        vocab_size: 32000,
        max_position_embeddings: 4096,
        rope_theta: Float32 { bits: 0 },
        rms_norm_eps: Float32 { bits: 0 },
        dtype: DType::F16,
        eos_token_ids: vec![2, 7],
        bos_token_id: None,
    };
    assert_eq!(
        describe(&m, Architecture::Llama),
        "architecture:      llama (llama)\n\
         hidden size:       4096\n\
         layers:            32\n\
         attention heads:   32\n\
         kv heads:          8 (GQA, 4x grouping)\n\
         head dim:          128\n\
         vocab size:        32000\n\
         max positions:     4096\n\
         dtype:             f16\n\
         eos token ids:     [2, 7]\n"
    );
}
