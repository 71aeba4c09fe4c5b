use orion_serve::error::ModelError;
use orion_serve::float::Float32;
use orion_serve::models::config::{Architecture, EosField, HfConfig};
use orion_serve::traits::DType;

fn number(v: f32) -> Float32 {
    Float32 { bits: v.to_bits() }
}

/// A small configuration that states only what must be stated.
fn small(architectures: &[&str]) -> HfConfig {
    HfConfig {
        architectures: architectures.iter().map(|s| s.to_string()).collect(),
        model_type: None,
        hidden_size: 64,
        num_hidden_layers: 2,
        num_attention_heads: 4,
        num_key_value_heads: None,
        head_dim: None,
        vocab_size: 100,
        intermediate_size: None,
        max_position_embeddings: None,
        rope_theta: None,
        rms_norm_eps: None,
        torch_dtype: None,
        eos_token_id: None,
        bos_token_id: None,
        tie_word_embeddings: None,
    }
}

#[test]
fn parses_a_realistic_llama_config() {
    let c = HfConfig {
        architectures: vec!["LlamaForCausalLM".to_string()],
        model_type: Some("llama".to_string()),
        hidden_size: 4096,
        num_hidden_layers: 32,
        num_attention_heads: 32,
        num_key_value_heads: Some(8),
        head_dim: None,
        vocab_size: 128256,
        intermediate_size: Some(14336),
        max_position_embeddings: Some(8192),
        rope_theta: Some(number(500000.0)),
        rms_norm_eps: Some(number(1e-05)),
        torch_dtype: Some("bfloat16".to_string()),
        eos_token_id: Some(EosField::Multiple(vec![128001, 128009])),
        bos_token_id: Some(128000),
        tie_word_embeddings: None,
    };
    let m = c.to_metadata("llama-3-8b".into()).unwrap();

    assert_eq!(m.architecture, "llama");
    assert_eq!(m.num_layers, 32);
    assert_eq!(m.num_kv_heads, 8);
    assert_eq!(m.head_dim, 128, "derived from hidden_size / heads");
    assert_eq!(m.dtype, DType::BF16);
    assert_eq!(m.eos_token_ids, vec![128001, 128009]);
    assert_eq!(m.bos_token_id, Some(128000));
    assert!(m.uses_gqa());
    assert_eq!(m.gqa_group_size(), 4);
}

#[test]
fn a_single_eos_id_is_accepted_as_well_as_a_list() {
    let c = HfConfig {
        eos_token_id: Some(EosField::Single(2)),
        ..small(&["LlamaForCausalLM"])
    };
    assert_eq!(c.to_metadata("t".into()).unwrap().eos_token_ids, vec![2]);
}

#[test]
fn absent_kv_heads_means_multi_head_attention() {
    let m = small(&["LlamaForCausalLM"]).to_metadata("t".into()).unwrap();
    assert_eq!(m.num_kv_heads, 4);
    assert!(!m.uses_gqa());
}

#[test]
fn a_config_without_architectures_goes_by_its_model_type() {
    let c = HfConfig {
        model_type: Some("llama".to_string()),
        max_position_embeddings: Some(1024),
        ..small(&[])
    };
    let m = c.to_metadata("t".into()).unwrap();
    assert_eq!(m.num_layers, 2);
    assert_eq!(m.num_attention_heads, 4);
    assert_eq!(m.max_position_embeddings, 1024);
}

#[test]
fn an_unsupported_architecture_is_refused() {
    let err = small(&["BertForMaskedLM"])
        .to_metadata("t".into())
        .unwrap_err();
    assert!(matches!(err, ModelError::UnsupportedArchitecture(a) if a == "BertForMaskedLM"));
}

#[test]
fn qwen2_is_detected_and_declares_qkv_bias() {
    let arch = Architecture::detect(&small(&["Qwen2ForCausalLM"])).unwrap();
    assert_eq!(arch, Architecture::Qwen2);
    assert!(arch.has_qkv_bias());
    assert!(!Architecture::Llama.has_qkv_bias());
}

#[test]
fn inconsistent_head_counts_are_rejected() {
    // 7 query heads cannot be grouped over 2 KV heads.
    let c = HfConfig {
        num_attention_heads: 7,
        num_key_value_heads: Some(2),
        ..small(&["LlamaForCausalLM"])
    };
    assert!(matches!(
        c.to_metadata("t".into()).unwrap_err(),
        ModelError::Malformed { .. }
    ));
}

#[test]
fn zero_valued_dimensions_are_rejected() {
    let layers = HfConfig {
        num_hidden_layers: 0,
        ..small(&["LlamaForCausalLM"])
    };
    let vocab = HfConfig {
        vocab_size: 0,
        ..small(&["LlamaForCausalLM"])
    };
    for (field, c) in [("layers", layers), ("vocab", vocab)] {
        assert!(c.to_metadata("t".into()).is_err(), "accepted zero {field}");
    }
}

#[test]
fn an_unsupported_dtype_is_refused() {
    let c = HfConfig {
        torch_dtype: Some("float8_e4m3fn".to_string()),
        ..small(&["LlamaForCausalLM"])
    };
    assert!(matches!(
        c.to_metadata("t".into()).unwrap_err(),
        ModelError::UnsupportedDtype(_)
    ));
}

#[test]
fn explicit_head_dim_overrides_the_derived_value() {
    let c = HfConfig {
        head_dim: Some(32),
        ..small(&["LlamaForCausalLM"])
    };
    // 64/4 would be 16; the explicit value wins.
    assert_eq!(c.to_metadata("t".into()).unwrap().head_dim, 32);
}

#[test]
fn ffn_dim_falls_back_to_the_llama_convention() {
    let c = small(&["LlamaForCausalLM"]);
    assert_eq!(c.ffn_dim(), 256);
    assert!(!c.ties_embeddings());
}

#[test]
fn stated_numbers_are_passed_on_and_missing_ones_have_defaults() {
    let m = small(&["LlamaForCausalLM"]).to_metadata("t".into()).unwrap();
    assert_eq!(m.dtype, DType::F32);
    let c = HfConfig {
        rope_theta: Some(number(500000.0)),
        ..small(&["LlamaForCausalLM"])
    };
    assert_eq!(
        c.to_metadata("t".into()).unwrap().rope_theta,
        number(500000.0)
    );
}
