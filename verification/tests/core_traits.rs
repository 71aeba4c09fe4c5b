use orion_serve::float::Float32;
use orion_serve::id::SequenceId;
use orion_serve::traits::{DType, Device, ForwardBatch, ForwardOutput, ModelMetadata};

fn number(v: f32) -> Float32 {
    Float32 { bits: v.to_bits() }
}

fn metadata() -> ModelMetadata {
    ModelMetadata {
        architecture: "LlamaForCausalLM".into(),
        name: "test".into(),
        hidden_size: 4096,
        num_layers: 32,
        num_attention_heads: 32,
        num_kv_heads: 8,
        head_dim: 128,
        vocab_size: 32000,
        max_position_embeddings: 4096,
        rope_theta: number(10000.0),
        rms_norm_eps: number(1e-5),
        dtype: DType::F16,
        eos_token_ids: vec![2],
        bos_token_id: Some(1),
    }
}

#[test]
fn sub_byte_dtypes_round_up_to_whole_bytes() {
    assert_eq!(DType::I4.size_in_bytes(1), 1);
    assert_eq!(DType::I4.size_in_bytes(2), 1);
    assert_eq!(DType::I4.size_in_bytes(3), 2);
    assert_eq!(DType::F16.size_in_bytes(4), 8);
    assert_eq!(DType::F32.size_in_bytes(4), 16);
}

#[test]
fn kv_bytes_per_token_accounts_for_key_and_value() {
    let m = metadata();
    // 2 (K+V) * 32 layers * 8 kv heads * 128 dim * 2 bytes (f16)
    assert_eq!(m.kv_bytes_per_token(), 2 * 32 * 8 * 128 * 2);
}

#[test]
fn gqa_is_detected_and_grouped_correctly() {
    let m = metadata();
    assert!(m.uses_gqa());
    assert_eq!(m.gqa_group_size(), 4);

    let mha = ModelMetadata {
        num_kv_heads: 32,
        ..metadata()
    };
    assert!(!mha.uses_gqa());
    assert_eq!(mha.gqa_group_size(), 1);
    // MHA needs 4x the cache of the GQA variant.
    assert_eq!(
        mha.kv_bytes_per_token(),
        4 * metadata().kv_bytes_per_token()
    );
}

#[test]
fn device_displays_with_its_ordinal() {
    assert_eq!(Device::Cpu.to_text(), "cpu");
    assert_eq!(Device::Cuda(1).to_text(), "cuda:1");
    assert!(Device::Cpu.is_cpu());
    assert!(!Device::Cuda(0).is_cpu());
}

fn batch() -> ForwardBatch {
    ForwardBatch {
        tokens: vec![1, 2, 3, 4],
        positions: vec![0, 1, 2, 0],
        sequence_ids: vec![SequenceId::from_raw(1), SequenceId::from_raw(2)],
        slot_token_counts: vec![3, 1],
        context_lens: vec![3, 1],
        block_tables: vec![vec![0], vec![1]],
        has_prefill: true,
    }
}

#[test]
fn a_consistent_batch_validates() {
    let b = batch();
    assert!(b.validate().is_ok());
    assert_eq!(b.num_sequences(), 2);
    assert_eq!(b.num_tokens(), 4);
}

#[test]
fn batch_validation_catches_mismatched_parallel_arrays() {
    let mut b = batch();
    b.context_lens.pop();
    assert!(b.validate().is_err());

    let mut b = batch();
    b.positions.pop();
    assert!(b.validate().is_err());

    let mut b = batch();
    b.slot_token_counts = vec![2, 1]; // sums to 3, not 4
    assert!(b.validate().is_err());
}

#[test]
fn forward_output_rows_are_bounds_checked() {
    let out = ForwardOutput {
        logits: vec![0.0; 6],
        vocab_size: 3,
        sequence_ids: vec![SequenceId::from_raw(1), SequenceId::from_raw(2)],
    };
    assert_eq!(out.row(0).unwrap().len(), 3);
    assert_eq!(out.row(1).unwrap().len(), 3);
    assert!(out.row(2).is_none());
}
