use orion_serve::error::ModelError;
use orion_serve::float::Float32;
use orion_serve::models::config::{Architecture, HfConfig};
use orion_serve::models::loader::{
    shard_names, view_to_f32, widen_half, CheckpointLoader, Shard,
};
use orion_serve::models::transformer::{Dimensions, ModelWeights};
use safetensors::tensor::TensorView;
use safetensors::Dtype;
use std::collections::BTreeMap;

/// The bytes of a checkpoint file with the given tensors.
fn checkpoint(tensors: Vec<(&str, Vec<usize>, Vec<f32>)>) -> Vec<u8> {
    let owned: Vec<(String, Vec<usize>, Vec<u8>)> = tensors
        .into_iter()
        .map(|(name, shape, data)| {
            let bytes: Vec<u8> = data.iter().flat_map(|v| v.to_le_bytes()).collect();
            (name.to_string(), shape, bytes)
        })
        .collect();
    let mut map: BTreeMap<String, TensorView> = BTreeMap::new();
    for (name, shape, bytes) in &owned {
        map.insert(
            name.clone(),
            TensorView::new(Dtype::F32, shape.clone(), bytes).unwrap(),
        );
    }
    safetensors::serialize(&map, None).unwrap()
}

fn shard<'a>(path: &str, bytes: &'a [u8]) -> Shard<'a> {
    Shard {
        path: path.to_string(),
        bytes,
    }
}

fn numbers(v: &[Float32]) -> Vec<f32> {
    v.iter().map(|x| f32::from_bits(x.bits)).collect()
}

#[test]
fn loads_tensors_by_name_with_their_shapes() {
    let bytes = checkpoint(vec![
        ("weight", vec![2, 3], vec![1.0, 2.0, 3.0, 4.0, 5.0, 6.0]),
        ("norm", vec![3], vec![0.5, 0.5, 0.5]),
    ]);
    let loader = CheckpointLoader::open("dir", vec![shard("model.safetensors", &bytes)]).unwrap();
    assert_eq!(loader.len(), 2);
    assert!(loader.contains("weight"));
    assert!(!loader.contains("absent"));
    assert_eq!(loader.names(), vec!["norm", "weight"]);

    let (data, shape) = loader.tensor("weight").unwrap();
    assert_eq!(shape, vec![2, 3]);
    assert_eq!(numbers(&data), vec![1.0, 2.0, 3.0, 4.0, 5.0, 6.0]);
}

#[test]
fn matrix_loading_checks_the_shape() {
    let bytes = checkpoint(vec![("w", vec![2, 3], vec![1.0; 6])]);
    let loader = CheckpointLoader::open("dir", vec![shard("model.safetensors", &bytes)]).unwrap();

    let m = loader.matrix("w", 2, 3).unwrap();
    assert_eq!(m.rows(), 2);
    assert_eq!(m.cols(), 3);

    let err = loader.matrix("w", 3, 2).unwrap_err();
    assert!(
        matches!(err, ModelError::ShapeMismatch { ref expected, ref actual, .. }
                 if *expected == vec![3, 2] && *actual == vec![2, 3]),
        "got {err:?}"
    );
    assert_eq!(
        err.message(),
        "tensor `w` has shape [2, 3], expected [3, 2]"
    );
}

#[test]
fn a_missing_tensor_names_itself() {
    let bytes = checkpoint(vec![("present", vec![2], vec![1.0, 2.0])]);
    let loader = CheckpointLoader::open("dir", vec![shard("model.safetensors", &bytes)]).unwrap();

    let err = loader.tensor("absent").unwrap_err();
    assert!(matches!(err, ModelError::TensorNotFound(n) if n == "absent"));
}

#[test]
fn optional_tensors_return_none_when_absent() {
    let bytes = checkpoint(vec![("bias", vec![2], vec![1.0, 2.0])]);
    let loader = CheckpointLoader::open("dir", vec![shard("model.safetensors", &bytes)]).unwrap();

    assert_eq!(
        loader
            .optional_vector("bias", 2)
            .unwrap()
            .map(|v| numbers(&v)),
        Some(vec![1.0, 2.0])
    );
    assert_eq!(loader.optional_vector("no_bias", 2).unwrap(), None);
    // A present-but-wrong-shape optional tensor is still an error.
    assert!(loader.optional_vector("bias", 5).is_err());
}

#[test]
fn a_directory_with_no_checkpoint_is_refused() {
    let err = CheckpointLoader::open("dir", vec![]).unwrap_err();
    assert!(matches!(err, ModelError::MissingFile(p) if p == "dir/*.safetensors"));
    let err = CheckpointLoader::open("dir/", vec![]).unwrap_err();
    assert!(matches!(err, ModelError::MissingFile(p) if p == "dir/*.safetensors"));
}

#[test]
fn tensors_are_indexed_across_multiple_shards() {
    // Two shards, each with its own tensor.
    let a = checkpoint(vec![("first", vec![2], vec![1.0, 2.0])]);
    let b = checkpoint(vec![("second", vec![2], vec![1.0, 2.0])]);
    let loader = CheckpointLoader::open(
        "dir",
        vec![shard("a.safetensors", &a), shard("b.safetensors", &b)],
    )
    .unwrap();
    assert_eq!(loader.len(), 2);
    assert!(loader.contains("first") && loader.contains("second"));
    assert_eq!(
        numbers(&loader.vector("second", 2).unwrap()),
        vec![1.0, 2.0]
    );
}

#[test]
fn the_first_shard_with_a_name_wins() {
    let a = checkpoint(vec![("t", vec![1], vec![1.0]), ("z", vec![1], vec![0.0])]);
    let b = checkpoint(vec![("t", vec![1], vec![2.0]), ("a", vec![1], vec![3.0])]);
    let loader = CheckpointLoader::open("dir", vec![shard("a", &a), shard("b", &b)]).unwrap();
    assert_eq!(loader.names(), vec!["a", "t", "z"]);
    assert_eq!(numbers(&loader.vector("t", 1).unwrap()), vec![1.0]);
    assert!(!loader.is_empty());
}

#[test]
fn a_malformed_shard_is_named() {
    let good = checkpoint(vec![("t", vec![1], vec![1.0])]);
    let bad = vec![1u8, 2, 3];
    let err =
        CheckpointLoader::open("dir", vec![shard("good", &good), shard("bad", &bad)]).unwrap_err();
    assert!(matches!(err, ModelError::Malformed { ref file, .. } if file == "bad"));
}

#[test]
fn a_shard_whose_declared_end_cannot_be_added_is_malformed() {
    let header = br#"{"t":{"dtype":"U8","shape":[1],"data_offsets":[0,18446744073709551608]}}"#;
    let mut bytes = (header.len() as u64).to_le_bytes().to_vec();
    bytes.extend_from_slice(header);
    let err = CheckpointLoader::open("dir", vec![shard("huge", &bytes)]).unwrap_err();
    assert!(matches!(err, ModelError::Malformed { ref file, .. } if file == "huge"));
    // A number that is no size at all is refused as one.
    let header = br#"{"t":{"dtype":"U8","shape":[1],"data_offsets":[0,99999999999999999999]}}"#;
    let mut bytes = (header.len() as u64).to_le_bytes().to_vec();
    bytes.extend_from_slice(header);
    assert!(CheckpointLoader::open("dir", vec![shard("huge", &bytes)]).is_err());
}

#[test]
fn an_unsupported_stored_dtype_is_refused() {
    let data = [7u8, 8];
    let mut map: BTreeMap<String, TensorView> = BTreeMap::new();
    map.insert(
        "q".to_string(),
        TensorView::new(Dtype::U8, vec![2], &data).unwrap(),
    );
    let bytes = safetensors::serialize(&map, None).unwrap();
    let loader = CheckpointLoader::open("dir", vec![shard("m", &bytes)]).unwrap();
    let err = loader.tensor("q").unwrap_err();
    assert!(matches!(err, ModelError::UnsupportedDtype(t) if t == "U8 (tensor `q`)"));
}

#[test]
fn every_half_precision_pattern_is_widened_to_its_value() {
    for bits in 0..=u16::MAX {
        let wide = f32::from_bits(widen_half(bits));
        let sign = if bits >= 0x8000 { -1.0f64 } else { 1.0 };
        let e = ((bits >> 10) & 31) as i32;
        let m = (bits & 0x3ff) as f64;
        if e == 31 {
            assert_eq!(wide.is_nan(), m != 0.0, "{bits:#x}");
            assert_eq!(wide.is_infinite(), m == 0.0, "{bits:#x}");
            assert_eq!(wide.is_sign_negative(), sign < 0.0, "{bits:#x}");
        } else {
            let expected = if e == 0 {
                sign * m * 2f64.powi(-24)
            } else {
                sign * (1024.0 + m) * 2f64.powi(e - 25)
            };
            assert_eq!(wide as f64, expected, "{bits:#x}");
            assert_eq!(wide.is_sign_negative(), sign < 0.0, "{bits:#x}");
        }
    }
    // A signalling NaN comes out quiet, its payload kept.
    assert_eq!(widen_half(0x7c01), 0x7fc0_2000);
    assert_eq!(widen_half(0xfe01), 0xffc0_2000);
}

#[test]
fn stored_numbers_are_widened_by_dtype() {
    let one_and_minus_two = vec![0x00, 0x3c, 0x00, 0xc0];
    assert_eq!(
        numbers(&view_to_f32("t", "F16", &one_and_minus_two).unwrap()),
        vec![1.0, -2.0]
    );
    let brain = vec![0x80, 0x3f, 0x00, 0xc0, 0x81, 0x7f];
    let v = view_to_f32("t", "BF16", &brain).unwrap();
    assert_eq!(numbers(&v[..2]), vec![1.0, -2.0]);
    assert_eq!(v[2].bits, 0x7fc1_0000, "a NaN is made quiet");
    let single = 1.5f32.to_le_bytes().to_vec();
    assert_eq!(
        numbers(&view_to_f32("t", "F32", &single).unwrap()),
        vec![1.5]
    );
    let err = view_to_f32("t", "I64", &single).unwrap_err();
    assert!(matches!(err, ModelError::UnsupportedDtype(t) if t == "I64 (tensor `t`)"));
}

fn config(tied: Option<bool>) -> HfConfig {
    HfConfig {
        architectures: vec!["Qwen2ForCausalLM".to_string()],
        model_type: None,
        hidden_size: 2,
        num_hidden_layers: 1,
        num_attention_heads: 2,
        num_key_value_heads: Some(1),
        head_dim: None,
        vocab_size: 3,
        intermediate_size: Some(4),
        max_position_embeddings: None,
        rope_theta: None,
        rms_norm_eps: None,
        torch_dtype: None,
        eos_token_id: None,
        bos_token_id: None,
        tie_word_embeddings: tied,
    }
}

fn weights(head: bool) -> Vec<(&'static str, Vec<usize>, Vec<f32>)> {
    let mut all = vec![
        ("model.embed_tokens.weight", vec![3, 2], vec![9.0; 6]),
        ("model.layers.0.input_layernorm.weight", vec![2], vec![1.0; 2]),
        ("model.layers.0.self_attn.q_proj.weight", vec![2, 2], vec![2.0; 4]),
        ("model.layers.0.self_attn.q_proj.bias", vec![2], vec![0.5; 2]),
        ("model.layers.0.self_attn.k_proj.weight", vec![1, 2], vec![3.0; 2]),
        ("model.layers.0.self_attn.v_proj.weight", vec![1, 2], vec![4.0; 2]),
        ("model.layers.0.self_attn.o_proj.weight", vec![2, 2], vec![5.0; 4]),
        ("model.layers.0.post_attention_layernorm.weight", vec![2], vec![6.0; 2]),
        ("model.layers.0.mlp.gate_proj.weight", vec![4, 2], vec![7.0; 8]),
        ("model.layers.0.mlp.up_proj.weight", vec![4, 2], vec![8.0; 8]),
        ("model.layers.0.mlp.down_proj.weight", vec![2, 4], vec![8.5; 8]),
        ("model.norm.weight", vec![2], vec![1.0; 2]),
    ];
    if head {
        all.push(("lm_head.weight", vec![3, 2], vec![11.0; 6]));
    }
    all
}

fn load(
    tensors: Vec<(&str, Vec<usize>, Vec<f32>)>,
    tied: Option<bool>,
    arch: Architecture,
) -> Result<ModelWeights, ModelError> {
    let bytes = checkpoint(tensors);
    let loader = CheckpointLoader::open("dir", vec![shard("m", &bytes)]).unwrap();
    let config = config(tied);
    let meta = config.to_metadata("m".to_string()).unwrap();
    let d = Dimensions::from_config(&config, &meta);
    ModelWeights::load(&loader, &config, d, arch)
}

#[test]
fn a_model_is_loaded_by_its_weight_names() {
    let w = load(weights(true), None, Architecture::Qwen2).unwrap();
    assert_eq!(w.embed_tokens.rows(), 3);
    assert_eq!(w.layers.len(), 1);
    let layer = &w.layers[0];
    assert_eq!(numbers(layer.q_proj.data()), vec![2.0; 4]);
    assert_eq!(layer.q_bias.as_deref().map(numbers), Some(vec![0.5; 2]));
    assert!(layer.k_bias.is_none(), "an absent bias is allowed");
    assert_eq!(layer.down_proj.rows(), 2);
    assert_eq!(layer.down_proj.cols(), 4);
    assert_eq!(numbers(w.lm_head.unwrap().data()), vec![11.0; 6]);
}

#[test]
fn a_tied_or_absent_head_reuses_the_embedding() {
    assert!(load(weights(true), Some(true), Architecture::Qwen2)
        .unwrap()
        .lm_head
        .is_none());
    assert!(load(weights(false), None, Architecture::Qwen2)
        .unwrap()
        .lm_head
        .is_none());
}

#[test]
fn llama_ignores_biases() {
    let w = load(weights(true), None, Architecture::Llama).unwrap();
    assert!(w.layers[0].q_bias.is_none());
}

#[test]
fn the_first_missing_weight_is_reported() {
    let mut some = weights(true);
    some.retain(|(n, _, _)| !n.contains("v_proj") && !n.contains("mlp"));
    let err = load(some, None, Architecture::Qwen2).unwrap_err();
    assert!(
        matches!(err, ModelError::TensorNotFound(n) if n == "model.layers.0.self_attn.v_proj.weight")
    );
}

#[test]
fn shards_are_the_safetensors_files_in_order() {
    let files: Vec<String> = [
        "model-00002.safetensors",
        "config.json",
        "model-00001.safetensors",
        ".safetensors",
        "a.safetensors.bak",
        "safetensors",
        "a.safetensors",
    ]
    .iter()
    .map(|f| f.to_string())
    .collect();
    assert_eq!(
        shard_names(&files),
        vec![
            "a.safetensors",
            "model-00001.safetensors",
            "model-00002.safetensors"
        ]
    );
    assert!(shard_names(&vec![]).is_empty());
}

#[test]
fn a_large_number_in_a_name_is_no_size() {
    let name = "step \"18446744073709551615\\";
    let bytes = checkpoint(vec![(name, vec![2], vec![1.0, 2.0])]);
    let loader = CheckpointLoader::open("dir", vec![shard("model.safetensors", &bytes)]).unwrap();
    assert_eq!(loader.names(), vec![name]);
    assert_eq!(numbers(&loader.tensor(name).unwrap().0), vec![1.0, 2.0]);
}

#[test]
fn a_tensor_that_ends_past_the_number_range_is_refused() {
    let header = r#"{"w":{"dtype":"F32","shape":[1],"data_offsets":[0,18446744073709551615]}}"#;
    let mut bytes = (header.len() as u64).to_le_bytes().to_vec();
    bytes.extend_from_slice(header.as_bytes());
    bytes.extend_from_slice(&[0; 4]);
    assert!(CheckpointLoader::open("dir", vec![shard("model.safetensors", &bytes)]).is_err());
}
