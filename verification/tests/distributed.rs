use orion_serve::distributed::{
    shard_dimension, CommunicationEstimate, ParallelLayout, Rank, Shard, SingleRank,
};
use orion_serve::error::EngineError;
use orion_serve::float::Float32;
use orion_serve::traits::{DType, ModelMetadata};

fn number(v: f32) -> Float32 {
    Float32 { bits: v.to_bits() }
}

fn llama_8b() -> ModelMetadata {
    ModelMetadata {
        architecture: "llama".into(),
        name: "llama-3-8b".into(),
        hidden_size: 4096,
        num_layers: 32,
        num_attention_heads: 32,
        num_kv_heads: 8,
        head_dim: 128,
        vocab_size: 128256,
        max_position_embeddings: 8192,
        rope_theta: number(500000.0),
        rms_norm_eps: number(1e-5),
        dtype: DType::F16,
        eos_token_ids: vec![128001],
        bos_token_id: Some(128000),
    }
}

#[test]
fn ranks_are_validated_on_construction() {
    assert!(Rank::new(0, 1).is_ok());
    assert!(Rank::new(3, 4).is_ok());
    assert!(Rank::new(4, 4).is_err(), "rank must be below world size");
    assert!(Rank::new(0, 0).is_err(), "world size must be positive");
}

#[test]
fn a_single_rank_is_not_distributed_and_leads() {
    let r = Rank::single();
    assert!(!r.is_distributed());
    assert!(r.is_leader());
    assert_eq!(r.world_size, 1);
}

#[test]
fn only_rank_zero_leads() {
    assert!(Rank::new(0, 4).unwrap().is_leader());
    for i in 1..4 {
        assert!(!Rank::new(i, 4).unwrap().is_leader());
    }
}

#[test]
fn shards_partition_a_dimension_exactly() {
    // Every element belongs to exactly one rank, with no gaps or overlaps.
    let total = 32;
    let world = 4;
    let shards: Vec<Shard> = (0..world)
        .map(|i| shard_dimension(total, Rank::new(i, world).unwrap()).unwrap())
        .collect();

    assert_eq!(shards[0], Shard { start: 0, len: 8 });
    assert_eq!(shards[3], Shard { start: 24, len: 8 });
    assert_eq!(shards.iter().map(|s| s.len).sum::<usize>(), total);

    for pair in shards.windows(2) {
        assert_eq!(pair[0].end(), pair[1].start, "shards must be contiguous");
    }
}

#[test]
fn uneven_splits_are_refused_rather_than_rounded() {
    // An uneven split leaves the largest rank as a straggler that every
    // collective waits on. Better to fail at configuration time.
    let err = shard_dimension(30, Rank::new(0, 4).unwrap()).unwrap_err();
    assert!(matches!(err, EngineError::InvalidRequest(_)));
    assert!(err.message().contains("30"));
    assert!(err.message().contains('4'));
}

#[test]
fn a_single_rank_owns_everything() {
    let m = llama_8b();
    let layout = ParallelLayout::compute(&m, Rank::single(), 14336).unwrap();

    assert_eq!(layout.query_heads.len, 32);
    assert_eq!(layout.kv_heads.len, 8);
    assert_eq!(layout.ffn.len, 14336);
}

#[test]
fn a_two_way_split_halves_every_dimension() {
    let m = llama_8b();
    let r0 = ParallelLayout::compute(&m, Rank::new(0, 2).unwrap(), 14336).unwrap();
    let r1 = ParallelLayout::compute(&m, Rank::new(1, 2).unwrap(), 14336).unwrap();

    assert_eq!(r0.query_heads, Shard { start: 0, len: 16 });
    assert_eq!(r1.query_heads, Shard { start: 16, len: 16 });
    assert_eq!(r0.kv_heads.len, 4);
    assert_eq!(r0.ffn.len, 7168);

    // The two ranks together cover the whole model exactly once.
    assert_eq!(r0.query_heads.len + r1.query_heads.len, 32);
    assert_eq!(r0.ffn.end(), r1.ffn.start);
}

#[test]
fn kv_cache_per_gpu_falls_linearly_with_world_size() {
    // The saving that makes tensor parallelism worthwhile for long context.
    let m = llama_8b();
    let single = ParallelLayout::compute(&m, Rank::single(), 14336).unwrap();
    let of_four = ParallelLayout::compute(&m, Rank::new(0, 4).unwrap(), 14336).unwrap();

    let full = single.local_kv_bytes_per_token(&m);
    let quarter = of_four.local_kv_bytes_per_token(&m);

    assert_eq!(full, m.kv_bytes_per_token());
    assert_eq!(quarter * 4, full, "four ranks should each hold a quarter");
}

#[test]
fn splitting_beyond_the_kv_head_count_is_refused() {
    // Llama-3-8B has 8 KV heads, so 16-way tensor parallelism would need
    // them replicated. That is a real limitation, reported rather than
    // silently worked around.
    let m = llama_8b();
    let err = ParallelLayout::compute(&m, Rank::new(0, 16).unwrap(), 14336).unwrap_err();

    assert!(matches!(err, EngineError::InvalidRequest(_)));
    let msg = err.message();
    assert!(msg.contains("KV heads"), "{msg}");
    assert!(msg.contains("16"), "{msg}");
}

#[test]
fn eight_way_split_is_the_limit_for_this_model() {
    let m = llama_8b();
    assert!(ParallelLayout::compute(&m, Rank::new(0, 8).unwrap(), 14336).is_ok());
    assert!(ParallelLayout::compute(&m, Rank::new(0, 16).unwrap(), 14336).is_err());
}

#[test]
fn local_attention_width_follows_the_head_split() {
    let m = llama_8b();
    let layout = ParallelLayout::compute(&m, Rank::new(0, 4).unwrap(), 14336).unwrap();
    // 8 heads x 128 dim
    assert_eq!(layout.local_attention_dim(m.head_dim), 1024);
}

#[test]
fn single_rank_collectives_are_identity_operations() {
    let c = SingleRank;
    assert!(!c.rank().is_distributed());

    let mut buf = vec![1.0, 2.0, 3.0];
    c.all_reduce_sum(&mut buf).unwrap();
    assert_eq!(buf, vec![1.0, 2.0, 3.0], "one rank sums to itself");

    let local = vec![4.0, 5.0];
    let mut out = vec![0.0; 2];
    c.all_gather(&local, &mut out).unwrap();
    assert_eq!(out, local);

    let mut scattered = vec![0.0; 2];
    c.reduce_scatter_sum(&local, &mut scattered).unwrap();
    assert_eq!(scattered, local);

    assert!(c.barrier().is_ok());
}

#[test]
fn mismatched_collective_buffers_are_errors() {
    let c = SingleRank;
    let mut out = vec![0.0; 5];
    assert!(c.all_gather(&[1.0, 2.0], &mut out).is_err());
    assert!(c.reduce_scatter_sum(&[1.0, 2.0], &mut out).is_err());
}

#[test]
fn a_single_rank_communicates_nothing() {
    let est = CommunicationEstimate::for_model(&llama_8b(), 1);
    assert_eq!(est.all_reduce_count, 0);
    assert_eq!(est.bytes_per_token, 0);
}

#[test]
fn communication_volume_grows_with_world_size() {
    let m = llama_8b();
    let two = CommunicationEstimate::for_model(&m, 2);
    let eight = CommunicationEstimate::for_model(&m, 8);

    // Two collectives per layer, regardless of world size.
    assert_eq!(two.all_reduce_count, 64);
    assert_eq!(eight.all_reduce_count, 64);

    // But each moves more data as the ring grows.
    assert!(eight.bytes_per_token > two.bytes_per_token);

    // Sanity: 64 AllReduces of a 4096-element f16 vector is on the order of
    // hundreds of KB per token, which is what makes interconnect bandwidth
    // the deciding factor.
    assert!(two.bytes_per_token > 100_000, "{}", two.bytes_per_token);
}
