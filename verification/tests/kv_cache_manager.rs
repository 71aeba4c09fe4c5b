use orion_serve::error::EngineError;
use orion_serve::id::{SequenceId, TokenId};
use orion_serve::kv_cache::manager::KvCacheManager;
use orion_serve::ratio::Ratio;

fn value(r: Ratio) -> f64 {
    r.numerator as f64 / r.denominator as f64
}

fn manager(blocks: usize) -> KvCacheManager {
    KvCacheManager::new(blocks, 4, true)
}

fn seq_id(n: u64) -> SequenceId {
    SequenceId::from_raw(n)
}

#[test]
fn allocation_reserves_the_right_number_of_blocks() {
    let mut m = manager(16);
    let s = seq_id(1);
    // 10 tokens at block_size 4 -> 3 blocks (4 + 4 + 2).
    let out = m.allocate(s, &[1; 10]).unwrap();
    assert_eq!(out.allocated, 3);
    assert_eq!(out.reused, 0);
    assert_eq!(m.free_blocks(), 13);
    assert_eq!(m.block_table(s).unwrap().num_tokens(), 10);
}

#[test]
fn allocating_the_same_sequence_twice_is_an_internal_error() {
    let mut m = manager(16);
    let s = seq_id(1);
    m.allocate(s, &[1; 4]).unwrap();
    assert!(matches!(
        m.allocate(s, &[1; 4]).unwrap_err(),
        EngineError::Internal(_)
    ));
}

#[test]
fn allocation_beyond_capacity_is_refused_before_taking_blocks() {
    let mut m = manager(2);
    let err = m.allocate(seq_id(1), &[1; 100]).unwrap_err();
    assert!(matches!(err, EngineError::CacheExhausted { .. }));
    assert_eq!(m.free_blocks(), 2, "refused allocation must not leak");
    assert!(!m.is_allocated(seq_id(1)));
}

#[test]
fn freeing_returns_every_block() {
    let mut m = manager(8);
    let s = seq_id(1);
    m.allocate(s, &[1; 12]).unwrap();
    assert_eq!(m.free_blocks(), 5);
    m.free(s);
    assert_eq!(m.free_blocks(), 8);
    assert!(!m.is_allocated(s));
}

#[test]
fn freeing_an_unknown_sequence_is_a_no_op() {
    let mut m = manager(4);
    m.free(seq_id(42));
    assert_eq!(m.free_blocks(), 4);
}

#[test]
fn appending_reuses_the_final_block_until_it_fills() {
    let mut m = manager(8);
    let s = seq_id(1);
    // 4 tokens exactly fills one block.
    m.allocate(s, &[1; 4]).unwrap();
    assert_eq!(m.block_table(s).unwrap().num_blocks(), 1);
    assert_eq!(m.free_blocks(), 7);

    // Token 5 needs a second block.
    m.append_token(s).unwrap();
    assert_eq!(m.block_table(s).unwrap().num_blocks(), 2);
    assert_eq!(m.free_blocks(), 6);

    // Tokens 6-8 fit in the block just allocated.
    for _ in 0..3 {
        m.append_token(s).unwrap();
    }
    assert_eq!(m.block_table(s).unwrap().num_blocks(), 2);
    assert_eq!(m.block_table(s).unwrap().num_tokens(), 8);
    assert_eq!(m.free_blocks(), 6);
}

#[test]
fn append_fails_cleanly_when_the_pool_is_exhausted() {
    let mut m = KvCacheManager::new(1, 4, false);
    let s = seq_id(1);
    m.allocate(s, &[1; 4]).unwrap();
    assert_eq!(m.free_blocks(), 0);

    let err = m.append_token(s).unwrap_err();
    assert!(matches!(err, EngineError::CacheExhausted { .. }));
    // The sequence is untouched and still usable.
    assert_eq!(m.block_table(s).unwrap().num_tokens(), 4);
    assert_eq!(m.block_table(s).unwrap().num_blocks(), 1);
}

#[test]
fn append_to_an_unknown_sequence_is_an_internal_error() {
    let mut m = manager(4);
    assert!(matches!(
        m.append_token(seq_id(9)).unwrap_err(),
        EngineError::Internal(_)
    ));
}

#[test]
fn a_shared_prefix_is_reused_by_a_second_sequence() {
    let mut m = manager(32);
    let prompt: Vec<TokenId> = (0..12).collect();

    let a = seq_id(1);
    let first = m.allocate(a, &prompt).unwrap();
    assert_eq!(first.allocated, 3);
    assert_eq!(first.reused, 0);
    m.commit_prefill(a, &prompt);

    // Second identical prompt should adopt all three full blocks.
    let b = seq_id(2);
    let second = m.allocate(b, &prompt).unwrap();
    assert_eq!(second.reused, 3, "all full blocks should be shared");
    assert_eq!(second.allocated, 0);
    assert_eq!(second.cached_tokens, 12);
    assert!(second.had_cache_hit());

    // Sharing means the second sequence consumed no new blocks.
    assert_eq!(m.free_blocks(), 29);
    assert_eq!(
        m.block_table(a).unwrap().blocks(),
        m.block_table(b).unwrap().blocks()
    );
}

#[test]
fn shared_blocks_survive_until_the_last_sequence_releases_them() {
    let mut m = manager(32);
    let prompt: Vec<TokenId> = (0..8).collect();
    let (a, b) = (seq_id(1), seq_id(2));

    m.allocate(a, &prompt).unwrap();
    m.commit_prefill(a, &prompt);
    m.allocate(b, &prompt).unwrap();
    assert_eq!(m.free_blocks(), 30);

    m.free(a);
    assert_eq!(m.free_blocks(), 30, "b still references the blocks");
    m.free(b);
    assert_eq!(m.free_blocks(), 32);
}

#[test]
fn a_divergent_prompt_shares_only_its_common_prefix() {
    let mut m = manager(32);
    let a_prompt: Vec<TokenId> = vec![1, 2, 3, 4, 5, 6, 7, 8];
    // Same first block, different second.
    let b_prompt: Vec<TokenId> = vec![1, 2, 3, 4, 9, 9, 9, 9];

    let a = seq_id(1);
    m.allocate(a, &a_prompt).unwrap();
    m.commit_prefill(a, &a_prompt);

    let b = seq_id(2);
    let out = m.allocate(b, &b_prompt).unwrap();
    assert_eq!(out.reused, 1, "only the shared first block");
    assert_eq!(out.allocated, 1);
    assert_eq!(out.cached_tokens, 4);
}

#[test]
fn a_partial_trailing_block_is_never_shared() {
    let mut m = manager(32);
    // 6 tokens: one full block plus a partial one.
    let prompt: Vec<TokenId> = (0..6).collect();
    let a = seq_id(1);
    m.allocate(a, &prompt).unwrap();
    m.commit_prefill(a, &prompt);

    let b = seq_id(2);
    let out = m.allocate(b, &prompt).unwrap();
    assert_eq!(out.reused, 1, "only the full block is shareable");
    assert_eq!(out.allocated, 1, "the partial tail is recomputed");
}

#[test]
fn uncommitted_prefill_is_not_shared() {
    // Publishing before compute would hand out uninitialized KV entries.
    let mut m = manager(32);
    let prompt: Vec<TokenId> = (0..8).collect();
    m.allocate(seq_id(1), &prompt).unwrap();

    let out = m.allocate(seq_id(2), &prompt).unwrap();
    assert_eq!(out.reused, 0);
    assert_eq!(out.allocated, 2);
}

#[test]
fn prefix_caching_can_be_disabled() {
    let mut m = KvCacheManager::new(32, 4, false);
    let prompt: Vec<TokenId> = (0..8).collect();
    let a = seq_id(1);
    m.allocate(a, &prompt).unwrap();
    m.commit_prefill(a, &prompt);

    let out = m.allocate(seq_id(2), &prompt).unwrap();
    assert_eq!(out.reused, 0);
    assert_eq!(out.allocated, 2);
}

#[test]
fn preemption_reclaims_blocks_and_reports_the_count() {
    let mut m = manager(8);
    let s = seq_id(1);
    m.allocate(s, &[1; 12]).unwrap();
    assert_eq!(m.preempt(s), 3);
    assert_eq!(m.free_blocks(), 8);
    assert!(!m.is_allocated(s));
}

#[test]
fn preempting_a_sharer_reclaims_nothing() {
    let mut m = KvCacheManager::new(32, 4, true);
    let prompt: Vec<TokenId> = (0..8).collect();
    let (a, b) = (seq_id(1), seq_id(2));
    m.allocate(a, &prompt).unwrap();
    m.commit_prefill(a, &prompt);
    assert_eq!(m.allocate(b, &prompt).unwrap().reused, 2);
    assert_eq!(m.free_blocks(), 30);
    // Both blocks are still held by the other sequence.
    assert_eq!(m.preempt(b), 0);
    assert_eq!(m.free_blocks(), 30);
    assert!(!m.is_allocated(b));
    assert_eq!(m.preempt(a), 2);
    assert_eq!(m.free_blocks(), 32);
}

#[test]
fn growing_and_freeing_restores_the_free_blocks() {
    let mut m = manager(8);
    let s = seq_id(1);
    m.allocate(s, &[1; 5]).unwrap();
    for _ in 0..9 {
        m.append_token(s).unwrap();
    }
    // Fourteen tokens fill three blocks and begin a fourth.
    assert_eq!(m.block_table(s).unwrap().num_blocks(), 4);
    assert_eq!(m.free_blocks(), 4);
    m.free(s);
    assert_eq!(m.free_blocks(), 8);
}

#[test]
fn eviction_drops_index_entries_so_later_prompts_miss() {
    let mut m = manager(4);
    let prompt: Vec<TokenId> = (0..8).collect();
    let a = seq_id(1);
    m.allocate(a, &prompt).unwrap();
    m.commit_prefill(a, &prompt);
    m.free(a);

    // Blocks are free but still hold reusable contents.
    assert_eq!(m.stats().prefix_cache_entries, 2);
    assert_eq!(m.num_evictable(), 2);
    assert_eq!(m.free_blocks(), 4);

    assert_eq!(m.evict_cached(2), 2);
    assert_eq!(m.stats().prefix_cache_entries, 0);
    assert_eq!(
        m.free_blocks(),
        4,
        "eviction only forgets contents; the blocks were already free"
    );

    // A subsequent identical prompt therefore misses.
    let out = m.allocate(seq_id(2), &prompt).unwrap();
    assert_eq!(out.reused, 0);
}

#[test]
fn eviction_stops_once_nothing_is_cached() {
    let mut m = manager(4);
    let prompt: Vec<TokenId> = (0..8).collect();
    let a = seq_id(1);
    m.allocate(a, &prompt).unwrap();
    m.commit_prefill(a, &prompt);
    m.free(a);

    // Asking for more than exists terminates rather than looping.
    assert_eq!(m.evict_cached(100), 2);
    assert_eq!(m.evict_cached(1), 0);
}

#[test]
fn clearing_the_prefix_cache_leaves_blocks_allocatable() {
    let mut m = manager(4);
    let prompt: Vec<TokenId> = (0..8).collect();
    let a = seq_id(1);
    m.allocate(a, &prompt).unwrap();
    m.commit_prefill(a, &prompt);
    m.free(a);

    m.clear_prefix_cache();
    assert_eq!(m.stats().prefix_cache_entries, 0);
    assert_eq!(m.free_blocks(), 4);
    // The pool is still fully usable afterwards.
    m.allocate(seq_id(2), &prompt).unwrap();
    assert_eq!(m.free_blocks(), 2);
}

#[test]
fn cached_blocks_are_recycled_under_pressure_without_explicit_eviction() {
    // The pool reclaims cached-but-free blocks on its own, so a full cache
    // never blocks a new allocation.
    let mut m = manager(2);
    let a_prompt: Vec<TokenId> = vec![1, 2, 3, 4, 5, 6, 7, 8];
    let a = seq_id(1);
    m.allocate(a, &a_prompt).unwrap();
    m.commit_prefill(a, &a_prompt);
    m.free(a);
    assert_eq!(m.num_evictable(), 2);

    // A completely different prompt needs both blocks and must get them.
    let b_prompt: Vec<TokenId> = vec![9, 9, 9, 9, 9, 9, 9, 9];
    let out = m.allocate(seq_id(2), &b_prompt).unwrap();
    assert_eq!(out.allocated, 2);
    assert_eq!(out.reused, 0);
    assert_eq!(m.free_blocks(), 0);
}

#[test]
fn recycling_a_cached_block_invalidates_its_index_entry() {
    // The dangerous case: a cached block is recycled for unrelated data
    // while its prefix-cache entry still names it. A later lookup for the
    // original prefix must miss, not adopt the overwritten block.
    let mut m = manager(2);
    let original: Vec<TokenId> = vec![1, 2, 3, 4, 5, 6, 7, 8];
    let a = seq_id(1);
    m.allocate(a, &original).unwrap();
    m.commit_prefill(a, &original);
    m.free(a);
    assert_eq!(m.stats().prefix_cache_entries, 2);

    // A different prompt takes both blocks, overwriting their contents.
    let other: Vec<TokenId> = vec![9; 8];
    let b = seq_id(2);
    m.allocate(b, &other).unwrap();
    assert_eq!(
        m.stats().prefix_cache_entries,
        0,
        "recycled blocks must not leave entries behind"
    );
    m.free(b);

    // The original prompt now genuinely misses and recomputes.
    let out = m.allocate(seq_id(3), &original).unwrap();
    assert_eq!(out.reused, 0, "must not adopt an overwritten block");
    assert_eq!(out.allocated, 2);
}

#[test]
fn stats_report_capacity_and_utilization() {
    let mut m = manager(10);
    m.allocate(seq_id(1), &[1; 8]).unwrap();
    let s = m.stats();
    assert_eq!(s.total_blocks, 10);
    assert_eq!(s.used_blocks, 2);
    assert_eq!(s.free_blocks, 8);
    assert_eq!(s.num_sequences, 1);
    assert_eq!(s.token_capacity(), 40);
    assert_eq!(value(s.utilization()), 0.2);
}

#[test]
fn admission_checks_agree_with_actual_allocation() {
    let m = manager(3);
    assert!(m.can_allocate(12));
    assert!(!m.can_allocate(13));
    assert_eq!(m.blocks_needed_for(13), 4);
}

#[test]
fn an_empty_prompt_allocates_nothing() {
    let mut m = manager(4);
    let out = m.allocate(seq_id(1), &[]).unwrap();
    assert_eq!(out.allocated, 0);
    assert_eq!(m.free_blocks(), 4);
}

#[test]
fn many_sequences_allocate_and_free_without_leaking() {
    let mut m = manager(64);
    for round in 0..10 {
        let ids: Vec<_> = (0..8).map(|i| seq_id(round * 100 + i)).collect();
        for &s in &ids {
            m.allocate(s, &[1; 16]).unwrap();
        }
        assert_eq!(m.free_blocks(), 64 - 8 * 4);
        for &s in &ids {
            m.free(s);
        }
        assert_eq!(m.free_blocks(), 64, "round {round} leaked blocks");
        assert_eq!(m.num_sequences(), 0);
    }
}
