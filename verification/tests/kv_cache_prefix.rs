use orion_serve::id::BlockId;
use orion_serve::kv_cache::block::BlockHash;
use orion_serve::kv_cache::prefix::PrefixCache;
use orion_serve::kv_cache::table::hash_block;
use orion_serve::ratio::Ratio;

fn value(r: Ratio) -> f64 {
    r.numerator as f64 / r.denominator as f64
}

#[test]
fn a_lookup_on_an_empty_cache_misses() {
    let mut cache = PrefixCache::new();
    assert!(cache.lookup(BlockHash(1), &[1, 2]).is_none());
    assert_eq!(cache.misses(), 1);
    assert_eq!(cache.hits(), 0);
    assert_eq!(value(cache.hit_rate()), 0.0);
}

#[test]
fn an_inserted_block_is_found_again() {
    let mut cache = PrefixCache::new();
    let h = hash_block(None, &[1, 2, 3]);
    cache.insert(h, BlockId(5), vec![1, 2, 3]);

    assert_eq!(cache.lookup(h, &[1, 2, 3]), Some(BlockId(5)));
    assert_eq!(cache.hits(), 1);
    assert_eq!(value(cache.hit_rate()), 1.0);
}

#[test]
fn a_hash_collision_with_different_tokens_degrades_to_a_miss() {
    let mut cache = PrefixCache::new();
    let h = BlockHash(0xdead);
    cache.insert(h, BlockId(1), vec![1, 2, 3]);

    // Same digest, different tokens: must not hand back the wrong block.
    assert_eq!(cache.lookup(h, &[9, 9, 9]), None);
    assert_eq!(cache.misses(), 1);
}

#[test]
fn reinserting_a_hash_keeps_the_original_block() {
    let mut cache = PrefixCache::new();
    let h = hash_block(None, &[1]);
    cache.insert(h, BlockId(1), vec![1]);
    cache.insert(h, BlockId(2), vec![1]);
    assert_eq!(cache.peek(h), Some(BlockId(1)));
}

#[test]
fn removal_is_guarded_by_block_identity() {
    let mut cache = PrefixCache::new();
    let h = hash_block(None, &[1]);
    cache.insert(h, BlockId(1), vec![1]);

    // A stale removal naming a different block must not evict the entry.
    cache.remove(h, BlockId(99));
    assert_eq!(cache.peek(h), Some(BlockId(1)));

    cache.remove(h, BlockId(1));
    assert_eq!(cache.peek(h), None);
}

#[test]
fn a_shared_prefix_hits_across_two_sequences() {
    // Two requests share "system prompt" tokens then diverge.
    let mut cache = PrefixCache::new();
    let shared = [10, 11, 12, 13];

    let h0 = hash_block(None, &shared);
    cache.insert(h0, BlockId(0), shared.to_vec());

    // Second request recomputes the same chained hash and hits.
    let h0_again = hash_block(None, &shared);
    assert_eq!(cache.lookup(h0_again, &shared), Some(BlockId(0)));

    // Their divergent second blocks do not collide.
    let a1 = hash_block(Some(h0), &[20, 21]);
    let b1 = hash_block(Some(h0), &[30, 31]);
    assert_ne!(a1, b1);
    assert!(cache.lookup(b1, &[30, 31]).is_none());
}

#[test]
fn hit_rate_reflects_the_mix_of_lookups() {
    let mut cache = PrefixCache::new();
    let h = hash_block(None, &[1]);
    cache.insert(h, BlockId(0), vec![1]);

    cache.lookup(h, &[1]);
    cache.lookup(BlockHash(999), &[2]);
    assert_eq!(cache.hits(), 1);
    assert_eq!(cache.misses(), 1);
    assert_eq!(value(cache.hit_rate()), 0.5);

    cache.reset_stats();
    assert_eq!(value(cache.hit_rate()), 0.0);
    assert_eq!(cache.len(), 1, "stats reset must not drop entries");
}

#[test]
fn a_hash_tells_its_prefix_and_its_tokens() {
    let p = hash_block(None, &[1, 2]);
    let q = hash_block(None, &[1, 3]);
    assert_ne!(p, q);
    assert_ne!(hash_block(Some(p), &[4, 5]), hash_block(Some(q), &[4, 5]));
    assert_ne!(hash_block(Some(p), &[4, 5]), hash_block(Some(p), &[6, 5]));
    assert_eq!(hash_block(Some(p), &[4, 5]), hash_block(Some(p), &[4, 5]));
}

#[test]
fn only_a_matching_removal_lowers_the_count() {
    let mut cache = PrefixCache::new();
    cache.insert(BlockHash(1), BlockId(1), vec![1]);
    cache.insert(BlockHash(2), BlockId(2), vec![2]);
    assert_eq!(cache.len(), 2);
    cache.remove(BlockHash(1), BlockId(2));
    cache.remove(BlockHash(3), BlockId(1));
    assert_eq!(cache.len(), 2);
    cache.remove(BlockHash(1), BlockId(1));
    assert_eq!(cache.len(), 1);
    assert_eq!(cache.peek(BlockHash(1)), None);
    assert_eq!(cache.peek(BlockHash(2)), Some(BlockId(2)));
}
