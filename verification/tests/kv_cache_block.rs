use orion_serve::error::EngineError;
use orion_serve::id::BlockId;
use orion_serve::kv_cache::block::{BlockHash, BlockPool};
use orion_serve::ratio::Ratio;

fn value(r: Ratio) -> f64 {
    r.numerator as f64 / r.denominator as f64
}

#[test]
fn a_new_pool_is_entirely_free() {
    let pool = BlockPool::new(8, 16);
    assert_eq!(pool.total_blocks(), 8);
    assert_eq!(pool.num_free(), 8);
    assert_eq!(pool.num_used(), 0);
    assert_eq!(value(pool.utilization()), 0.0);
}

#[test]
fn allocation_takes_a_reference_and_consumes_a_free_block() {
    let mut pool = BlockPool::new(2, 16);
    let a = pool.allocate().unwrap().0;
    assert_eq!(pool.get(a).unwrap().ref_count(), 1);
    assert_eq!(pool.num_free(), 1);
    assert_eq!(pool.num_used(), 1);
}

#[test]
fn exhausting_the_pool_reports_cache_exhausted() {
    let mut pool = BlockPool::new(1, 16);
    pool.allocate().unwrap();
    let err = pool.allocate().unwrap_err();
    assert!(matches!(err, EngineError::CacheExhausted { .. }));
    assert!(err.is_retryable());
}

#[test]
fn a_block_is_reclaimed_only_when_the_last_reference_drops() {
    let mut pool = BlockPool::new(4, 16);
    let id = pool.allocate().unwrap().0;
    pool.add_ref(id).unwrap();
    assert_eq!(pool.get(id).unwrap().ref_count(), 2);

    assert!(!pool.release(id).unwrap(), "still referenced");
    assert_eq!(pool.num_free(), 3);
    assert!(pool.release(id).unwrap(), "last reference dropped");
    assert_eq!(pool.num_free(), 4);
}

#[test]
fn double_release_is_an_internal_error_not_a_silent_underflow() {
    let mut pool = BlockPool::new(2, 16);
    let id = pool.allocate().unwrap().0;
    pool.release(id).unwrap();
    let err = pool.release(id).unwrap_err();
    assert!(matches!(err, EngineError::Internal(_)));
}

#[test]
fn a_freed_block_keeps_its_contents_until_reallocated() {
    let mut pool = BlockPool::new(2, 16);
    let id = pool.allocate().unwrap().0;
    pool.set_contents(id, 16, Some(BlockHash(0xabc))).unwrap();
    pool.release(id).unwrap();

    // Contents survive so the prefix cache can still claim the block.
    assert_eq!(pool.get(id).unwrap().hash(), Some(BlockHash(0xabc)));
    assert_eq!(pool.get(id).unwrap().num_tokens(), 16);
}

#[test]
fn reviving_a_freed_block_removes_it_from_the_free_list() {
    let mut pool = BlockPool::new(4, 16);
    let id = pool.allocate().unwrap().0;
    pool.set_contents(id, 16, Some(BlockHash(1))).unwrap();
    pool.release(id).unwrap();
    assert_eq!(pool.num_free(), 4);

    pool.add_ref(id).unwrap();
    assert_eq!(pool.num_free(), 3, "revived block must leave the free list");
    assert_eq!(pool.get(id).unwrap().ref_count(), 1);
    assert_eq!(
        pool.get(id).unwrap().hash(),
        Some(BlockHash(1)),
        "revival must preserve cached contents"
    );
}

#[test]
fn allocation_reports_the_hash_it_recycled() {
    let mut pool = BlockPool::new(1, 16);
    let (id, evicted) = pool.allocate().unwrap();
    assert_eq!(evicted, None, "a never-used block evicts nothing");

    pool.set_contents(id, 16, Some(BlockHash(0x1234))).unwrap();
    pool.release(id).unwrap();

    // Recycling the block must report the hash whose index entry is now
    // stale, so the caller can drop it.
    let (again, evicted) = pool.allocate().unwrap();
    assert_eq!(again, id);
    assert_eq!(evicted, Some(BlockHash(0x1234)));
}

#[test]
fn reallocation_clears_stale_contents() {
    let mut pool = BlockPool::new(1, 16);
    let id = pool.allocate().unwrap().0;
    pool.set_contents(id, 16, Some(BlockHash(7))).unwrap();
    pool.release(id).unwrap();

    let again = pool.allocate().unwrap().0;
    assert_eq!(again, id, "single-block pool must hand back the same block");
    assert_eq!(pool.get(id).unwrap().hash(), None);
    assert_eq!(pool.get(id).unwrap().num_tokens(), 0);
}

#[test]
fn free_blocks_are_recycled_oldest_first() {
    let mut pool = BlockPool::new(3, 16);
    let a = pool.allocate().unwrap().0;
    let b = pool.allocate().unwrap().0;
    let c = pool.allocate().unwrap().0;

    // Release out of allocation order; recycling must follow release order.
    pool.release(c).unwrap();
    pool.release(a).unwrap();
    pool.release(b).unwrap();

    assert_eq!(pool.allocate().unwrap().0, c);
    assert_eq!(pool.allocate().unwrap().0, a);
    assert_eq!(pool.allocate().unwrap().0, b);
}

#[test]
fn only_full_hashed_blocks_are_shareable() {
    let mut pool = BlockPool::new(2, 16);
    let id = pool.allocate().unwrap().0;

    pool.set_contents(id, 8, None).unwrap();
    assert!(!pool.get(id).unwrap().is_shareable(16), "partial block");

    pool.set_contents(id, 16, None).unwrap();
    assert!(!pool.get(id).unwrap().is_shareable(16), "full but unhashed");

    pool.set_contents(id, 16, Some(BlockHash(3))).unwrap();
    assert!(pool.get(id).unwrap().is_shareable(16));
}

#[test]
fn overfilling_a_block_is_rejected() {
    let mut pool = BlockPool::new(1, 16);
    let id = pool.allocate().unwrap().0;
    assert!(pool.set_contents(id, 17, None).is_err());
}

#[test]
fn eviction_forgets_the_contents_of_a_cached_free_block() {
    let mut pool = BlockPool::new(2, 16);
    let a = pool.allocate().unwrap().0;
    pool.set_contents(a, 16, Some(BlockHash(9))).unwrap();
    pool.release(a).unwrap();
    assert_eq!(pool.num_evictable(), 1);

    let (evicted, hash) = pool.evict_oldest_cached().unwrap();
    assert_eq!(evicted, a);
    assert_eq!(hash, BlockHash(9));
    assert_eq!(pool.get(a).unwrap().hash(), None);
    assert_eq!(pool.num_evictable(), 0);
}

#[test]
fn eviction_skips_free_blocks_that_hold_nothing() {
    // Block 1 is never used and sits at the front of the free list; the
    // cached block behind it must still be reachable for eviction.
    let mut pool = BlockPool::new(2, 16);
    let a = pool.allocate().unwrap().0;
    assert_eq!(a, BlockId(0));
    pool.set_contents(a, 16, Some(BlockHash(9))).unwrap();
    pool.release(a).unwrap();

    let (evicted, hash) = pool.evict_oldest_cached().unwrap();
    assert_eq!(evicted, BlockId(0));
    assert_eq!(hash, BlockHash(9));
}

#[test]
fn eviction_reports_exhaustion_when_nothing_is_cached() {
    let mut pool = BlockPool::new(2, 16);
    assert!(pool.evict_oldest_cached().is_none());
    assert_eq!(pool.num_evictable(), 0);
}

#[test]
fn a_referenced_block_is_never_evicted() {
    let mut pool = BlockPool::new(2, 16);
    let a = pool.allocate().unwrap().0;
    pool.set_contents(a, 16, Some(BlockHash(9))).unwrap();
    // Still referenced, so not on the free list and not evictable.
    assert_eq!(pool.num_evictable(), 0);
    assert!(pool.evict_oldest_cached().is_none());
    assert_eq!(pool.get(a).unwrap().hash(), Some(BlockHash(9)));
}

#[test]
fn utilization_tracks_referenced_blocks() {
    let mut pool = BlockPool::new(4, 16);
    pool.allocate().unwrap();
    pool.allocate().unwrap();
    assert_eq!(value(pool.utilization()), 0.5);
}

#[test]
fn a_block_is_free_while_nothing_references_it() {
    let mut pool = BlockPool::new(2, 16);
    let id = pool.allocate().unwrap().0;
    assert!(!pool.get(id).unwrap().is_free());
    pool.release(id).unwrap();
    assert!(pool.get(id).unwrap().is_free());
}
