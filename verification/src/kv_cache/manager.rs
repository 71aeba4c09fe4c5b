//! The KV cache manager: allocation, growth, sharing and release.
//!
//! This is the component that owns all KV memory accounting. The scheduler
//! asks it whether a sequence can be admitted or extended, and it answers from
//! exact block counts rather than estimates.

use crate::error::EngineError;
use crate::id::{sequence_text, BlockId, SequenceId, TokenId};
use crate::kv_cache::block::{BlockHash, BlockPool, PoolState};
use crate::kv_cache::laws::{
    law_admission_is_safe, law_commit_keeps_soundness, law_eviction_is_safe, law_free_is_safe,
    law_initial_cache_is_sound, lemma_appended, lemma_evict_one, lemma_nothing_evictable,
    lemma_oldest_cached_unique, lemma_releasing_frees, lemma_skip_one, ready_to_commit,
};
use crate::kv_cache::model::{
    block_hash, lemma_admission_keeps_finite, lemma_occurrences_push,
    lemma_publishing_keeps_finite, lemma_references_insert, lemma_references_remove, occurrences,
    prefix_hash, prompt_block, references, CacheState,
};
use crate::kv_cache::prefix::{IndexState, PrefixCache};
use crate::kv_cache::table::{
    blocks_for, hash_block, law_blocks_for_is_least, BlockTable, TableState,
};
use crate::ratio::Ratio;
use crate::text::join2;
use std::collections::HashMap;
use vstd::prelude::*;
use vstd::slice::{slice_subrange, slice_to_vec};

verus! {

broadcast use vstd::std_specs::hash::group_hash_axioms;

/// Outcome of allocating a sequence's prompt blocks.
#[derive(Debug, Clone, Copy, PartialEq, Eq, Structural)]
pub struct AllocationOutcome {
    /// Blocks newly allocated, to be computed by this sequence.
    pub allocated: usize,
    /// Blocks adopted from the prefix cache, whose KV entries already exist.
    pub reused: usize,
    /// Prompt tokens whose KV entries came from the cache. Always a whole
    /// number of blocks.
    pub cached_tokens: usize,
}

impl AllocationOutcome {
    /// Whether the prefix cache contributed anything.
    pub fn had_cache_hit(&self) -> (r: bool)
        ensures
            r == (self.reused > 0),
    {
        self.reused > 0
    }
}

/// Snapshot of cache occupancy, for metrics and admission decisions.
#[derive(Debug, Clone, Copy, PartialEq, Eq, Structural)]
pub struct CacheStats {
    pub total_blocks: usize,
    pub used_blocks: usize,
    pub free_blocks: usize,
    pub block_size: usize,
    pub num_sequences: usize,
    pub prefix_cache_entries: usize,
    pub prefix_cache_hits: u64,
    pub prefix_cache_misses: u64,
}

impl CacheStats {
    /// The share of the blocks in use; zero for an empty pool.
    pub fn utilization(&self) -> (r: Ratio)
        ensures
            r == Ratio::spec_of(self.used_blocks as u64, self.total_blocks as u64),
    {
        Ratio::of(self.used_blocks as u64, self.total_blocks as u64)
    }

    /// Tokens the cache could hold if perfectly packed.
    pub fn token_capacity(&self) -> (r: usize)
        requires
            self.total_blocks * self.block_size <= usize::MAX,
        ensures
            r == self.total_blocks * self.block_size,
    {
        self.total_blocks * self.block_size
    }
}

/// Owns the block pool, every sequence's block table, and the prefix index.
#[derive(Debug)]
pub struct KvCacheManager {
    pool: BlockPool,
    tables: HashMap<u64, BlockTable>,
    prefix_cache: PrefixCache,
    prefix_caching_enabled: bool,
}

impl View for KvCacheManager {
    type V = CacheState;

    closed spec fn view(&self) -> CacheState {
        CacheState {
            pool: self.pool@,
            tables: self.tables@.map_values(|t: BlockTable| t@),
            index: self.prefix_cache@,
            caching: self.prefix_caching_enabled,
        }
    }
}

/// Positions below the number of blocks start inside the prompt.
proof fn lemma_block_start(len: int, unit: int, k: int)
    requires
        len >= 0,
        unit > 0,
        0 <= k < blocks_for(len, unit),
    ensures
        0 <= k * unit < len,
        (k + 1) * unit == k * unit + unit,
{
    law_blocks_for_is_least(len, unit);
    assert((k + 1) * unit == k * unit + unit) by (nonlinear_arith);
    assert(0 <= k * unit) by (nonlinear_arith)
        requires
            k >= 0,
            unit > 0,
    ;
    if len <= k * unit {
        assert(blocks_for(len, unit) <= k);
    }
}

/// A run of full blocks is no longer than the prompt needs blocks.
proof fn lemma_full_run(len: int, unit: int, k: int)
    requires
        unit > 0,
        0 <= k,
        k * unit <= len,
    ensures
        k <= blocks_for(len, unit),
{
    law_blocks_for_is_least(len, unit);
    let n = blocks_for(len, unit);
    if n < k {
        assert((n + 1) * unit == n * unit + unit) by (nonlinear_arith);
        assert((n + 1) * unit <= k * unit) by (nonlinear_arith)
            requires
                n + 1 <= k,
                unit > 0,
        ;
    }
}

impl KvCacheManager {
    pub open spec fn wf(&self) -> bool {
        self@.wf()
    }

    /// Creates a manager over `num_blocks` blocks of `block_size` tokens each.
    pub fn new(num_blocks: usize, block_size: usize, prefix_caching_enabled: bool) -> (r: Self)
        requires
            num_blocks <= u32::MAX as nat + 1,
            block_size > 0,
        ensures
            r@ == CacheState::initial(num_blocks, block_size, prefix_caching_enabled),
            r.wf(),
            r@.sound(),
    {
        let r = KvCacheManager {
            pool: BlockPool::new(num_blocks, block_size),
            tables: HashMap::new(),
            prefix_cache: PrefixCache::new(),
            prefix_caching_enabled,
        };
        proof {
            assert(r@.tables =~= Map::empty());
            law_initial_cache_is_sound(num_blocks, block_size, prefix_caching_enabled);
        }
        r
    }

    pub fn block_size(&self) -> (r: usize)
        ensures
            r == self@.pool.block_size,
    {
        self.pool.block_size()
    }

    pub fn total_blocks(&self) -> (r: usize)
        ensures
            r == self@.pool.blocks.len(),
    {
        self.pool.total_blocks()
    }

    pub fn free_blocks(&self) -> (r: usize)
        ensures
            r == self@.pool.free.len(),
    {
        self.pool.num_free()
    }

    /// The share of the pool currently referenced.
    pub fn utilization(&self) -> (r: Ratio)
        requires
            self.wf(),
        ensures
            r == Ratio::spec_of(
                (self@.pool.blocks.len() - self@.pool.free.len()) as u64,
                self@.pool.blocks.len() as u64,
            ),
    {
        self.pool.utilization()
    }

    pub fn stats(&self) -> (r: CacheStats)
        requires
            self.wf(),
        ensures
            r.total_blocks == self@.pool.blocks.len(),
            r.used_blocks == self@.pool.blocks.len() - self@.pool.free.len(),
            r.free_blocks == self@.pool.free.len(),
            r.block_size == self@.pool.block_size,
            r.num_sequences == self@.tables.len(),
            r.prefix_cache_entries == self@.index.entries.len(),
            r.prefix_cache_hits == self@.index.hits,
            r.prefix_cache_misses == self@.index.misses,
    {
        CacheStats {
            total_blocks: self.pool.total_blocks(),
            used_blocks: self.pool.num_used(),
            free_blocks: self.pool.num_free(),
            block_size: self.pool.block_size(),
            num_sequences: self.num_sequences(),
            prefix_cache_entries: self.prefix_cache.len(),
            prefix_cache_hits: self.prefix_cache.hits(),
            prefix_cache_misses: self.prefix_cache.misses(),
        }
    }

    /// The share of prefix lookups that hit; zero before any lookup.
    pub fn prefix_cache_hit_rate(&self) -> (r: Ratio)
        requires
            self@.index.hits + self@.index.misses <= u64::MAX,
        ensures
            r == Ratio::spec_of(
                self@.index.hits,
                (self@.index.hits + self@.index.misses) as u64,
            ),
    {
        self.prefix_cache.hit_rate()
    }

    /// The block table for a sequence, if it has one.
    pub fn block_table(&self, seq: SequenceId) -> (r: Option<&BlockTable>)
        ensures
            match r {
                Some(t) => self@.tables.contains_key(seq@) && t@ == self@.tables[seq@],
                None => !self@.tables.contains_key(seq@),
            },
    {
        self.tables.get(&seq.as_u64())
    }

    /// Whether a sequence currently holds cache blocks.
    pub fn is_allocated(&self, seq: SequenceId) -> (r: bool)
        ensures
            r == self@.tables.contains_key(seq@),
    {
        self.tables.contains_key(&seq.as_u64())
    }

    /// Blocks needed to admit a prompt of `num_tokens`, ignoring cache reuse.
    pub fn blocks_needed_for(&self, num_tokens: usize) -> (r: usize)
        requires
            self.wf(),
        ensures
            r == blocks_for(num_tokens as int, self@.unit()),
    {
        BlockTable::blocks_required(num_tokens, self.pool.block_size())
    }

    /// Whether `num_tokens` could be admitted right now.
    pub fn can_allocate(&self, num_tokens: usize) -> (r: bool)
        requires
            self.wf(),
        ensures
            r == (blocks_for(num_tokens as int, self@.unit()) <= self@.pool.free.len()),
    {
        self.blocks_needed_for(num_tokens) <= self.pool.num_free()
    }

    /// Hands out the oldest free block, recorded to hold `num_tokens` tokens.
    ///
    /// Recycling a cached block invalidates its index entry, which is dropped
    /// before anything can look it up.
    fn recycle_block(&mut self, num_tokens: usize) -> (r: BlockId)
        requires
            old(self)@.pool.wf(),
            old(self)@.pool.free.len() > 0,
            num_tokens <= old(self)@.pool.block_size,
        ensures
            r == old(self)@.pool.free[0],
            final(self)@ == old(self)@.recycle(num_tokens),
            final(self)@.pool.wf(),
    {
        let ghost before = self@;
        match self.pool.allocate() {
            Ok((id, evicted)) => {
                if let Some(h) = evicted {
                    self.prefix_cache.remove(h, id);
                }
                proof {
                    assert(before.pool.knows(before.pool.free[0]));
                }
                let _ = self.pool.set_contents(id, num_tokens, None);
                id
            },
            Err(_) => BlockId(0),
        }
    }

    /// Allocates blocks covering a sequence's prompt, reusing cached prefix
    /// blocks where possible.
    ///
    /// Either every block is taken or nothing changes: the number of blocks is
    /// known before the first one is taken, and adopting a block never uses up
    /// more than one free block. A cached block whose reference count is
    /// exhausted is not adopted but recomputed.
    #[verifier::rlimit(60)]
    pub fn allocate(&mut self, seq: SequenceId, prompt: &[TokenId]) -> (r: Result<
        AllocationOutcome,
        EngineError,
    >)
        requires
            old(self).wf(),
        ensures
            final(self).wf(),
            old(self)@.sound() ==> final(self)@.sound(),
            match r {
                Ok(outcome) => {
                    &&& !old(self)@.tables.contains_key(seq@)
                    &&& old(self)@.blocks_of(prompt@) <= old(self)@.pool.free.len()
                    &&& final(self)@ == old(self)@.admitted(seq@, prompt@)
                    &&& outcome.reused == old(self)@.reused_blocks(prompt@)
                    &&& outcome.allocated == old(self)@.blocks_of(prompt@)
                        - old(self)@.reused_blocks(prompt@)
                    &&& outcome.cached_tokens == old(self)@.reused_blocks(prompt@)
                        * old(self)@.unit()
                },
                Err(e) => {
                    &&& final(self)@ == old(self)@
                    &&& if old(self)@.tables.contains_key(seq@) {
                        e.is_internal(sequence_text(seq@) + " already has a block table"@)
                    } else {
                        &&& old(self)@.blocks_of(prompt@) > old(self)@.pool.free.len()
                        &&& e == (EngineError::CacheExhausted {
                            needed: old(self)@.blocks_of(prompt@) as usize,
                            available: old(self)@.pool.free.len() as usize,
                        })
                    }
                },
            },
    {
        let ghost s0 = self@;
        if self.tables.contains_key(&seq.as_u64()) {
            return Err(
                EngineError::Internal(
                    join2(seq.to_text().as_str(), " already has a block table"),
                ),
            );
        }
        let block_size: usize = self.pool.block_size();
        let total: usize = prompt.len();
        let needed: usize = BlockTable::blocks_required(total, block_size);
        if needed > self.pool.num_free() {
            return Err(
                EngineError::CacheExhausted { needed, available: self.pool.num_free() },
            );
        }
        let mut table = BlockTable::new();
        let mut reused: usize = 0;
        let mut start: usize = 0;
        let mut chain: Option<BlockHash> = None;
        // Once one block misses, every later block's chained hash is unknown to
        // the cache too, so lookups stop rather than wasting hash work.
        let mut still_matching: bool = self.prefix_caching_enabled;
        proof {
            assert(table@.blocks =~= s0.adopted_blocks(prompt@, 0));
        }
        while still_matching && block_size <= total - start
            invariant
                s0.wf(),
                s0.unit() == block_size,
                block_size > 0,
                total == prompt@.len(),
                start == reused * block_size,
                reused <= start <= total,
                forall|i: int| 0 <= i < reused ==> s0.pool.knows(#[trigger] table@.blocks[i]),
                chain == prefix_hash(prompt@, block_size as int, reused as int),
                table@.blocks == s0.adopted_blocks(prompt@, reused as int),
                self@.tables == s0.tables,
                self@.caching == s0.caching,
                self@.pool == s0.pool_adopting(prompt@, reused as int),
                self@.index.entries == s0.index.entries,
                self@.pool.wf(),
                self@.pool.blocks.len() == s0.pool.blocks.len(),
                self@.pool.block_size == block_size,
                self@.pool.free.len() + reused >= s0.pool.free.len(),
                forall|id: BlockId| #[trigger]
                    s0.pool.knows(id) ==> self@.pool.block(id).ref_count == references(
                        s0.tables,
                        id,
                    ) + occurrences(table@.blocks, id),
                still_matching ==> s0.caching,
                s0.caching ==> s0.run_from(prompt@, 0) == s0.run_from(prompt@, reused as int),
                !s0.caching ==> reused == 0,
                if still_matching || !s0.caching {
                    self@.index == s0.index_after_hits(reused as int)
                } else {
                    &&& (reused + 1) * block_size <= prompt@.len()
                    &&& !s0.adoptable(prompt@, reused as int)
                    &&& self@.index == s0.index_after_hits(reused as int).counted(
                        s0.indexed(prompt@, reused as int),
                    )
                },
            decreases (if still_matching { 1int } else { 0int }), prompt@.len() - start,
        {
            let chunk = slice_subrange(prompt, start, start + block_size);
            let hash = hash_block(chain, chunk);
            proof {
                assert((reused + 1) * block_size == reused * block_size + block_size)
                    by (nonlinear_arith);
                assert(chunk@ == prompt_block(prompt@, block_size as int, reused as int));
                assert(Some(hash) == prefix_hash(prompt@, block_size as int, reused + 1));
                assert(hash == block_hash(prompt@, block_size as int, reused as int));
            }
            let ghost before = self@;
            let found = self.prefix_cache.lookup(hash, chunk);
            let mut adopted: bool = false;
            if let Some(id) = found {
                proof {
                    assert(s0.pool.knows(s0.index.entries[hash.0].block));
                    assert(id == s0.cached_block(prompt@, reused as int));
                }
                let spare: bool = match self.pool.get(id) {
                    Some(block) => block.ref_count() < u32::MAX,
                    None => false,
                };
                if spare {
                    let _ = self.pool.add_ref(id);
                    table.push(id);
                    adopted = true;
                    proof {
                        assert(table@.blocks =~= s0.adopted_blocks(prompt@, reused + 1));
                        assert(s0.adoptable(prompt@, reused as int));
                        lemma_referenced_frees_at_most_one(before.pool, id);
                        assert forall|b: BlockId| #[trigger] s0.pool.knows(b) implies
                            self@.pool.block(b).ref_count == references(s0.tables, b)
                            + occurrences(table@.blocks, b) by {
                            lemma_occurrences_push(
                                s0.adopted_blocks(prompt@, reused as int),
                                id,
                                b,
                            );
                            assert(s0.adopted_blocks(prompt@, reused as int).push(id)
                                =~= table@.blocks);
                            lemma_same_block(b, id);
                        }
                    }
                }
            }
            if adopted {
                reused += 1;
                start += block_size;
                chain = Some(hash);
            } else {
                still_matching = false;
            }
        }
        let ghost run = reused as int;
        proof {
            assert((reused + 1) * block_size == reused * block_size + block_size)
                by (nonlinear_arith);
            assert(s0.reused_blocks(prompt@) == run);
            assert(self@ == s0.adopting(prompt@));
            lemma_full_run(prompt@.len() as int, block_size as int, run);
            assert(table@.blocks =~= s0.adopted_blocks(prompt@, run) + s0.adopting(
                prompt@,
            ).recycled_blocks(prompt@, run, run));
        }
        let ghost t0 = self@;
        let mut k: usize = reused;
        while k < needed
            invariant
                s0.wf(),
                s0.unit() == block_size,
                block_size > 0,
                total == prompt@.len(),
                needed == blocks_for(prompt@.len() as int, block_size as int),
                run <= k <= needed,
                t0 == s0.adopting(prompt@),
                run == s0.reused_blocks(prompt@),
                t0.unit() == block_size,
                self@ == t0.recycling(prompt@, run, k as int),
                self@.tables == s0.tables,
                self@.caching == s0.caching,
                table@.blocks == s0.adopted_blocks(prompt@, run) + t0.recycled_blocks(
                    prompt@,
                    run,
                    k as int,
                ),
                self@.pool.wf(),
                self@.pool.blocks.len() == s0.pool.blocks.len(),
                self@.pool.block_size == block_size,
                self@.pool.free.len() + k >= needed,
                forall|id: BlockId| #[trigger]
                    s0.pool.knows(id) ==> self@.pool.block(id).ref_count == references(
                        s0.tables,
                        id,
                    ) + occurrences(table@.blocks, id),
                forall|h: u64| #[trigger]
                    self@.index.entries.contains_key(h) ==> s0.pool.knows(
                        self@.index.entries[h].block,
                    ),
                table@.blocks.len() == k,
                forall|i: int| 0 <= i < k ==> s0.pool.knows(#[trigger] table@.blocks[i]),
            decreases needed - k,
        {
            proof {
                lemma_block_start(prompt@.len() as int, block_size as int, k as int);
            }
            let at: usize = k * block_size;
            let len: usize = if total - at < block_size {
                total - at
            } else {
                block_size
            };
            let ghost before = self@;
            let ghost held = table@.blocks;
            let id = self.recycle_block(len);
            table.push(id);
            proof {
                assert(prompt_block(prompt@, block_size as int, k as int).len() == len);
                assert(before.pool.knows(before.pool.free[0]));
                assert(table@.blocks =~= s0.adopted_blocks(prompt@, run) + t0.recycled_blocks(
                    prompt@,
                    run,
                    k + 1,
                ));
                assert forall|b: BlockId| #[trigger] s0.pool.knows(b) implies self@.pool.block(
                    b,
                ).ref_count == references(s0.tables, b) + occurrences(table@.blocks, b) by {
                    lemma_occurrences_push(held, id, b);
                    lemma_same_block(b, id);
                }
            }
            k += 1;
        }
        table.set_num_tokens(total);
        let ghost t = table@;
        self.tables.insert(seq.as_u64(), table);
        proof {
            assert(self@.tables =~= s0.tables.insert(seq@, t));
            assert(self@ == s0.admitted(seq@, prompt@));
            assert forall|id: BlockId| #[trigger] self@.pool.knows(id) implies self@.pool.block(
                id,
            ).ref_count == references(self@.tables, id) by {
                assert(s0.pool.knows(id));
                lemma_references_insert(s0.tables, seq@, t, id);
            }
            assert forall|s: u64| #[trigger] self@.tables.contains_key(s) implies self@.table_wf(
                self@.tables[s],
            ) by {
                if s != seq@ {
                    assert(s0.tables.contains_key(s));
                    assert(s0.table_wf(s0.tables[s]));
                    lemma_table_wf_carries_over(s0, self@, s0.tables[s]);
                } else {
                    assert forall|i: int| 0 <= i < t.blocks.len() implies self@.pool.knows(
                        #[trigger] t.blocks[i],
                    ) by {
                        assert(s0.pool.knows(t.blocks[i]));
                    }
                }
            }
            lemma_block_run_fits(prompt@.len() as int, block_size as int, run);
            lemma_admission_keeps_finite(s0, seq@, prompt@);
            assert(prompt.len() == prompt@.len());
            law_admission_is_safe(s0, seq@, prompt@);
        }
        Ok(
            AllocationOutcome {
                allocated: needed - reused,
                reused,
                cached_tokens: reused * block_size,
            },
        )
    }

    /// Publishes the sequence's full prompt blocks to the prefix cache.
    ///
    /// Called once prefill has actually computed the KV entries: publishing
    /// earlier would let another sequence adopt blocks holding uninitialized
    /// memory. The trailing partial block is never published, since it will
    /// still be written to during decode.
    pub fn commit_prefill(&mut self, seq: SequenceId, prompt: &[TokenId])
        requires
            old(self).wf(),
        ensures
            final(self).wf(),
            final(self)@ == old(self)@.committed(seq@, prompt@),
            old(self)@.sound() && ready_to_commit(old(self)@, seq@, prompt@)
                ==> final(self)@.sound(),
    {
        if !self.prefix_caching_enabled {
            return;
        }
        let ghost s0 = self@;
        let block_size: usize = self.pool.block_size();
        let total: usize = prompt.len();
        let held: usize = match self.tables.get(&seq.as_u64()) {
            Some(table) => table.num_blocks(),
            None => {
                return;
            },
        };
        let whole: usize = total / block_size;
        let full: usize = if whole <= held {
            whole
        } else {
            held
        };
        let mut chain: Option<BlockHash> = None;
        let mut i: usize = 0;
        while i < full
            invariant
                s0.wf(),
                s0.unit() == block_size,
                block_size > 0,
                total == prompt@.len(),
                whole == total as int / block_size as int,
                full == s0.full_blocks(seq@, prompt@),
                full <= whole,
                i <= full <= held,
                s0.tables.contains_key(seq@),
                held == s0.tables[seq@].blocks.len(),
                chain == prefix_hash(prompt@, block_size as int, i as int),
                self@ == s0.publishing(seq@, prompt@, i as int),
                self@.tables == s0.tables,
                self@.caching == s0.caching,
                self@.pool.wf(),
                self@.pool.blocks.len() == s0.pool.blocks.len(),
                self@.pool.block_size == block_size,
                forall|id: BlockId| #[trigger]
                    s0.pool.knows(id) ==> self@.pool.block(id).ref_count == s0.pool.block(
                        id,
                    ).ref_count,
                forall|h: u64| #[trigger]
                    self@.index.entries.contains_key(h) ==> s0.pool.knows(
                        self@.index.entries[h].block,
                    ),
            decreases full - i,
        {
            proof {
                lemma_whole_blocks(total as int, block_size as int, i as int);
            }
            let at: usize = i * block_size;
            let chunk = slice_subrange(prompt, at, at + block_size);
            let id: BlockId = match self.tables.get(&seq.as_u64()) {
                Some(table) => table.blocks()[i],
                None => BlockId(0),
            };
            let hash = hash_block(chain, chunk);
            proof {
                assert(id == s0.tables[seq@].blocks[i as int]);
                assert(s0.table_wf(s0.tables[seq@]));
                assert(s0.pool.knows(id));
                assert(chunk@ == prompt_block(prompt@, block_size as int, i as int));
                assert(Some(hash) == prefix_hash(prompt@, block_size as int, i + 1));
                assert(hash == block_hash(prompt@, block_size as int, i as int));
            }
            let ghost before = self@;
            let _ = self.pool.set_contents(id, block_size, Some(hash));
            self.prefix_cache.insert(hash, id, slice_to_vec(chunk));
            chain = Some(hash);
            proof {
                assert forall|h: u64| #[trigger] self@.index.entries.contains_key(h) implies
                    s0.pool.knows(self@.index.entries[h].block) by {
                    if before.index.entries.contains_key(h) {
                        assert(s0.pool.knows(before.index.entries[h].block));
                    }
                }
            }
            i += 1;
        }
        proof {
            assert forall|id: BlockId| #[trigger] self@.pool.knows(id) implies self@.pool.block(
                id,
            ).ref_count == references(self@.tables, id) by {
                assert(s0.pool.knows(id));
            }
            assert forall|s: u64| #[trigger] self@.tables.contains_key(s) implies self@.table_wf(
                self@.tables[s],
            ) by {
                assert(s0.table_wf(s0.tables[s]));
                lemma_table_wf_carries_over(s0, self@, s0.tables[s]);
            }
            lemma_publishing_keeps_finite(s0, seq@, prompt@, i as int);
            if s0.sound() && ready_to_commit(s0, seq@, prompt@) {
                law_commit_keeps_soundness(s0, seq@, prompt@);
            }
        }
    }

    /// Ensures a sequence has room for one more token, allocating if the
    /// current final block is full.
    ///
    /// A failure leaves the sequence exactly as it was. A table that already
    /// counts `usize::MAX` tokens cannot grow.
    pub fn append_token(&mut self, seq: SequenceId) -> (r: Result<(), EngineError>)
        requires
            old(self).wf(),
        ensures
            final(self).wf(),
            old(self)@.sound() ==> final(self)@.sound(),
            match r {
                Ok(()) => {
                    &&& old(self)@.can_append(seq@)
                    &&& final(self)@ == old(self)@.appended(seq@)
                },
                Err(e) => {
                    &&& final(self)@ == old(self)@
                    &&& !old(self)@.can_append(seq@)
                    &&& if !old(self)@.tables.contains_key(seq@) {
                        e.is_internal(sequence_text(seq@) + " has no block table"@)
                    } else if old(self)@.tables[seq@].num_tokens == usize::MAX {
                        e.is_internal(sequence_text(seq@) + " cannot count another token"@)
                    } else {
                        e == (EngineError::CacheExhausted { needed: 1, available: 0 })
                    }
                },
            },
    {
        let ghost s0 = self@;
        let key: u64 = seq.as_u64();
        let block_size: usize = self.pool.block_size();
        let (num_tokens, num_blocks): (usize, usize) = match self.tables.get(&key) {
            Some(table) => (table.num_tokens(), table.num_blocks()),
            None => {
                return Err(
                    EngineError::Internal(join2(seq.to_text().as_str(), " has no block table")),
                );
            },
        };
        if num_tokens == usize::MAX {
            return Err(
                EngineError::Internal(
                    join2(seq.to_text().as_str(), " cannot count another token"),
                ),
            );
        }
        let ghost t = s0.tables[seq@];
        proof {
            assert(s0.tables.contains_key(seq@));
            assert(s0.table_wf(t));
            lemma_growth(num_tokens as int, block_size as int);
        }
        let new_len: usize = num_tokens + 1;
        let need_block: bool = BlockTable::blocks_required(new_len, block_size) > num_blocks;
        if need_block && self.pool.num_free() == 0 {
            return Err(EngineError::CacheExhausted { needed: 1, available: 0 });
        }
        if need_block {
            // Recycle before touching the table.
            let id = self.recycle_block(1);
            if let Some(mut table) = self.tables.remove(&key) {
                table.push(id);
                table.set_num_tokens(new_len);
                let ghost grown = table@;
                self.tables.insert(key, table);
                proof {
                    assert(self@.tables =~= s0.tables.insert(seq@, grown));
                    assert(self@ == s0.appended(seq@));
                    lemma_appended(s0, seq@);
                }
            }
        } else {
            if let Some(mut table) = self.tables.remove(&key) {
                let last: BlockId = table.blocks()[num_blocks - 1];
                table.set_num_tokens(new_len);
                let ghost grown = table@;
                self.tables.insert(key, table);
                // Keep the final block's token count accurate so accounting
                // stays truthful even mid-block.
                let filled: usize = new_len - (num_blocks - 1) * block_size;
                proof {
                    assert(s0.pool.knows(t.blocks[num_blocks - 1]));
                }
                let _ = self.pool.set_contents(last, filled, None);
                proof {
                    assert(self@.tables =~= s0.tables.insert(seq@, grown));
                    assert(self@ == s0.appended(seq@));
                    lemma_appended(s0, seq@);
                }
            }
        }
        Ok(())
    }

    /// Releases every block held by a sequence.
    ///
    /// Releasing an unknown sequence is a no-op, so cleanup paths can run
    /// unconditionally.
    pub fn free(&mut self, seq: SequenceId)
        requires
            old(self).wf(),
        ensures
            final(self).wf(),
            final(self)@ == old(self)@.freed(seq@),
            old(self)@.sound() ==> final(self)@.sound(),
    {
        let ghost s0 = self@;
        proof {
            law_free_is_safe(s0, seq@);
        }
        match self.tables.remove(&seq.as_u64()) {
            None => {
                proof {
                    assert(self@.tables =~= s0.tables);
                }
            },
            Some(table) => {
                let mut table = table;
                let ghost rest = s0.tables.remove(seq@);
                proof {
                    assert(self@.tables =~= rest);
                }
                let blocks = table.take_blocks();
                let mut i: usize = 0;
                proof {
                    assert(s0.tables.contains_key(seq@));
                    assert(s0.table_wf(s0.tables[seq@]));
                    assert(blocks@.skip(0) =~= blocks@);
                    assert forall|id: BlockId| #[trigger] s0.pool.knows(id) implies
                        self@.pool.block(id).ref_count == references(rest, id) + occurrences(
                        blocks@.skip(0),
                        id,
                    ) by {
                        lemma_references_remove(s0.tables, seq@, id);
                    }
                }
                while i < blocks.len()
                    invariant
                        s0.wf(),
                        s0.tables.contains_key(seq@),
                        blocks@ == s0.tables[seq@].blocks,
                        s0.table_wf(s0.tables[seq@]),
                        i <= blocks@.len(),
                        self@.tables == rest,
                        self@.caching == s0.caching,
                        self@.index == s0.index,
                        self@.pool == s0.pool_releasing(blocks@, i as int),
                        self@.pool.wf(),
                        self@.pool.blocks.len() == s0.pool.blocks.len(),
                        self@.pool.block_size == s0.pool.block_size,
                        forall|id: BlockId| #[trigger]
                            s0.pool.knows(id) ==> self@.pool.block(id).ref_count == references(
                                rest,
                                id,
                            ) + occurrences(blocks@.skip(i as int), id),
                    decreases blocks@.len() - i,
                {
                    let id: BlockId = blocks[i];
                    let ghost before = self@;
                    proof {
                        assert(s0.pool.knows(blocks@[i as int]));
                        lemma_skip_one(blocks@, i as int, id);
                    }
                    let _ = self.pool.release(id);
                    proof {
                        assert forall|b: BlockId| #[trigger] s0.pool.knows(b) implies
                            self@.pool.block(b).ref_count == references(rest, b) + occurrences(
                            blocks@.skip(i + 1),
                            b,
                        ) by {
                            lemma_skip_one(blocks@, i as int, b);
                            lemma_same_block(b, id);
                        }
                    }
                    i += 1;
                }
                proof {
                    assert(self@ == s0.freed(seq@));
                    assert forall|id: BlockId| #[trigger] self@.pool.knows(id) implies
                        self@.pool.block(id).ref_count == references(self@.tables, id) by {
                        assert(s0.pool.knows(id));
                    }
                    assert forall|s: u64| #[trigger] self@.tables.contains_key(s) implies
                        self@.table_wf(self@.tables[s]) by {
                        assert(s0.table_wf(s0.tables[s]));
                        lemma_table_wf_carries_over(s0, self@, s0.tables[s]);
                    }
                    assert forall|h: u64| #[trigger] self@.index.entries.contains_key(h) implies
                        self@.pool.knows(self@.index.entries[h].block) by {
                        assert(s0.pool.knows(s0.index.entries[h].block));
                    }
                }
            },
        }
    }

    /// Frees a sequence's blocks on preemption, returning how many were
    /// reclaimed: those that no other sequence shares.
    pub fn preempt(&mut self, seq: SequenceId) -> (r: usize)
        requires
            old(self).wf(),
        ensures
            final(self).wf(),
            final(self)@ == old(self)@.freed(seq@),
            old(self)@.sound() ==> final(self)@.sound(),
            r == final(self)@.pool.free.len() - old(self)@.pool.free.len(),
    {
        let before: usize = self.free_blocks();
        let ghost s0 = self@;
        self.free(seq);
        proof {
            if s0.tables.contains_key(seq@) {
                let blocks = s0.tables[seq@].blocks;
                lemma_releasing_frees(s0, blocks, blocks.len() as int);
            }
        }
        self.free_blocks() - before
    }

    /// The raw block table a backend needs for this sequence.
    pub fn raw_block_table(&self, seq: SequenceId) -> (r: Option<Vec<u32>>)
        ensures
            match r {
                Some(raw) => {
                    &&& self@.tables.contains_key(seq@)
                    &&& raw@ == self@.tables[seq@].blocks.map_values(|b: BlockId| b.0)
                },
                None => !self@.tables.contains_key(seq@),
            },
    {
        match self.tables.get(&seq.as_u64()) {
            Some(table) => Some(table.to_raw()),
            None => None,
        }
    }

    /// Forgets cached contents of up to `count` free blocks, the oldest first,
    /// and returns of how many.
    ///
    /// Eviction never changes how many blocks are free: a cached block was
    /// already free and already allocatable. Its only effect is to drop
    /// prefix-cache entries. Blocks a sequence still references are never
    /// touched.
    pub fn evict_cached(&mut self, count: usize) -> (r: usize)
        requires
            old(self).wf(),
        ensures
            final(self).wf(),
            old(self)@.sound() ==> final(self)@.sound(),
            r == if count <= old(self)@.pool.evictable().len() {
                count as int
            } else {
                old(self)@.pool.evictable().len() as int
            },
            final(self)@ == old(self)@.evicted(r as int),
            final(self)@.pool.free == old(self)@.pool.free,
            final(self)@.pool.evictable().len() == old(self)@.pool.evictable().len() - r,
    {
        let ghost s0 = self@;
        let mut evicted: usize = 0;
        while evicted < count
            invariant
                s0 == old(self)@,
                evicted <= count,
                self.wf(),
                s0.sound() ==> self@.sound(),
                self@ == s0.evicted(evicted as int),
                self@.pool.free == s0.pool.free,
                self@.pool.evictable().len() == s0.pool.evictable().len() - evicted,
            ensures
                evicted <= count,
                evicted < count ==> self@.pool.evictable().len() == 0,
                self.wf(),
                s0.sound() ==> self@.sound(),
                self@ == s0.evicted(evicted as int),
                self@.pool.free == s0.pool.free,
                self@.pool.evictable().len() == s0.pool.evictable().len() - evicted,
            decreases count - evicted,
        {
            let ghost before = self@;
            match self.pool.evict_oldest_cached() {
                Some((id, hash)) => {
                    self.prefix_cache.remove(hash, id);
                    proof {
                        let k = choose|k: int| #[trigger]
                            before.pool.oldest_cached_at(k) && before.pool.free[k] == id;
                        lemma_oldest_cached_unique(before.pool, k);
                        assert(before.eviction_victim() == id);
                        assert(self@ == before.evict_one());
                        lemma_evict_one(before);
                        if before.sound() {
                            law_eviction_is_safe(before);
                        }
                    }
                    evicted += 1;
                },
                None => {
                    proof {
                        lemma_nothing_evictable(before.pool);
                    }
                    break;
                },
            }
        }
        evicted
    }

    /// Drops every prefix-cache entry and the cached contents of every free
    /// block, leaving the blocks themselves allocatable as before.
    pub fn clear_prefix_cache(&mut self)
        requires
            old(self).wf(),
        ensures
            final(self).wf(),
            final(self)@ == old(self)@.cleared(),
            old(self)@.sound() ==> final(self)@.sound(),
            final(self)@.pool.free == old(self)@.pool.free,
            final(self)@.pool.evictable().len() == 0,
    {
        let n: usize = self.pool.num_evictable();
        self.evict_cached(n);
        let ghost before = self@;
        self.prefix_cache.clear();
        proof {
            assert forall|s: u64| #[trigger] self@.tables.contains_key(s) implies self@.table_wf(
                self@.tables[s],
            ) by {
                assert(before.table_wf(before.tables[s]));
                lemma_table_wf_carries_over(before, self@, before.tables[s]);
            }
            if before.sound() {
                assert forall|s: u64| #[trigger] self@.tables.contains_key(s) implies self@.filled(
                    self@.tables[s],
                ) by {
                    assert(before.filled(before.tables[s]));
                }
                assert forall|id: BlockId| #[trigger] self@.pool.knows(id) implies {
                    &&& self@.pool.block(id).hash is Some ==> self@.pool.block(id).num_tokens
                        == self@.pool.block_size
                    &&& self@.pool.block(id).ref_count >= 2 ==> self@.pool.block(id).hash is Some
                } by {
                    assert(before.pool.knows(id));
                }
            }
        }
    }

    /// Free blocks that still carry reusable cached contents.
    pub fn num_evictable(&self) -> (r: usize)
        requires
            self.wf(),
        ensures
            r == self@.pool.evictable().len(),
    {
        self.pool.num_evictable()
    }

    /// Number of sequences currently holding blocks.
    pub fn num_sequences(&self) -> (r: usize)
        ensures
            r == self@.tables.len(),
    {
        proof {
            assert(self@.tables.dom() =~= self.tables@.dom());
        }
        self.tables.len()
    }
}

/// The `i`-th of the whole blocks lies inside the prompt.
proof fn lemma_whole_blocks(len: int, unit: int, i: int)
    requires
        len >= 0,
        unit > 0,
        0 <= i < len / unit,
    ensures
        0 <= i * unit,
        (i + 1) * unit == i * unit + unit,
        i * unit + unit <= len,
{
    vstd::arithmetic::div_mod::lemma_fundamental_div_mod(len, unit);
    assert((i + 1) * unit == i * unit + unit) by (nonlinear_arith);
    assert(0 <= i * unit) by (nonlinear_arith)
        requires
            i >= 0,
            unit > 0,
    ;
    assert((i + 1) * unit <= unit * (len / unit)) by (nonlinear_arith)
        requires
            i + 1 <= len / unit,
            unit > 0,
    ;
    vstd::arithmetic::div_mod::lemma_mod_bound(len, unit);
}

/// One more token needs another block exactly if the blocks so far are full.
proof fn lemma_growth(n: int, unit: int)
    requires
        n >= 0,
        unit > 0,
    ensures
        ({
            let b = blocks_for(n, unit);
            let c = blocks_for(n + 1, unit);
            if c > b {
                c == b + 1 && n == b * unit
            } else {
                c == b && b >= 1 && (b - 1) * unit <= n < b * unit && b * unit == (b - 1) * unit
                    + unit
            }
        }),
{
    let b = blocks_for(n, unit);
    let c = blocks_for(n + 1, unit);
    law_blocks_for_is_least(n, unit);
    law_blocks_for_is_least(n + 1, unit);
    assert((b + 1) * unit == b * unit + unit) by (nonlinear_arith);
    assert((b - 1) * unit == b * unit - unit) by (nonlinear_arith);
    assert(n <= c * unit);
    assert(b <= c);
    assert(n + 1 <= (b + 1) * unit);
    assert(c <= b + 1);
    if c > b {
        if n + 1 <= b * unit {
            assert(c <= b);
        }
    } else {
        if b < 1 {
            assert(b * unit == 0) by (nonlinear_arith)
                requires
                    b == 0,
            ;
        }
    }
}

proof fn lemma_same_block(a: BlockId, b: BlockId)
    ensures
        a.0 == b.0 <==> a == b,
{
}

proof fn lemma_block_run_fits(len: int, unit: int, k: int)
    requires
        unit > 0,
        0 <= k,
        k * unit <= len,
    ensures
        0 <= k * unit <= len,
{
    assert(0 <= k * unit) by (nonlinear_arith)
        requires
            k >= 0,
            unit > 0,
    ;
}

proof fn lemma_table_wf_carries_over(a: CacheState, b: CacheState, t: TableState)
    requires
        a.table_wf(t),
        a.pool.blocks.len() == b.pool.blocks.len(),
        a.pool.block_size == b.pool.block_size,
    ensures
        b.table_wf(t),
{
    assert forall|i: int| 0 <= i < t.blocks.len() implies b.pool.knows(#[trigger] t.blocks[i]) by {
        assert(a.pool.knows(t.blocks[i]));
    }
}

proof fn lemma_referenced_frees_at_most_one(p: PoolState, id: BlockId)
    requires
        p.wf(),
        p.knows(id),
    ensures
        p.referenced(id).free.len() + 1 >= p.free.len(),
        p.block(id).ref_count > 0 ==> p.referenced(id).free == p.free,
{
    if p.block(id).ref_count == 0 {
        assert(p.blocks[id.0 as int].id == id);
        assert(p.free.contains(id));
        let at = p.free.index_of(id);
        assert(p.free[at] == id);
        p.free.remove_ensures(at);
    }
}

} // verus!
