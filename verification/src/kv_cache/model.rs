//! The mathematical model of the KV cache: what it holds, what each operation
//! makes of it, and the laws that every operation keeps.

use crate::id::{BlockId, TokenId};
use crate::kv_cache::block::{BlockHash, PoolState};
use crate::kv_cache::prefix::IndexState;
use crate::kv_cache::table::{blocks_for, chained_hash, TableState};
use vstd::prelude::*;

verus! {

/// What a KV cache manager holds.
pub ghost struct CacheState {
    pub pool: PoolState,
    pub tables: Map<u64, TableState>,
    pub index: IndexState,
    pub caching: bool,
}

/// How often `id` occurs in `blocks`.
pub open spec fn occurrences(blocks: Seq<BlockId>, id: BlockId) -> nat
    decreases blocks.len(),
{
    if blocks.len() == 0 {
        0
    } else {
        occurrences(blocks.drop_last(), id) + if blocks.last() == id {
            1nat
        } else {
            0nat
        }
    }
}

/// How often `id` occurs in all block tables together.
pub open spec fn references(tables: Map<u64, TableState>, id: BlockId) -> nat
    decreases tables.dom().len(),
{
    if tables.dom().finite() && tables.dom().len() > 0 {
        let seq = tables.dom().choose();
        occurrences(tables[seq].blocks, id) + references(tables.remove(seq), id)
    } else {
        0
    }
}

/// The tokens of the `i`-th block of a prompt; the last block may be short.
pub open spec fn prompt_block(prompt: Seq<TokenId>, block_size: int, i: int) -> Seq<TokenId> {
    prompt.subrange(
        i * block_size,
        if (i + 1) * block_size <= prompt.len() {
            (i + 1) * block_size
        } else {
            prompt.len() as int
        },
    )
}

/// The chained hash of the first `n` blocks of a prompt.
pub open spec fn prefix_hash(prompt: Seq<TokenId>, block_size: int, n: int) -> Option<BlockHash>
    decreases n,
{
    if n <= 0 {
        None
    } else {
        Some(
            chained_hash(
                prefix_hash(prompt, block_size, n - 1),
                prompt_block(prompt, block_size, n - 1),
            ),
        )
    }
}

/// The hash under which the `i`-th block of a prompt is indexed.
pub open spec fn block_hash(prompt: Seq<TokenId>, block_size: int, i: int) -> BlockHash {
    prefix_hash(prompt, block_size, i + 1)->0
}

impl CacheState {
    /// The cache's invariant: reference counts are exactly the occurrences in
    /// block tables, each table has as many blocks as its tokens need, and
    /// tables and index are finite and name only blocks that exist.
    pub open spec fn wf(self) -> bool {
        &&& self.pool.wf()
        &&& self.pool.block_size > 0
        &&& self.tables.dom().finite()
        &&& self.index.entries.dom().finite()
        &&& forall|id: BlockId| #[trigger]
            self.pool.knows(id) ==> self.pool.block(id).ref_count == references(self.tables, id)
        &&& forall|s: u64| #[trigger] self.tables.contains_key(s) ==> self.table_wf(self.tables[s])
        &&& forall|h: u64| #[trigger]
            self.index.entries.contains_key(h) ==> self.pool.knows(self.index.entries[h].block)
    }

    pub open spec fn table_wf(self, t: TableState) -> bool {
        &&& t.blocks.len() == blocks_for(t.num_tokens as int, self.pool.block_size as int)
        &&& forall|i: int| 0 <= i < t.blocks.len() ==> self.pool.knows(#[trigger] t.blocks[i])
    }

    /// What makes sharing safe: an index entry names a block that carries its
    /// hash; a block with a hash is full; a block with two references or more
    /// has a hash; and each block of a table records as many tokens as the
    /// table puts into it.
    pub open spec fn sound(self) -> bool {
        &&& forall|h: u64| #[trigger]
            self.index.entries.contains_key(h) ==> {
                &&& self.pool.block(self.index.entries[h].block).hash == Some(BlockHash(h))
                &&& self.index.entries[h].tokens.len() == self.unit()
            }
        &&& forall|id: BlockId| #[trigger]
            self.pool.knows(id) ==> {
                &&& self.pool.block(id).hash is Some ==> self.pool.block(id).num_tokens
                    == self.pool.block_size
                &&& self.pool.block(id).ref_count >= 2 ==> self.pool.block(id).hash is Some
            }
        &&& forall|s: u64| #[trigger] self.tables.contains_key(s) ==> self.filled(self.tables[s])
    }

    /// Whether each block of the table records as many tokens as the table
    /// puts into it: all are full but possibly the last.
    pub open spec fn filled(self, t: TableState) -> bool {
        forall|i: int|
            0 <= i < t.blocks.len() ==> self.pool.block(#[trigger] t.blocks[i]).num_tokens == if (i
                + 1) * self.unit() <= t.num_tokens {
                self.unit()
            } else {
                t.num_tokens - i * self.unit()
            }
    }

    /// The capacity of a block, in tokens.
    pub open spec fn unit(self) -> int {
        self.pool.block_size as int
    }

    /// A cache with nothing in it.
    pub open spec fn initial(num_blocks: usize, block_size: usize, caching: bool) -> CacheState {
        CacheState {
            pool: PoolState::initial(num_blocks, block_size),
            tables: Map::empty(),
            index: IndexState::empty(),
            caching,
        }
    }

    // ----- admitting a prompt -------------------------------------------------
    /// The cached block that the `i`-th block of the prompt is found under.
    pub open spec fn cached_block(self, prompt: Seq<TokenId>, i: int) -> BlockId {
        self.index.entries[block_hash(prompt, self.unit(), i).0].block
    }

    /// The pool after the first `k` blocks of the prompt were adopted from the
    /// index.
    pub open spec fn pool_adopting(self, prompt: Seq<TokenId>, k: int) -> PoolState
        decreases k,
    {
        if k <= 0 {
            self.pool
        } else {
            self.pool_adopting(prompt, k - 1).referenced(self.cached_block(prompt, k - 1))
        }
    }

    /// The first `k` blocks of the prompt as the index has them.
    pub open spec fn adopted_blocks(self, prompt: Seq<TokenId>, k: int) -> Seq<BlockId> {
        Seq::new(k as nat, |i: int| self.cached_block(prompt, i))
    }

    /// Whether the `i`-th block of the prompt is full and a block with exactly
    /// its tokens is indexed under its hash.
    pub open spec fn indexed(self, prompt: Seq<TokenId>, i: int) -> bool {
        &&& (i + 1) * self.unit() <= prompt.len()
        &&& self.index.matches(
            block_hash(prompt, self.unit(), i),
            prompt_block(prompt, self.unit(), i),
        )
    }

    /// Whether the `i`-th block can be adopted once the ones before it were:
    /// it is indexed, and its reference count has room for one more.
    pub open spec fn adoptable(self, prompt: Seq<TokenId>, i: int) -> bool {
        &&& self.indexed(prompt, i)
        &&& self.pool_adopting(prompt, i).block(self.cached_block(prompt, i)).ref_count < u32::MAX
    }

    /// How many leading blocks of the prompt are adopted, the first `k` being
    /// adopted already.
    pub open spec fn run_from(self, prompt: Seq<TokenId>, k: int) -> int
        decreases prompt.len() - k * self.unit(),
    {
        if self.unit() > 0 && self.adoptable(prompt, k) {
            proof {
                assert((k + 1) * self.unit() == k * self.unit() + self.unit())
                    by (nonlinear_arith);
            }
            self.run_from(prompt, k + 1)
        } else {
            k
        }
    }

    /// How many leading blocks of the prompt are served from the index.
    pub open spec fn reused_blocks(self, prompt: Seq<TokenId>) -> int {
        if self.caching {
            self.run_from(prompt, 0)
        } else {
            0
        }
    }

    /// The index after `k` lookups that hit.
    pub open spec fn index_after_hits(self, k: int) -> IndexState
        decreases k,
    {
        if k <= 0 {
            self.index
        } else {
            self.index_after_hits(k - 1).counted(true)
        }
    }

    /// The index after the lookups that admitting the prompt makes: one per
    /// adopted block, and one for the first full block that is not adopted.
    pub open spec fn index_after_lookups(self, prompt: Seq<TokenId>) -> IndexState {
        let k = self.reused_blocks(prompt);
        if self.caching && (k + 1) * self.unit() <= prompt.len() {
            self.index_after_hits(k).counted(self.indexed(prompt, k))
        } else {
            self.index_after_hits(k)
        }
    }

    /// The cache once it has handed out its oldest free block, recorded to
    /// hold `num_tokens` tokens: what was indexed of it is forgotten.
    pub open spec fn recycle(self, num_tokens: usize) -> CacheState {
        let id = self.pool.free[0];
        CacheState {
            pool: self.pool.take_oldest().with_contents(id, num_tokens, None),
            index: match self.pool.block(id).hash {
                Some(h) => self.index.withdrawn(h, id),
                None => self.index,
            },
            ..self
        }
    }

    /// The cache after recycling a block for each of the prompt's blocks from
    /// `from` up to `to`.
    pub open spec fn recycling(self, prompt: Seq<TokenId>, from: int, to: int) -> CacheState
        decreases to - from,
    {
        if to <= from {
            self
        } else {
            self.recycling(prompt, from, to - 1).recycle(
                prompt_block(prompt, self.unit(), to - 1).len() as usize,
            )
        }
    }

    /// The blocks that [`Self::recycling`] hands out, in order.
    pub open spec fn recycled_blocks(self, prompt: Seq<TokenId>, from: int, to: int) -> Seq<BlockId>
        decreases to - from,
    {
        if to <= from {
            seq![]
        } else {
            self.recycled_blocks(prompt, from, to - 1).push(
                self.recycling(prompt, from, to - 1).pool.free[0],
            )
        }
    }

    /// The cache once the blocks found in the index were adopted, before any
    /// block is recycled.
    pub open spec fn adopting(self, prompt: Seq<TokenId>) -> CacheState {
        CacheState {
            pool: self.pool_adopting(prompt, self.reused_blocks(prompt)),
            index: self.index_after_lookups(prompt),
            ..self
        }
    }

    /// Blocks that a prompt fills.
    pub open spec fn blocks_of(self, prompt: Seq<TokenId>) -> int {
        blocks_for(prompt.len() as int, self.unit())
    }

    /// The blocks a prompt is given: as many leading ones as the index has,
    /// then the oldest free ones.
    pub open spec fn placement(self, prompt: Seq<TokenId>) -> Seq<BlockId> {
        let k = self.reused_blocks(prompt);
        self.adopted_blocks(prompt, k) + self.adopting(prompt).recycled_blocks(
            prompt,
            k,
            self.blocks_of(prompt),
        )
    }

    /// The cache after a prompt was admitted for `seq`.
    pub open spec fn admitted(self, seq: u64, prompt: Seq<TokenId>) -> CacheState {
        let done = self.adopting(prompt).recycling(
            prompt,
            self.reused_blocks(prompt),
            self.blocks_of(prompt),
        );
        CacheState {
            tables: self.tables.insert(
                seq,
                TableState { blocks: self.placement(prompt), num_tokens: prompt.len() as usize },
            ),
            ..done
        }
    }

    // ----- publishing a computed prompt ----------------------------------------
    /// How many of `seq`'s blocks the prompt fills completely.
    pub open spec fn full_blocks(self, seq: u64, prompt: Seq<TokenId>) -> int {
        let whole = prompt.len() as int / self.unit();
        let held = self.tables[seq].blocks.len() as int;
        if whole <= held {
            whole
        } else {
            held
        }
    }

    /// The cache after the first `k` blocks of `seq` were published.
    pub open spec fn publishing(self, seq: u64, prompt: Seq<TokenId>, k: int) -> CacheState
        decreases k,
    {
        if k <= 0 {
            self
        } else {
            let before = self.publishing(seq, prompt, k - 1);
            let id = self.tables[seq].blocks[k - 1];
            let h = block_hash(prompt, self.unit(), k - 1);
            CacheState {
                pool: before.pool.with_contents(id, self.pool.block_size, Some(h)),
                index: before.index.published(
                    h,
                    id,
                    prompt_block(prompt, self.unit(), k - 1),
                ),
                ..before
            }
        }
    }

    /// The cache after `seq`'s full prompt blocks were published.
    pub open spec fn committed(self, seq: u64, prompt: Seq<TokenId>) -> CacheState {
        if self.caching && self.tables.contains_key(seq) {
            self.publishing(seq, prompt, self.full_blocks(seq, prompt))
        } else {
            self
        }
    }

    // ----- growing by one token -------------------------------------------------
    /// Whether one more token of `seq` needs another block.
    pub open spec fn needs_block(self, seq: u64) -> bool {
        blocks_for(self.tables[seq].num_tokens + 1, self.unit()) > self.tables[seq].blocks.len()
    }

    /// Whether one more token of `seq` can be given a place.
    pub open spec fn can_append(self, seq: u64) -> bool {
        &&& self.tables.contains_key(seq)
        &&& self.tables[seq].num_tokens < usize::MAX
        &&& self.needs_block(seq) ==> self.pool.free.len() > 0
    }

    /// The cache after one more token of `seq`: in the last block if that has
    /// room, else in the oldest free block.
    pub open spec fn appended(self, seq: u64) -> CacheState {
        let t = self.tables[seq];
        let len = (t.num_tokens + 1) as usize;
        if self.needs_block(seq) {
            CacheState {
                tables: self.tables.insert(
                    seq,
                    TableState { blocks: t.blocks.push(self.pool.free[0]), num_tokens: len },
                ),
                ..self.recycle((len - t.blocks.len() * self.unit()) as usize)
            }
        } else {
            CacheState {
                tables: self.tables.insert(seq, TableState { num_tokens: len, ..t }),
                pool: self.pool.with_contents(
                    t.blocks.last(),
                    (len - (t.blocks.len() - 1) * self.unit()) as usize,
                    None,
                ),
                ..self
            }
        }
    }

    // ----- releasing ------------------------------------------------------------
    /// The pool after one reference to each of the first `k` blocks was
    /// dropped.
    pub open spec fn pool_releasing(self, blocks: Seq<BlockId>, k: int) -> PoolState
        decreases k,
    {
        if k <= 0 {
            self.pool
        } else {
            self.pool_releasing(blocks, k - 1).released(blocks[k - 1])
        }
    }

    /// The cache after every block of `seq` was released.
    pub open spec fn freed(self, seq: u64) -> CacheState {
        if self.tables.contains_key(seq) {
            let blocks = self.tables[seq].blocks;
            CacheState {
                pool: self.pool_releasing(blocks, blocks.len() as int),
                tables: self.tables.remove(seq),
                ..self
            }
        } else {
            self
        }
    }

    // ----- evicting -------------------------------------------------------------
    /// The oldest free block that still carries cached contents.
    pub open spec fn eviction_victim(self) -> BlockId {
        self.pool.free[choose|k: int| self.pool.oldest_cached_at(k)]
    }

    /// The cache after the contents of that block were forgotten.
    pub open spec fn evict_one(self) -> CacheState {
        let id = self.eviction_victim();
        CacheState {
            pool: self.pool.with_contents(id, 0, None),
            index: self.index.withdrawn(self.pool.block(id).hash->0, id),
            ..self
        }
    }

    /// The cache after `n` evictions.
    pub open spec fn evicted(self, n: int) -> CacheState
        decreases n,
    {
        if n <= 0 {
            self
        } else {
            self.evicted(n - 1).evict_one()
        }
    }

    /// The cache after everything in the index, and the contents of every free
    /// block, were forgotten.
    pub open spec fn cleared(self) -> CacheState {
        let evicted = self.evicted(self.pool.evictable().len() as int);
        CacheState { index: IndexState { entries: Map::empty(), ..evicted.index }, ..evicted }
    }
}

// ----- the index stays finite -----------------------------------------------------

proof fn lemma_lookups_keep_finite(s: CacheState, k: int)
    ensures
        s.index_after_hits(k).entries == s.index.entries,
    decreases k,
{
    if k > 0 {
        lemma_lookups_keep_finite(s, k - 1);
    }
}

proof fn lemma_recycling_keeps_finite(s: CacheState, prompt: Seq<TokenId>, from: int, to: int)
    requires
        s.index.entries.dom().finite(),
    ensures
        s.recycling(prompt, from, to).index.entries.dom().finite(),
    decreases to - from,
{
    if to > from {
        lemma_recycling_keeps_finite(s, prompt, from, to - 1);
    }
}

/// Admitting a prompt keeps the index finite.
pub proof fn lemma_admission_keeps_finite(s: CacheState, seq: u64, prompt: Seq<TokenId>)
    requires
        s.index.entries.dom().finite(),
    ensures
        s.admitted(seq, prompt).index.entries.dom().finite(),
{
    lemma_lookups_keep_finite(s, s.reused_blocks(prompt));
    lemma_recycling_keeps_finite(
        s.adopting(prompt),
        prompt,
        s.reused_blocks(prompt),
        s.blocks_of(prompt),
    );
}

/// Publishing a prompt's blocks keeps the index finite.
pub proof fn lemma_publishing_keeps_finite(s: CacheState, seq: u64, prompt: Seq<TokenId>, k: int)
    requires
        s.index.entries.dom().finite(),
    ensures
        s.publishing(seq, prompt, k).index.entries.dom().finite(),
    decreases k,
{
    if k > 0 {
        lemma_publishing_keeps_finite(s, seq, prompt, k - 1);
    }
}

// ----- counting references ------------------------------------------------------

pub proof fn lemma_occurrences_push(blocks: Seq<BlockId>, last: BlockId, id: BlockId)
    ensures
        occurrences(blocks.push(last), id) == occurrences(blocks, id) + if last == id {
            1nat
        } else {
            0nat
        },
{
    assert(blocks.push(last).drop_last() =~= blocks);
}

pub proof fn lemma_occurrences_add(a: Seq<BlockId>, b: Seq<BlockId>, id: BlockId)
    ensures
        occurrences(a + b, id) == occurrences(a, id) + occurrences(b, id),
    decreases b.len(),
{
    if b.len() == 0 {
        assert(a + b =~= a);
    } else {
        assert((a + b).drop_last() =~= a + b.drop_last());
        lemma_occurrences_add(a, b.drop_last(), id);
    }
}

/// A block occurs in a sequence exactly if it occurs at least once.
pub proof fn lemma_occurrences_contains(blocks: Seq<BlockId>, id: BlockId)
    ensures
        blocks.contains(id) <==> occurrences(blocks, id) > 0,
    decreases blocks.len(),
{
    if blocks.len() > 0 {
        lemma_occurrences_contains(blocks.drop_last(), id);
        if blocks.contains(id) {
            let i = blocks.index_of(id);
            if i < blocks.len() - 1 {
                assert(blocks.drop_last()[i] == id);
            }
        }
        if blocks.drop_last().contains(id) {
            let i = blocks.drop_last().index_of(id);
            assert(blocks[i] == id);
        }
        if blocks.last() == id {
            assert(blocks[blocks.len() - 1] == id);
        }
    }
}

/// The references of a table are part of all references.
pub proof fn lemma_references_remove(tables: Map<u64, TableState>, seq: u64, id: BlockId)
    requires
        tables.dom().finite(),
        tables.contains_key(seq),
    ensures
        references(tables, id) == references(tables.remove(seq), id) + occurrences(
            tables[seq].blocks,
            id,
        ),
    decreases tables.dom().len(),
{
    let c = tables.dom().choose();
    assert(tables.dom().contains(seq));
    assert(tables.dom().len() > 0) by {
        assert(tables.dom().remove(seq).len() + 1 == tables.dom().len());
    }
    assert(tables.dom().contains(c));
    if c != seq {
        assert(tables.remove(c).dom() =~= tables.dom().remove(c));
        assert(tables.remove(seq).dom() =~= tables.dom().remove(seq));
        lemma_references_remove(tables.remove(c), seq, id);
        lemma_references_remove(tables.remove(seq), c, id);
        assert(tables.remove(c).remove(seq) =~= tables.remove(seq).remove(c));
    }
}

/// A new table adds its references.
pub proof fn lemma_references_insert(
    tables: Map<u64, TableState>,
    seq: u64,
    t: TableState,
    id: BlockId,
)
    requires
        tables.dom().finite(),
        !tables.contains_key(seq),
    ensures
        references(tables.insert(seq, t), id) == references(tables, id) + occurrences(
            t.blocks,
            id,
        ),
{
    let more = tables.insert(seq, t);
    lemma_references_remove(more, seq, id);
    assert(more.remove(seq) =~= tables);
}

/// Replacing a table replaces its references.
pub proof fn lemma_references_replace(
    tables: Map<u64, TableState>,
    seq: u64,
    t: TableState,
    id: BlockId,
)
    requires
        tables.dom().finite(),
        tables.contains_key(seq),
    ensures
        references(tables.insert(seq, t), id) + occurrences(tables[seq].blocks, id) == references(
            tables,
            id,
        ) + occurrences(t.blocks, id),
{
    let other = tables.insert(seq, t);
    lemma_references_remove(tables, seq, id);
    lemma_references_remove(other, seq, id);
    assert(other.remove(seq) =~= tables.remove(seq));
}

/// A block that a table names is referenced.
pub proof fn lemma_table_blocks_are_referenced(s: CacheState, seq: u64, i: int)
    requires
        s.wf(),
        s.tables.contains_key(seq),
        0 <= i < s.tables[seq].blocks.len(),
    ensures
        s.pool.knows(s.tables[seq].blocks[i]),
        s.pool.block(s.tables[seq].blocks[i]).ref_count > 0,
{
    let id = s.tables[seq].blocks[i];
    assert(s.table_wf(s.tables[seq]));
    assert(s.pool.knows(id));
    lemma_references_remove(s.tables, seq, id);
    assert(s.tables[seq].blocks.contains(id));
    lemma_occurrences_contains(s.tables[seq].blocks, id);
}

} // verus!
