//! Physical blocks and the free pool that hands them out.
//!
//! A block is a fixed-size slice of the KV cache arena holding `block_size`
//! tokens' worth of keys and values for every layer. Blocks are addressed by
//! [`BlockId`] and are never moved, so a sequence's block table stays valid for
//! as long as it holds references.

use crate::error::EngineError;
use crate::id::{block_text, BlockId};
use crate::ratio::Ratio;
use crate::text::{decimal, join2, join3, push_count};
use std::collections::VecDeque;
use vstd::prelude::*;
use vstd::string::*;

verus! {

/// Content hash of a block's tokens, used to find shareable prefixes.
///
/// The hash chains the previous block's hash into the current one, so it
/// stands for the whole token history up to and including the block.
#[derive(Debug, Clone, Copy, PartialEq, Eq, Hash, PartialOrd, Ord, Structural)]
pub struct BlockHash(pub u64);

/// What is known of one physical block.
pub ghost struct BlockState {
    pub id: BlockId,
    pub ref_count: u32,
    pub num_tokens: usize,
    pub hash: Option<BlockHash>,
}

/// State of one physical block.
#[derive(Debug, Clone, Copy)]
pub struct Block {
    id: BlockId,
    /// Number of references from block tables. A block is reclaimable exactly
    /// when this reaches zero.
    ref_count: u32,
    /// Tokens actually written, `0..=block_size`.
    num_tokens: usize,
    /// Content hash, present only once the block is full and hashed.
    hash: Option<BlockHash>,
}

impl View for Block {
    type V = BlockState;

    closed spec fn view(&self) -> BlockState {
        BlockState {
            id: self.id,
            ref_count: self.ref_count,
            num_tokens: self.num_tokens,
            hash: self.hash,
        }
    }
}

impl BlockState {
    /// A block that nothing references and that holds nothing.
    pub open spec fn blank(id: BlockId) -> BlockState {
        BlockState { id, ref_count: 0, num_tokens: 0, hash: None }
    }
}

impl Block {
    fn new(id: BlockId) -> (r: Self)
        ensures
            r@ == BlockState::blank(id),
    {
        Block { id, ref_count: 0, num_tokens: 0, hash: None }
    }

    pub fn id(&self) -> (r: BlockId)
        ensures
            r == self@.id,
    {
        self.id
    }

    pub fn ref_count(&self) -> (r: u32)
        ensures
            r == self@.ref_count,
    {
        self.ref_count
    }

    pub fn num_tokens(&self) -> (r: usize)
        ensures
            r == self@.num_tokens,
    {
        self.num_tokens
    }

    pub fn hash(&self) -> (r: Option<BlockHash>)
        ensures
            r == self@.hash,
    {
        self.hash
    }

    /// Whether nothing references this block.
    pub fn is_free(&self) -> (r: bool)
        ensures
            r == (self@.ref_count == 0),
    {
        self.ref_count == 0
    }

    /// Whether the block may be shared with another sequence: it must be full
    /// and hashed, so its contents can never change again.
    pub fn is_shareable(&self, block_size: usize) -> (r: bool)
        ensures
            r == (self@.hash is Some && self@.num_tokens == block_size),
    {
        self.hash.is_some() && self.num_tokens == block_size
    }
}

/// Owns every physical block and tracks which are free.
///
/// Freed blocks go to the back of a FIFO queue rather than being reused
/// immediately. A block whose reference count drops to zero keeps its contents
/// and its hash, so a later request with the same prefix can still reclaim it
/// by hash. Only when the pool is under pressure does the oldest such block
/// get recycled.
#[derive(Debug)]
pub struct BlockPool {
    blocks: Vec<Block>,
    /// Ids with `ref_count == 0`, oldest first. Also the eviction order.
    free_list: VecDeque<BlockId>,
    block_size: usize,
}

/// What a pool holds: every block, the free ones from the oldest on, and the
/// capacity of a block in tokens.
pub ghost struct PoolState {
    pub blocks: Seq<BlockState>,
    pub free: Seq<BlockId>,
    pub block_size: usize,
}

impl View for BlockPool {
    type V = PoolState;

    closed spec fn view(&self) -> PoolState {
        PoolState {
            blocks: self.blocks@.map_values(|b: Block| b@),
            free: self.free_list@,
            block_size: self.block_size,
        }
    }
}

impl PoolState {
    /// The pool's invariant: blocks are numbered by position, none holds more
    /// than its capacity, and the free list names every block without
    /// references exactly once.
    pub open spec fn wf(self) -> bool {
        &&& self.blocks.len() <= u32::MAX as nat + 1
        &&& self.free.no_duplicates()
        &&& forall|i: int|
            0 <= i < self.blocks.len() ==> {
                &&& (#[trigger] self.blocks[i]).id == BlockId(i as u32)
                &&& self.blocks[i].num_tokens <= self.block_size
                &&& self.blocks[i].ref_count == 0 ==> self.free.contains(BlockId(i as u32))
            }
        &&& forall|k: int|
            0 <= k < self.free.len() ==> self.knows(#[trigger] self.free[k]) && self.block(
                self.free[k],
            ).ref_count == 0
    }

    /// A pool of `num_blocks` blank blocks, all free in order.
    pub open spec fn initial(num_blocks: usize, block_size: usize) -> PoolState {
        PoolState {
            blocks: Seq::new(num_blocks as nat, |i: int| BlockState::blank(BlockId(i as u32))),
            free: Seq::new(num_blocks as nat, |i: int| BlockId(i as u32)),
            block_size,
        }
    }

    pub open spec fn knows(self, id: BlockId) -> bool {
        (id.0 as int) < self.blocks.len()
    }

    pub open spec fn block(self, id: BlockId) -> BlockState {
        self.blocks[id.0 as int]
    }

    pub open spec fn with_block(self, id: BlockId, b: BlockState) -> PoolState {
        PoolState { blocks: self.blocks.update(id.0 as int, b), ..self }
    }

    /// The pool with `id` taken off the free list.
    pub open spec fn without_free(self, id: BlockId) -> PoolState {
        PoolState { free: self.free.remove(self.free.index_of(id)), ..self }
    }

    /// The pool after its oldest free block was handed out, blank but for one
    /// reference.
    pub open spec fn take_oldest(self) -> PoolState {
        let id = self.free[0];
        PoolState { free: self.free.drop_first(), ..self }.with_block(
            id,
            BlockState { ref_count: 1, ..BlockState::blank(id) },
        )
    }

    /// The pool after one more reference to `id`: its contents stay, and it is
    /// not free any more.
    pub open spec fn referenced(self, id: BlockId) -> PoolState {
        let b = self.block(id);
        let base = if b.ref_count == 0 {
            self.without_free(id)
        } else {
            self
        };
        base.with_block(id, BlockState { ref_count: (b.ref_count + 1) as u32, ..b })
    }

    /// The pool after one reference less to `id`: its contents stay, and with
    /// its last reference it becomes the youngest free block.
    pub open spec fn released(self, id: BlockId) -> PoolState {
        let b = self.block(id);
        let base = if b.ref_count == 1 {
            PoolState { free: self.free.push(id), ..self }
        } else {
            self
        };
        base.with_block(id, BlockState { ref_count: (b.ref_count - 1) as u32, ..b })
    }

    /// The pool after `id` was recorded to hold `num_tokens` under `hash`.
    pub open spec fn with_contents(
        self,
        id: BlockId,
        num_tokens: usize,
        hash: Option<BlockHash>,
    ) -> PoolState {
        self.with_block(id, BlockState { num_tokens, hash, ..self.block(id) })
    }

    /// Whether the free block at position `k` of the free list still carries
    /// cached contents.
    pub open spec fn cached_at(self, k: int) -> bool {
        self.block(self.free[k]).hash is Some
    }

    /// Whether the oldest free block with cached contents stands at position
    /// `k` of the free list.
    pub open spec fn oldest_cached_at(self, k: int) -> bool {
        &&& 0 <= k < self.free.len()
        &&& self.cached_at(k)
        &&& forall|j: int| 0 <= j < k ==> !#[trigger] self.cached_at(j)
    }

    /// The free blocks that still carry cached contents, oldest first.
    pub open spec fn evictable(self) -> Seq<BlockId> {
        self.free.filter(|id: BlockId| self.block(id).hash is Some)
    }
}

impl BlockPool {
    pub open spec fn wf(&self) -> bool {
        self@.wf()
    }

    /// Creates a pool of `num_blocks` blocks, each holding `block_size` tokens.
    pub fn new(num_blocks: usize, block_size: usize) -> (r: Self)
        requires
            num_blocks <= u32::MAX as nat + 1,
        ensures
            r@ == PoolState::initial(num_blocks, block_size),
            r.wf(),
    {
        let mut blocks: Vec<Block> = Vec::new();
        let mut free_list: VecDeque<BlockId> = VecDeque::new();
        let mut i: usize = 0;
        while i < num_blocks
            invariant
                i <= num_blocks,
                num_blocks <= u32::MAX as nat + 1,
                blocks@.len() == i,
                free_list@.len() == i,
                forall|k: int|
                    0 <= k < i ==> (#[trigger] blocks@[k])@ == BlockState::blank(BlockId(k as u32)),
                forall|k: int| 0 <= k < i ==> #[trigger] free_list@[k] == BlockId(k as u32),
            decreases num_blocks - i,
        {
            blocks.push(Block::new(BlockId(i as u32)));
            free_list.push_back(BlockId(i as u32));
            i += 1;
        }
        let r = BlockPool { blocks, free_list, block_size };
        proof {
            assert(r@.blocks =~= PoolState::initial(num_blocks, block_size).blocks);
            assert(r@.free =~= PoolState::initial(num_blocks, block_size).free);
            assert forall|j: int| 0 <= j < r@.blocks.len() implies #[trigger] r@.free.contains(
                BlockId(j as u32),
            ) by {
                assert(r@.free[j] == BlockId(j as u32));
            }
        }
        r
    }

    pub fn block_size(&self) -> (r: usize)
        ensures
            r == self@.block_size,
    {
        self.block_size
    }

    pub fn total_blocks(&self) -> (r: usize)
        ensures
            r == self@.blocks.len(),
    {
        self.blocks.len()
    }

    /// Blocks with no live references. Some may still hold reusable contents.
    pub fn num_free(&self) -> (r: usize)
        ensures
            r == self@.free.len(),
    {
        self.free_list.len()
    }

    pub fn num_used(&self) -> (r: usize)
        requires
            self.wf(),
        ensures
            r == self@.blocks.len() - self@.free.len(),
    {
        proof {
            lemma_free_within_total(self@);
        }
        self.blocks.len() - self.free_list.len()
    }

    /// The share of the pool currently referenced; zero for an empty pool.
    pub fn utilization(&self) -> (r: Ratio)
        requires
            self.wf(),
        ensures
            r == Ratio::spec_of(
                (self@.blocks.len() - self@.free.len()) as u64,
                self@.blocks.len() as u64,
            ),
    {
        Ratio::of(self.num_used() as u64, self.blocks.len() as u64)
    }

    pub fn get(&self, id: BlockId) -> (r: Option<&Block>)
        ensures
            match r {
                Some(b) => self@.knows(id) && b@ == self@.block(id),
                None => !self@.knows(id),
            },
    {
        if id.index() < self.blocks.len() {
            Some(&self.blocks[id.index()])
        } else {
            None
        }
    }

    /// Allocates a fresh block with one reference and no contents.
    ///
    /// Takes the oldest free block. Returns it together with the content hash
    /// it used to hold, if any: the caller must drop that hash from any index
    /// pointing at this block, because the contents are gone.
    pub fn allocate(&mut self) -> (r: Result<(BlockId, Option<BlockHash>), EngineError>)
        requires
            old(self).wf(),
        ensures
            final(self).wf(),
            match r {
                Ok((id, evicted)) => {
                    &&& old(self)@.free.len() > 0
                    &&& id == old(self)@.free[0]
                    &&& evicted == old(self)@.block(id).hash
                    &&& final(self)@ == old(self)@.take_oldest()
                },
                Err(e) => {
                    &&& old(self)@.free.len() == 0
                    &&& e == (EngineError::CacheExhausted { needed: 1, available: 0 })
                    &&& final(self)@ == old(self)@
                },
            },
    {
        let ghost before = self@;
        match self.free_list.pop_front() {
            None => Err(EngineError::CacheExhausted { needed: 1, available: 0 }),
            Some(id) => {
                proof {
                    assert(before.free[0] == id);
                }
                let evicted = self.blocks[id.index()].hash;
                self.blocks.set(
                    id.index(),
                    Block { id, ref_count: 1, num_tokens: 0, hash: None },
                );
                proof {
                    assert(self@.blocks =~= before.take_oldest().blocks);
                    assert(self@.free =~= before.take_oldest().free);
                    lemma_take_oldest_wf(before);
                }
                Ok((id, evicted))
            },
        }
    }

    /// Takes an additional reference to an already-live or cached block.
    ///
    /// Reviving a block that was sitting free takes it off the free list but
    /// keeps its contents, which is exactly the prefix-cache hit path.
    pub fn add_ref(&mut self, id: BlockId) -> (r: Result<(), EngineError>)
        requires
            old(self).wf(),
            old(self)@.knows(id) ==> old(self)@.block(id).ref_count < u32::MAX,
        ensures
            final(self).wf(),
            match r {
                Ok(()) => old(self)@.knows(id) && final(self)@ == old(self)@.referenced(id),
                Err(e) => {
                    &&& !old(self)@.knows(id)
                    &&& e.is_internal("add_ref on unknown block "@ + block_text(id))
                    &&& final(self)@ == old(self)@
                },
            },
    {
        let ghost before = self@;
        let i: usize = id.index();
        if i >= self.blocks.len() {
            return Err(
                EngineError::Internal(
                    join2("add_ref on unknown block ", id.to_text().as_str()),
                ),
            );
        }
        proof {
            assert(before.blocks[i as int].id == id);
        }
        let block = self.blocks[i];
        if block.ref_count == 0 {
            remove_from_free_list(&mut self.free_list, id);
        }
        self.blocks.set(i, Block { ref_count: block.ref_count + 1, ..block });
        proof {
            assert(self@.blocks =~= before.referenced(id).blocks);
            assert(self@.free =~= before.referenced(id).free);
            lemma_referenced_wf(before, id);
        }
        Ok(())
    }

    /// Drops one reference. Returns `true` if the block became free.
    ///
    /// A freed block keeps its contents and hash so the prefix cache can still
    /// reclaim it; it is only cleared if and when it is reallocated.
    pub fn release(&mut self, id: BlockId) -> (r: Result<bool, EngineError>)
        requires
            old(self).wf(),
        ensures
            final(self).wf(),
            match r {
                Ok(became_free) => {
                    &&& old(self)@.knows(id)
                    &&& old(self)@.block(id).ref_count > 0
                    &&& became_free == (old(self)@.block(id).ref_count == 1)
                    &&& final(self)@ == old(self)@.released(id)
                },
                Err(e) => {
                    &&& final(self)@ == old(self)@
                    &&& if old(self)@.knows(id) {
                        &&& old(self)@.block(id).ref_count == 0
                        &&& e.is_internal(
                            "double release of "@ + block_text(id) + ": ref_count is already 0"@,
                        )
                    } else {
                        e.is_internal("release of unknown block "@ + block_text(id))
                    }
                },
            },
    {
        let ghost before = self@;
        let i: usize = id.index();
        if i >= self.blocks.len() {
            return Err(
                EngineError::Internal(
                    join2("release of unknown block ", id.to_text().as_str()),
                ),
            );
        }
        proof {
            assert(before.blocks[i as int].id == id);
        }
        let block = self.blocks[i];
        if block.ref_count == 0 {
            return Err(
                EngineError::Internal(
                    join3(
                        "double release of ",
                        id.to_text().as_str(),
                        ": ref_count is already 0",
                    ),
                ),
            );
        }
        let became_free = block.ref_count == 1;
        self.blocks.set(i, Block { ref_count: block.ref_count - 1, ..block });
        if became_free {
            self.free_list.push_back(id);
        }
        proof {
            assert(self@.blocks =~= before.released(id).blocks);
            assert(self@.free =~= before.released(id).free);
            lemma_released_wf(before, id);
        }
        Ok(became_free)
    }

    /// Records how many tokens a block holds, and its hash once full.
    pub fn set_contents(
        &mut self,
        id: BlockId,
        num_tokens: usize,
        hash: Option<BlockHash>,
    ) -> (r: Result<(), EngineError>)
        requires
            old(self).wf(),
        ensures
            final(self).wf(),
            match r {
                Ok(()) => {
                    &&& num_tokens <= old(self)@.block_size
                    &&& old(self)@.knows(id)
                    &&& final(self)@ == old(self)@.with_contents(id, num_tokens, hash)
                },
                Err(e) => {
                    &&& final(self)@ == old(self)@
                    &&& if num_tokens > old(self)@.block_size {
                        e.is_internal(
                            "block "@ + block_text(id) + " cannot hold "@ + decimal(
                                num_tokens as nat,
                            ) + " tokens, capacity is "@ + decimal(old(self)@.block_size as nat),
                        )
                    } else {
                        &&& !old(self)@.knows(id)
                        &&& e.is_internal("set_contents on unknown block "@ + block_text(id))
                    }
                },
            },
    {
        let ghost before = self@;
        if num_tokens > self.block_size {
            let mut m = join3("block ", id.to_text().as_str(), " cannot hold ");
            push_count(&mut m, num_tokens);
            m.append(" tokens, capacity is ");
            push_count(&mut m, self.block_size);
            return Err(EngineError::Internal(m));
        }
        let i: usize = id.index();
        if i >= self.blocks.len() {
            return Err(
                EngineError::Internal(
                    join2("set_contents on unknown block ", id.to_text().as_str()),
                ),
            );
        }
        let block = self.blocks[i];
        self.blocks.set(i, Block { num_tokens, hash, ..block });
        proof {
            assert(self@.blocks =~= before.with_contents(id, num_tokens, hash).blocks);
            lemma_with_contents_wf(before, id, num_tokens, hash);
        }
        Ok(())
    }

    /// Forgets the contents of the oldest free block that still holds any.
    ///
    /// Returns the block and the hash it carried, so the prefix cache can drop
    /// the corresponding index entry. `None` when no free block holds cached
    /// contents. Free blocks with no contents are skipped: they are already
    /// reusable.
    pub fn evict_oldest_cached(&mut self) -> (r: Option<(BlockId, BlockHash)>)
        requires
            old(self).wf(),
        ensures
            final(self).wf(),
            match r {
                Some((id, hash)) => {
                    &&& exists|k: int| #[trigger]
                        old(self)@.oldest_cached_at(k) && old(self)@.free[k] == id
                    &&& old(self)@.block(id).hash == Some(hash)
                    &&& final(self)@ == old(self)@.with_contents(id, 0, None)
                },
                None => {
                    &&& forall|k: int|
                        0 <= k < old(self)@.free.len() ==> !#[trigger] old(self)@.cached_at(k)
                    &&& final(self)@ == old(self)@
                },
            },
    {
        let ghost before = self@;
        let mut k: usize = 0;
        while k < self.free_list.len()
            invariant
                k <= self.free_list@.len(),
                self@ == before,
                before == old(self)@,
                before.wf(),
                forall|j: int| 0 <= j < k ==> !#[trigger] before.cached_at(j),
            decreases self.free_list@.len() - k,
        {
            let id = self.free_list[k];
            proof {
                assert(id == before.free[k as int]);
            }
            let i: usize = id.index();
            let block = self.blocks[i];
            proof {
                assert(block@ == before.block(id));
            }
            match block.hash {
                Some(hash) => {
                    self.blocks.set(i, Block { num_tokens: 0, hash: None, ..block });
                    proof {
                        assert(before.cached_at(k as int));
                        assert(before.oldest_cached_at(k as int));
                        assert(old(self)@.oldest_cached_at(k as int) && old(self)@.free[k as int]
                            == id);
                        assert(self@.blocks =~= before.with_contents(id, 0, None).blocks);
                        lemma_with_contents_wf(before, id, 0, None);
                    }
                    return Some((id, hash));
                },
                None => {
                    proof {
                        assert(!before.cached_at(k as int));
                    }
                },
            }
            k += 1;
        }
        None
    }

    /// Number of free blocks still holding cached contents, and therefore
    /// still evictable.
    pub fn num_evictable(&self) -> (r: usize)
        requires
            self.wf(),
        ensures
            r == self@.evictable().len(),
    {
        let mut n: usize = 0;
        let mut k: usize = 0;
        let ghost pred = |id: BlockId| self@.block(id).hash is Some;
        proof {
            reveal(Seq::filter);
        }
        while k < self.free_list.len()
            invariant
                k <= self.free_list@.len(),
                self.wf(),
                pred == (|id: BlockId| self@.block(id).hash is Some),
                n == self@.free.take(k as int).filter(pred).len(),
                n <= k,
            decreases self.free_list@.len() - k,
        {
            let id = self.free_list[k];
            proof {
                reveal(Seq::filter);
                let now = self@.free.take(k + 1);
                assert(id == self@.free[k as int]);
                assert(now.drop_last() =~= self@.free.take(k as int));
                assert(now.last() == id);
                assert(self.blocks@[id.0 as int]@ == self@.block(id));
            }
            if self.blocks[id.index()].hash.is_some() {
                n += 1;
            }
            k += 1;
        }
        proof {
            assert(self@.free.take(self@.free.len() as int) =~= self@.free);
        }
        n
    }
}

/// Removes `id` from the free list.
///
/// Linear in the free-list length; called only on a prefix-cache hit.
fn remove_from_free_list(free_list: &mut VecDeque<BlockId>, id: BlockId)
    requires
        old(free_list)@.no_duplicates(),
        old(free_list)@.contains(id),
    ensures
        final(free_list)@ == old(free_list)@.remove(old(free_list)@.index_of(id)),
{
    let ghost at = free_list@.index_of(id);
    let mut k: usize = 0;
    while k < free_list.len()
        invariant
            k <= at < free_list@.len(),
            free_list@ == old(free_list)@,
            at == old(free_list)@.index_of(id),
            free_list@[at] == id,
            free_list@.no_duplicates(),
        decreases free_list@.len() - k,
    {
        if free_list[k] == id {
            assert(k == at);
            let _ = free_list.remove(k);
            return;
        }
        k += 1;
    }
}

/// No more blocks are free than there are.
pub proof fn lemma_free_within_total(p: PoolState)
    requires
        p.wf(),
    ensures
        p.free.len() <= p.blocks.len(),
{
    let s = p.free.map_values(|id: BlockId| id.0 as int);
    assert(s.no_duplicates()) by {
        assert forall|i: int, j: int| 0 <= i < s.len() && 0 <= j < s.len() && i != j implies s[i]
            != s[j] by {
            assert(p.free[i] != p.free[j]);
        }
    }
    s.unique_seq_to_set();
    let all = vstd::set_lib::set_int_range(0, p.blocks.len() as int);
    vstd::set_lib::lemma_int_range(0, p.blocks.len() as int);
    assert(s.to_set().subset_of(all)) by {
        assert forall|x: int| s.to_set().contains(x) implies all.contains(x) by {
            let i = choose|i: int| 0 <= i < s.len() && s[i] == x;
            assert(p.knows(p.free[i]));
        }
    }
    vstd::set_lib::lemma_len_subset(s.to_set(), all);
}

pub proof fn lemma_take_oldest_wf(p: PoolState)
    requires
        p.wf(),
        p.free.len() > 0,
    ensures
        p.take_oldest().wf(),
{
    let q = p.take_oldest();
    let id = p.free[0];
    assert(p.knows(id));
    assert(p.blocks[id.0 as int].id == id);
    assert forall|i: int| 0 <= i < q.blocks.len() implies {
        &&& (#[trigger] q.blocks[i]).id == BlockId(i as u32)
        &&& q.blocks[i].num_tokens <= q.block_size
        &&& q.blocks[i].ref_count == 0 ==> q.free.contains(BlockId(i as u32))
    } by {
        assert(p.blocks[i].id == BlockId(i as u32));
        if i != id.0 as int && p.blocks[i].ref_count == 0 {
            let k = p.free.index_of(BlockId(i as u32));
            assert(p.free[k] == BlockId(i as u32));
            assert(k != 0);
            assert(q.free[k - 1] == BlockId(i as u32));
        }
    }
    assert forall|k: int| 0 <= k < q.free.len() implies q.knows(#[trigger] q.free[k]) && q.block(
        q.free[k],
    ).ref_count == 0 by {
        assert(q.free[k] == p.free[k + 1]);
        assert(p.free[k + 1] != p.free[0]);
    }
}

pub proof fn lemma_referenced_wf(p: PoolState, id: BlockId)
    requires
        p.wf(),
        p.knows(id),
        p.block(id).ref_count < u32::MAX,
    ensures
        p.referenced(id).wf(),
{
    let q = p.referenced(id);
    let at = p.free.index_of(id);
    assert(p.blocks[id.0 as int].id == id);
    if p.block(id).ref_count == 0 {
        assert(p.free.contains(id));
        assert(p.free[at] == id);
        p.free.remove_ensures(at);
        assert(q.free == p.free.remove(at));
    }
    assert forall|i: int| 0 <= i < q.blocks.len() implies {
        &&& (#[trigger] q.blocks[i]).id == BlockId(i as u32)
        &&& q.blocks[i].num_tokens <= q.block_size
        &&& q.blocks[i].ref_count == 0 ==> q.free.contains(BlockId(i as u32))
    } by {
        assert(p.blocks[i].id == BlockId(i as u32));
        if i != id.0 as int && p.blocks[i].ref_count == 0 && p.block(id).ref_count == 0 {
            let k = p.free.index_of(BlockId(i as u32));
            assert(p.free[k] == BlockId(i as u32));
            assert(k != at);
            if k < at {
                assert(q.free[k] == BlockId(i as u32));
            } else {
                assert(q.free[k - 1] == BlockId(i as u32));
            }
        }
    }
    assert forall|k: int| 0 <= k < q.free.len() implies q.knows(#[trigger] q.free[k]) && q.block(
        q.free[k],
    ).ref_count == 0 by {
        if p.block(id).ref_count == 0 {
            let j = if k < at {
                k
            } else {
                k + 1
            };
            assert(q.free[k] == p.free[j]);
            assert(p.free[j] != id);
            assert(p.blocks[p.free[j].0 as int].id == p.free[j]);
        } else {
            assert(q.free[k] == p.free[k]);
        }
    }
}

pub proof fn lemma_released_wf(p: PoolState, id: BlockId)
    requires
        p.wf(),
        p.knows(id),
        p.block(id).ref_count > 0,
    ensures
        p.released(id).wf(),
{
    let q = p.released(id);
    assert(p.blocks[id.0 as int].id == id);
    assert(!p.free.contains(id)) by {
        if p.free.contains(id) {
            let k = p.free.index_of(id);
            assert(p.free[k] == id);
        }
    }
    assert forall|i: int| 0 <= i < q.blocks.len() implies {
        &&& (#[trigger] q.blocks[i]).id == BlockId(i as u32)
        &&& q.blocks[i].num_tokens <= q.block_size
        &&& q.blocks[i].ref_count == 0 ==> q.free.contains(BlockId(i as u32))
    } by {
        assert(p.blocks[i].id == BlockId(i as u32));
        if q.blocks[i].ref_count == 0 {
            if i == id.0 as int {
                assert(q.free[q.free.len() - 1] == id);
            } else {
                let k = p.free.index_of(BlockId(i as u32));
                assert(p.free[k] == BlockId(i as u32));
                assert(q.free[k] == BlockId(i as u32));
            }
        }
    }
    assert forall|k: int| 0 <= k < q.free.len() implies q.knows(#[trigger] q.free[k]) && q.block(
        q.free[k],
    ).ref_count == 0 by {
        if k < p.free.len() {
            assert(q.free[k] == p.free[k]);
            assert(p.free[k] != id);
        }
    }
}

pub proof fn lemma_with_contents_wf(
    p: PoolState,
    id: BlockId,
    num_tokens: usize,
    hash: Option<BlockHash>,
)
    requires
        p.wf(),
        p.knows(id),
        num_tokens <= p.block_size,
    ensures
        p.with_contents(id, num_tokens, hash).wf(),
{
    let q = p.with_contents(id, num_tokens, hash);
    assert forall|i: int| 0 <= i < q.blocks.len() implies {
        &&& (#[trigger] q.blocks[i]).id == BlockId(i as u32)
        &&& q.blocks[i].num_tokens <= q.block_size
        &&& q.blocks[i].ref_count == 0 ==> q.free.contains(BlockId(i as u32))
    } by {
        assert(p.blocks[i].id == BlockId(i as u32));
    }
    assert forall|k: int| 0 <= k < q.free.len() implies q.knows(#[trigger] q.free[k]) && q.block(
        q.free[k],
    ).ref_count == 0 by {
        assert(q.free[k] == p.free[k]);
    }
}

} // verus!
