//! What the scheduler asks of a KV cache.

use crate::error::EngineError;
use crate::id::{sequence_text, SequenceId, TokenId};
use crate::kv_cache::manager::KvCacheManager;
use crate::kv_cache::model::CacheState;
use crate::kv_cache::table::blocks_for;
use vstd::prelude::*;

verus! {

/// A KV cache as the scheduler sees it: it answers whether a prompt fits,
/// gives and takes blocks, and never shows them.
///
/// The specification functions say what each operation makes of the cache's
/// model, so that a scheduling step is a function of the state before it.
pub trait KvCacheManagerLike: Sized {
    /// What the cache is, mathematically.
    type Model;

    spec fn model(&self) -> Self::Model;

    /// Whether the model is one that the operations produce.
    spec fn valid(m: Self::Model) -> bool;

    /// Blocks that `num_tokens` tokens need.
    spec fn needs(m: Self::Model, num_tokens: int) -> int;

    /// Blocks the cache has in all.
    spec fn capacity(m: Self::Model) -> int;

    /// Blocks that are free.
    spec fn available(m: Self::Model) -> int;

    /// Whether `seq` can be given blocks for `prompt` now.
    spec fn allocates(m: Self::Model, seq: u64, prompt: Seq<TokenId>) -> bool;

    /// The cache after an attempt to do so.
    spec fn after_allocate(m: Self::Model, seq: u64, prompt: Seq<TokenId>) -> Self::Model;

    /// Whether `e` is how a refused attempt is reported.
    spec fn allocate_error(
        m: Self::Model,
        seq: u64,
        prompt: Seq<TokenId>,
        e: EngineError,
    ) -> bool;

    /// Whether `seq` can be given room for one more token now.
    spec fn appends(m: Self::Model, seq: u64) -> bool;

    /// The cache after an attempt to do so.
    spec fn after_append(m: Self::Model, seq: u64) -> Self::Model;

    /// Whether `e` is how a refused attempt is reported.
    spec fn append_error(m: Self::Model, seq: u64, e: EngineError) -> bool;

    /// The cache after `seq` gave back its blocks.
    spec fn after_free(m: Self::Model, seq: u64) -> Self::Model;

    /// The cache after `seq`'s computed prompt was published.
    spec fn after_commit(m: Self::Model, seq: u64, prompt: Seq<TokenId>) -> Self::Model;

    /// Blocks needed for a prompt of `num_tokens`, ignoring cache reuse.
    fn blocks_needed_for(&self, num_tokens: usize) -> (r: usize)
        requires
            Self::valid(self.model()),
        ensures
            r == Self::needs(self.model(), num_tokens as int),
    ;

    fn total_blocks(&self) -> (r: usize)
        ensures
            r == Self::capacity(self.model()),
    ;

    fn free_blocks(&self) -> (r: usize)
        requires
            Self::valid(self.model()),
        ensures
            r == Self::available(self.model()),
    ;

    /// Whether `num_tokens` could be admitted right now.
    fn can_allocate(&self, num_tokens: usize) -> (r: bool)
        requires
            Self::valid(self.model()),
        ensures
            r == (Self::needs(self.model(), num_tokens as int) <= Self::available(self.model())),
    ;

    /// Gives a sequence blocks for its prompt.
    fn allocate(&mut self, seq: SequenceId, prompt: &[TokenId]) -> (r: Result<(), EngineError>)
        requires
            Self::valid(old(self).model()),
        ensures
            Self::valid(final(self).model()),
            final(self).model() == Self::after_allocate(old(self).model(), seq@, prompt@),
            match r {
                Ok(()) => Self::allocates(old(self).model(), seq@, prompt@),
                Err(e) => {
                    &&& !Self::allocates(old(self).model(), seq@, prompt@)
                    &&& Self::allocate_error(old(self).model(), seq@, prompt@, e)
                },
            },
    ;

    /// Gives a sequence room for one more token.
    fn append_token(&mut self, seq: SequenceId) -> (r: Result<(), EngineError>)
        requires
            Self::valid(old(self).model()),
        ensures
            Self::valid(final(self).model()),
            final(self).model() == Self::after_append(old(self).model(), seq@),
            match r {
                Ok(()) => Self::appends(old(self).model(), seq@),
                Err(e) => {
                    &&& !Self::appends(old(self).model(), seq@)
                    &&& Self::append_error(old(self).model(), seq@, e)
                },
            },
    ;

    /// Takes back a sequence's blocks; nothing happens where it has none.
    fn free(&mut self, seq: SequenceId)
        requires
            Self::valid(old(self).model()),
        ensures
            Self::valid(final(self).model()),
            final(self).model() == Self::after_free(old(self).model(), seq@),
    ;

    /// Publishes a sequence's computed prompt for reuse.
    fn commit_prefill(&mut self, seq: SequenceId, prompt: &[TokenId])
        requires
            Self::valid(old(self).model()),
        ensures
            Self::valid(final(self).model()),
            final(self).model() == Self::after_commit(old(self).model(), seq@, prompt@),
    ;
}

impl KvCacheManagerLike for KvCacheManager {
    type Model = CacheState;

    open spec fn model(&self) -> CacheState {
        self@
    }

    open spec fn valid(m: CacheState) -> bool {
        m.wf()
    }

    open spec fn needs(m: CacheState, num_tokens: int) -> int {
        blocks_for(num_tokens, m.unit())
    }

    open spec fn capacity(m: CacheState) -> int {
        m.pool.blocks.len() as int
    }

    open spec fn available(m: CacheState) -> int {
        m.pool.free.len() as int
    }

    open spec fn allocates(m: CacheState, seq: u64, prompt: Seq<TokenId>) -> bool {
        !m.tables.contains_key(seq) && m.blocks_of(prompt) <= m.pool.free.len()
    }

    open spec fn after_allocate(m: CacheState, seq: u64, prompt: Seq<TokenId>) -> CacheState {
        if Self::allocates(m, seq, prompt) {
            m.admitted(seq, prompt)
        } else {
            m
        }
    }

    open spec fn allocate_error(
        m: CacheState,
        seq: u64,
        prompt: Seq<TokenId>,
        e: EngineError,
    ) -> bool {
        if m.tables.contains_key(seq) {
            e.is_internal(sequence_text(seq) + " already has a block table"@)
        } else {
            e == (EngineError::CacheExhausted {
                needed: m.blocks_of(prompt) as usize,
                available: m.pool.free.len() as usize,
            })
        }
    }

    open spec fn appends(m: CacheState, seq: u64) -> bool {
        m.can_append(seq)
    }

    open spec fn after_append(m: CacheState, seq: u64) -> CacheState {
        if m.can_append(seq) {
            m.appended(seq)
        } else {
            m
        }
    }

    open spec fn append_error(m: CacheState, seq: u64, e: EngineError) -> bool {
        if !m.tables.contains_key(seq) {
            e.is_internal(sequence_text(seq) + " has no block table"@)
        } else if m.tables[seq].num_tokens == usize::MAX {
            e.is_internal(sequence_text(seq) + " cannot count another token"@)
        } else {
            e == (EngineError::CacheExhausted { needed: 1, available: 0 })
        }
    }

    open spec fn after_free(m: CacheState, seq: u64) -> CacheState {
        m.freed(seq)
    }

    open spec fn after_commit(m: CacheState, seq: u64, prompt: Seq<TokenId>) -> CacheState {
        m.committed(seq, prompt)
    }

    fn blocks_needed_for(&self, num_tokens: usize) -> (r: usize) {
        KvCacheManager::blocks_needed_for(self, num_tokens)
    }

    fn total_blocks(&self) -> (r: usize) {
        KvCacheManager::total_blocks(self)
    }

    fn free_blocks(&self) -> (r: usize) {
        KvCacheManager::free_blocks(self)
    }

    fn can_allocate(&self, num_tokens: usize) -> (r: bool) {
        KvCacheManager::can_allocate(self, num_tokens)
    }

    fn allocate(&mut self, seq: SequenceId, prompt: &[TokenId]) -> (r: Result<(), EngineError>) {
        match KvCacheManager::allocate(self, seq, prompt) {
            Ok(_) => Ok(()),
            Err(e) => Err(e),
        }
    }

    fn append_token(&mut self, seq: SequenceId) -> (r: Result<(), EngineError>) {
        KvCacheManager::append_token(self, seq)
    }

    fn free(&mut self, seq: SequenceId) {
        KvCacheManager::free(self, seq)
    }

    fn commit_prefill(&mut self, seq: SequenceId, prompt: &[TokenId]) {
        KvCacheManager::commit_prefill(self, seq, prompt)
    }
}

/// What the scheduler is told of the cache: how many blocks tokens take, that a
/// prompt fits where as many are free and the sequence has none, and that the
/// operations are those of the cache, of the same sequence and tokens.
pub proof fn law_the_scheduler_sees_the_cache(m: CacheState, seq: u64, prompt: Seq<TokenId>)
    requires
        m.wf(),
    ensures
        KvCacheManager::needs(m, prompt.len() as int) * m.unit() >= prompt.len(),
        (KvCacheManager::needs(m, prompt.len() as int) - 1) * m.unit() < prompt.len(),
        KvCacheManager::capacity(m) == m.pool.blocks.len(),
        KvCacheManager::available(m) == m.pool.free.len(),
        KvCacheManager::allocates(m, seq, prompt) <==> !m.tables.contains_key(seq)
            && KvCacheManager::needs(m, prompt.len() as int) <= m.pool.free.len(),
        KvCacheManager::allocates(m, seq, prompt) ==> KvCacheManager::after_allocate(
            m,
            seq,
            prompt,
        ) == m.admitted(seq, prompt),
        !KvCacheManager::allocates(m, seq, prompt) ==> KvCacheManager::after_allocate(
            m,
            seq,
            prompt,
        ) == m,
        KvCacheManager::appends(m, seq) ==> m.tables.contains_key(seq),
        KvCacheManager::appends(m, seq) ==> KvCacheManager::after_append(m, seq).tables[seq].num_tokens
            == m.tables[seq].num_tokens + 1,
        !KvCacheManager::appends(m, seq) ==> KvCacheManager::after_append(m, seq) == m,
        !KvCacheManager::after_free(m, seq).tables.contains_key(seq),
        KvCacheManager::after_commit(m, seq, prompt) == m.committed(seq, prompt),
{
    let n = prompt.len() as int;
    let u = m.unit();
    crate::kv_cache::table::law_blocks_for_is_least(n, u);
    let b = blocks_for(n, u);
    assert((b - 1) * u == b * u - u) by (nonlinear_arith);
}

/// A refusal for want of blocks names how many blocks hold the prompt and how many
/// are free, and the first of the two is the larger; growth that finds no block needs
/// one where none is free.
pub proof fn law_refusals_count_the_blocks(
    m: CacheState,
    seq: u64,
    prompt: Seq<TokenId>,
    needed: usize,
    available: usize,
)
    requires
        m.wf(),
    ensures
        ({
            let e = EngineError::CacheExhausted { needed, available };
            &&& KvCacheManager::allocate_error(m, seq, prompt, e) ==> !m.tables.contains_key(seq)
            &&& KvCacheManager::allocate_error(m, seq, prompt, e) && prompt.len() <= usize::MAX
                && !KvCacheManager::allocates(m, seq, prompt) ==> {
                &&& needed * m.unit() >= prompt.len()
                &&& (needed - 1) * m.unit() < prompt.len()
                &&& available == m.pool.free.len()
                &&& needed > available
            }
            &&& KvCacheManager::append_error(m, seq, e) ==> {
                &&& m.tables.contains_key(seq)
                &&& needed == 1
                &&& available == 0
            }
        }),
{
    let e = EngineError::CacheExhausted { needed, available };
    let n = prompt.len() as int;
    let u = m.unit();
    law_the_scheduler_sees_the_cache(m, seq, prompt);
    if n <= usize::MAX {
        let b = blocks_for(n, u);
        assert(b <= n) by {
            if b > n {
                assert((b - 1) * u >= n) by (nonlinear_arith)
                    requires
                        b - 1 >= n,
                        u >= 1,
                        n >= 0,
                ;
            }
        }
    }
}

} // verus!
