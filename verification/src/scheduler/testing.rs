//! A cache for scheduler simulations.

use crate::error::EngineError;
use crate::id::{sequence_text, SequenceId, TokenId};
use crate::kv_cache::table::{blocks_for, BlockTable};
use crate::scheduler::cache::KvCacheManagerLike;
use crate::text::join2;
use std::collections::HashMap;
use vstd::prelude::*;

verus! {

broadcast use vstd::std_specs::hash::group_hash_axioms;

/// A cache that accounts blocks like the real one but can be told to fail on
/// demand. It makes the failure itself the input of a simulation.
#[derive(Debug)]
pub struct FakeCache {
    total: usize,
    block_size: usize,
    tables: HashMap<u64, usize>,
    used: usize,
    fail_next_append: bool,
    fail_next_allocate: bool,
    pub commits: Vec<SequenceId>,
}

/// What a [`FakeCache`] holds.
pub ghost struct FakeState {
    pub total: usize,
    pub block_size: usize,
    pub tables: Map<u64, usize>,
    pub used: usize,
    pub fail_append: bool,
    pub fail_allocate: bool,
    pub commits: Seq<SequenceId>,
}

/// The blocks of all tables together.
pub open spec fn blocks_in(tables: Map<u64, usize>) -> nat
    decreases tables.dom().len(),
{
    if tables.dom().finite() && tables.dom().len() > 0 {
        let seq = tables.dom().choose();
        tables[seq] as nat + blocks_in(tables.remove(seq))
    } else {
        0
    }
}

proof fn lemma_blocks_in_remove(tables: Map<u64, usize>, seq: u64)
    requires
        tables.dom().finite(),
        tables.contains_key(seq),
    ensures
        blocks_in(tables) == blocks_in(tables.remove(seq)) + tables[seq],
    decreases tables.dom().len(),
{
    let c = tables.dom().choose();
    assert(tables.dom().contains(seq));
    assert(tables.dom().remove(seq).len() + 1 == tables.dom().len());
    assert(tables.dom().contains(c));
    if c != seq {
        assert(tables.remove(c).dom() =~= tables.dom().remove(c));
        assert(tables.remove(seq).dom() =~= tables.dom().remove(seq));
        lemma_blocks_in_remove(tables.remove(c), seq);
        lemma_blocks_in_remove(tables.remove(seq), c);
        assert(tables.remove(c).remove(seq) =~= tables.remove(seq).remove(c));
    }
}

proof fn lemma_blocks_in_insert(tables: Map<u64, usize>, seq: u64, n: usize)
    requires
        tables.dom().finite(),
    ensures
        blocks_in(tables.insert(seq, n)) == n + blocks_in(tables.remove(seq)),
        blocks_in(tables.remove(seq)) <= blocks_in(tables),
        tables.contains_key(seq) ==> blocks_in(tables) == blocks_in(tables.remove(seq))
            + tables[seq],
{
    let more = tables.insert(seq, n);
    lemma_blocks_in_remove(more, seq);
    assert(more.remove(seq) =~= tables.remove(seq));
    if tables.contains_key(seq) {
        lemma_blocks_in_remove(tables, seq);
    } else {
        assert(tables.remove(seq) =~= tables);
    }
}

impl FakeState {
    pub open spec fn wf(self) -> bool {
        &&& self.block_size > 0
        &&& self.used <= self.total
        &&& self.tables.dom().finite()
        &&& blocks_in(self.tables) <= self.used
    }

    pub open spec fn needs(self, num_tokens: int) -> int {
        blocks_for(num_tokens, self.block_size as int)
    }

    pub open spec fn available(self) -> int {
        self.total - self.used
    }
}

impl View for FakeCache {
    type V = FakeState;

    closed spec fn view(&self) -> FakeState {
        FakeState {
            total: self.total,
            block_size: self.block_size,
            tables: self.tables@,
            used: self.used,
            fail_append: self.fail_next_append,
            fail_allocate: self.fail_next_allocate,
            commits: self.commits@,
        }
    }
}

impl FakeCache {
    pub fn new(total_blocks: usize, block_size: usize) -> (r: Self)
        requires
            block_size > 0,
        ensures
            r@.wf(),
            r@ == (FakeState {
                total: total_blocks,
                block_size,
                tables: Map::empty(),
                used: 0,
                fail_append: false,
                fail_allocate: false,
                commits: seq![],
            }),
    {
        let r = FakeCache {
            total: total_blocks,
            block_size,
            tables: HashMap::new(),
            used: 0,
            fail_next_append: false,
            fail_next_allocate: false,
            commits: Vec::new(),
        };
        proof {
            assert(r@.commits =~= seq![]);
        }
        r
    }

    /// Makes the next attempt to append a token fail with
    /// [`EngineError::CacheExhausted`].
    pub fn fail_next_append(&mut self)
        ensures
            final(self)@ == (FakeState { fail_append: true, ..old(self)@ }),
    {
        self.fail_next_append = true;
    }

    /// Makes the next attempt to allocate fail.
    pub fn fail_next_allocate(&mut self)
        ensures
            final(self)@ == (FakeState { fail_allocate: true, ..old(self)@ }),
    {
        self.fail_next_allocate = true;
    }

    /// Blocks currently held by a sequence.
    pub fn blocks_held(&self, seq: SequenceId) -> (r: usize)
        ensures
            r == if self@.tables.contains_key(seq@) {
                self@.tables[seq@]
            } else {
                0
            },
    {
        match self.tables.get(&seq.as_u64()) {
            Some(n) => *n,
            None => 0,
        }
    }

    /// Number of sequences holding blocks.
    pub fn num_sequences(&self) -> (r: usize)
        ensures
            r == self@.tables.len(),
    {
        self.tables.len()
    }
}

impl KvCacheManagerLike for FakeCache {
    type Model = FakeState;

    open spec fn model(&self) -> FakeState {
        self@
    }

    open spec fn valid(m: FakeState) -> bool {
        m.wf()
    }

    open spec fn needs(m: FakeState, num_tokens: int) -> int {
        m.needs(num_tokens)
    }

    open spec fn capacity(m: FakeState) -> int {
        m.total as int
    }

    open spec fn available(m: FakeState) -> int {
        m.available()
    }

    open spec fn allocates(m: FakeState, seq: u64, prompt: Seq<TokenId>) -> bool {
        !m.fail_allocate && m.needs(prompt.len() as int) <= m.available()
    }

    open spec fn after_allocate(m: FakeState, seq: u64, prompt: Seq<TokenId>) -> FakeState {
        let n = m.needs(prompt.len() as int);
        if Self::allocates(m, seq, prompt) {
            FakeState {
                used: (m.used + n) as usize,
                tables: m.tables.insert(seq, n as usize),
                ..m
            }
        } else {
            FakeState { fail_allocate: false, ..m }
        }
    }

    open spec fn allocate_error(
        m: FakeState,
        seq: u64,
        prompt: Seq<TokenId>,
        e: EngineError,
    ) -> bool {
        if m.fail_allocate {
            e == (EngineError::CacheExhausted { needed: 1, available: 0 })
        } else {
            e == (EngineError::CacheExhausted {
                needed: m.needs(prompt.len() as int) as usize,
                available: m.available() as usize,
            })
        }
    }

    open spec fn appends(m: FakeState, seq: u64) -> bool {
        !m.fail_append && m.tables.contains_key(seq) && m.available() > 0
    }

    open spec fn after_append(m: FakeState, seq: u64) -> FakeState {
        if Self::appends(m, seq) {
            FakeState {
                used: (m.used + 1) as usize,
                tables: m.tables.insert(seq, (m.tables[seq] + 1) as usize),
                ..m
            }
        } else {
            FakeState { fail_append: false, ..m }
        }
    }

    open spec fn append_error(m: FakeState, seq: u64, e: EngineError) -> bool {
        if !m.fail_append && !m.tables.contains_key(seq) {
            e.is_internal(sequence_text(seq) + " has no block table"@)
        } else {
            e == (EngineError::CacheExhausted { needed: 1, available: 0 })
        }
    }

    open spec fn after_free(m: FakeState, seq: u64) -> FakeState {
        if m.tables.contains_key(seq) {
            FakeState {
                used: (m.used - m.tables[seq]) as usize,
                tables: m.tables.remove(seq),
                ..m
            }
        } else {
            m
        }
    }

    open spec fn after_commit(m: FakeState, seq: u64, prompt: Seq<TokenId>) -> FakeState {
        FakeState { commits: m.commits.push(crate::id::sequence_id(seq)), ..m }
    }

    fn blocks_needed_for(&self, num_tokens: usize) -> (r: usize) {
        BlockTable::blocks_required(num_tokens, self.block_size)
    }

    fn total_blocks(&self) -> (r: usize) {
        self.total
    }

    fn free_blocks(&self) -> (r: usize) {
        self.total - self.used
    }

    fn can_allocate(&self, num_tokens: usize) -> (r: bool) {
        self.blocks_needed_for(num_tokens) <= self.free_blocks()
    }

    fn allocate(&mut self, seq: SequenceId, prompt: &[TokenId]) -> (r: Result<(), EngineError>) {
        if self.fail_next_allocate {
            self.fail_next_allocate = false;
            return Err(EngineError::CacheExhausted { needed: 1, available: 0 });
        }
        let needed: usize = self.blocks_needed_for(prompt.len());
        if needed > self.free_blocks() {
            return Err(EngineError::CacheExhausted { needed, available: self.free_blocks() });
        }
        proof {
            lemma_blocks_in_insert(self@.tables, seq@, needed);
            crate::kv_cache::table::law_blocks_for_is_least(
                prompt@.len() as int,
                self@.block_size as int,
            );
        }
        self.used = self.used + needed;
        self.tables.insert(seq.as_u64(), needed);
        Ok(())
    }

    fn append_token(&mut self, seq: SequenceId) -> (r: Result<(), EngineError>) {
        if self.fail_next_append {
            self.fail_next_append = false;
            return Err(EngineError::CacheExhausted { needed: 1, available: 0 });
        }
        let held: usize = match self.tables.get(&seq.as_u64()) {
            Some(n) => *n,
            None => {
                return Err(
                    EngineError::Internal(join2(seq.to_text().as_str(), " has no block table")),
                );
            },
        };
        // Grows one block at a time.
        if self.free_blocks() == 0 {
            return Err(EngineError::CacheExhausted { needed: 1, available: 0 });
        }
        proof {
            lemma_blocks_in_remove(self@.tables, seq@);
        }
        let more: usize = held + 1;
        proof {
            lemma_blocks_in_insert(self@.tables, seq@, more);
        }
        self.used = self.used + 1;
        self.tables.insert(seq.as_u64(), more);
        Ok(())
    }

    fn free(&mut self, seq: SequenceId) {
        proof {
            if self@.tables.contains_key(seq@) {
                lemma_blocks_in_remove(self@.tables, seq@);
            }
        }
        match self.tables.remove(&seq.as_u64()) {
            Some(n) => {
                self.used = self.used.saturating_sub(n);
            },
            None => {
                proof {
                    assert(self@.tables =~= old(self)@.tables);
                }
            },
        }
    }

    fn commit_prefill(&mut self, seq: SequenceId, _prompt: &[TokenId]) {
        self.commits.push(seq);
        proof {
            crate::id::lemma_sequence_id(seq);
        }
    }
}

/// A forced failure happens once: the attempt after it is decided by the
/// blocks alone.
pub proof fn law_forced_failures_fire_once(m: FakeState, seq: u64, prompt: Seq<TokenId>)
    requires
        m.wf(),
    ensures
        m.fail_append ==> !FakeCache::appends(m, seq) && !FakeCache::after_append(
            m,
            seq,
        ).fail_append,
        m.fail_allocate ==> !FakeCache::allocates(m, seq, prompt) && !FakeCache::after_allocate(
            m,
            seq,
            prompt,
        ).fail_allocate,
{
}

/// What an allocation took, a release gives back.
pub proof fn law_fake_allocate_then_free(m: FakeState, seq: u64, prompt: Seq<TokenId>)
    requires
        m.wf(),
        !m.tables.contains_key(seq),
        FakeCache::allocates(m, seq, prompt),
    ensures
        FakeCache::after_free(FakeCache::after_allocate(m, seq, prompt), seq) == m,
{
    let a = FakeCache::after_allocate(m, seq, prompt);
    let f = FakeCache::after_free(a, seq);
    crate::kv_cache::table::law_blocks_for_is_least(prompt.len() as int, m.block_size as int);
    assert(f.tables =~= m.tables);
}

/// What the simulated cache does: a prompt takes the blocks of its tokens and an
/// appended token one more, from what is free; a release gives back what the
/// sequence holds; a commit is noted.
pub proof fn law_fake_operations_account_for_blocks(m: FakeState, seq: u64, prompt: Seq<TokenId>)
    requires
        m.wf(),
    ensures
        FakeCache::available(m) == m.total - m.used,
        FakeCache::capacity(m) == m.total,
        FakeCache::needs(m, prompt.len() as int) == blocks_for(
            prompt.len() as int,
            m.block_size as int,
        ),
        !m.fail_allocate && FakeCache::needs(m, prompt.len() as int) <= m.total - m.used
            ==> FakeCache::allocates(m, seq, prompt),
        FakeCache::allocates(m, seq, prompt) ==> FakeCache::after_allocate(m, seq, prompt).used
            == m.used + FakeCache::needs(m, prompt.len() as int) && FakeCache::after_allocate(
            m,
            seq,
            prompt,
        ).tables[seq] == FakeCache::needs(m, prompt.len() as int),
        !m.fail_append && m.tables.contains_key(seq) && m.used < m.total ==> FakeCache::appends(
            m,
            seq,
        ),
        FakeCache::appends(m, seq) && m.tables[seq] < usize::MAX ==> FakeCache::after_append(
            m,
            seq,
        ).used == m.used + 1 && FakeCache::after_append(m, seq).tables[seq] == m.tables[seq] + 1,
        m.tables.contains_key(seq) && m.tables[seq] <= m.used ==> FakeCache::after_free(m, seq).used
            == m.used - m.tables[seq] && !FakeCache::after_free(m, seq).tables.contains_key(seq),
        !m.tables.contains_key(seq) ==> FakeCache::after_free(m, seq) == m,
        FakeCache::after_commit(m, seq, prompt).commits.len() == m.commits.len() + 1,
        FakeCache::after_commit(m, seq, prompt).commits.last()@ == seq,
{
    crate::kv_cache::table::law_blocks_for_is_least(prompt.len() as int, m.block_size as int);
    crate::id::law_ids_are_shown_with_their_kind(seq, crate::id::BlockId(0));
}

} // verus!
