//! What holds of the KV cache in every state that its operations reach.

use crate::id::{BlockId, TokenId};
use crate::kv_cache::block::PoolState;
use crate::kv_cache::laws::{
    law_admission_is_safe, law_admitted_prompt_is_ready_to_commit, law_commit_keeps_soundness,
    law_eviction_is_safe, law_free_is_safe, law_initial_cache_is_sound,
    law_partial_blocks_are_private, lemma_adopting_keeps_hash, lemma_appended, lemma_evict_one,
    lemma_nothing_evictable, lemma_placed_so_far, lemma_published_hash, lemma_publishing,
    lemma_releasing, lemma_reused, lemma_unit_monotone, placed_so_far, ready_to_commit,
};
use crate::kv_cache::model::{
    block_hash, lemma_occurrences_contains, lemma_references_remove, references, CacheState,
};
use crate::kv_cache::table::{blocks_for, law_blocks_for_is_least};
use vstd::prelude::*;

verus! {

/// One operation of the cache.
pub ghost enum CacheStep {
    /// A prompt is admitted for a sequence.
    Admit { seq: u64, prompt: Seq<TokenId> },
    /// The blocks of a sequence's computed prompt are published.
    Commit { seq: u64 },
    /// A sequence grows by a token.
    Append { seq: u64 },
    /// A sequence is released.
    Free { seq: u64 },
    /// The oldest cached contents are forgotten.
    Evict,
    /// Everything in the index is forgotten.
    Clear,
}

/// A cache, and the prompt with which each of its sequences was admitted.
pub ghost struct CacheHistory {
    pub cache: CacheState,
    pub prompts: Map<u64, Seq<TokenId>>,
}

impl CacheHistory {
    pub open spec fn initial(num_blocks: usize, block_size: usize, caching: bool) -> CacheHistory {
        CacheHistory {
            cache: CacheState::initial(num_blocks, block_size, caching),
            prompts: Map::empty(),
        }
    }

    /// Whether the operation can be carried out.
    pub open spec fn may(self, step: CacheStep) -> bool {
        match step {
            CacheStep::Admit { seq, prompt } => {
                &&& !self.cache.tables.contains_key(seq)
                &&& prompt.len() <= usize::MAX
                &&& self.cache.blocks_of(prompt) <= self.cache.pool.free.len()
            },
            CacheStep::Commit { seq } => self.cache.tables.contains_key(seq),
            CacheStep::Append { seq } => self.cache.can_append(seq),
            CacheStep::Free { .. } => true,
            CacheStep::Evict => exists|k: int| self.cache.pool.oldest_cached_at(k),
            CacheStep::Clear => true,
        }
    }

    pub open spec fn after(self, step: CacheStep) -> CacheHistory {
        match step {
            CacheStep::Admit { seq, prompt } => CacheHistory {
                cache: self.cache.admitted(seq, prompt),
                prompts: self.prompts.insert(seq, prompt),
            },
            CacheStep::Commit { seq } => CacheHistory {
                cache: self.cache.committed(seq, self.prompts[seq]),
                ..self
            },
            CacheStep::Append { seq } => CacheHistory {
                cache: self.cache.appended(seq),
                ..self
            },
            CacheStep::Free { seq } => CacheHistory {
                cache: self.cache.freed(seq),
                prompts: self.prompts.remove(seq),
            },
            CacheStep::Evict => CacheHistory { cache: self.cache.evict_one(), ..self },
            CacheStep::Clear => CacheHistory { cache: self.cache.cleared(), ..self },
        }
    }

    /// Whether the cache tells the truth: it is well formed and sound, and the
    /// prompt of each sequence can be published at any time.
    pub open spec fn truthful(self) -> bool {
        &&& self.cache.wf()
        &&& self.cache.sound()
        &&& self.prompts.dom() == self.cache.tables.dom()
        &&& forall|s: u64| #[trigger]
            self.cache.tables.contains_key(s) ==> {
                &&& self.prompts[s].len() <= self.cache.tables[s].num_tokens
                &&& ready_to_commit(self.cache, s, self.prompts[s])
            }
    }

    /// The cache after the first `n` of the operations.
    pub open spec fn run(self, steps: Seq<CacheStep>, n: int) -> CacheHistory
        decreases n,
    {
        if n <= 0 {
            self
        } else {
            self.run(steps, n - 1).after(steps[n - 1])
        }
    }

    /// Whether the operations can be carried out one after the other.
    pub open spec fn may_run(self, steps: Seq<CacheStep>) -> bool {
        forall|i: int|
            0 <= i < steps.len() ==> self.run(steps, i).may(#[trigger] steps[i])
    }
}

/// Whether `b` differs from `a` in hashes only by what it has forgotten.
spec fn forgets(a: CacheState, b: CacheState) -> bool {
    &&& b.pool.blocks.len() == a.pool.blocks.len()
    &&& b.pool.block_size == a.pool.block_size
    &&& forall|id: BlockId| #[trigger]
        a.pool.knows(id) ==> b.pool.block(id).hash == a.pool.block(id).hash || b.pool.block(
            id,
        ).hash is None
}

/// A cache that has only forgotten hashes is as ready to publish, where the
/// table at most grew.
proof fn lemma_still_ready(a: CacheState, b: CacheState, s: u64, prompt: Seq<TokenId>)
    requires
        a.wf(),
        b.wf(),
        a.tables.contains_key(s),
        b.tables.contains_key(s),
        ready_to_commit(a, s, prompt),
        forgets(a, b),
        prompt.len() <= a.tables[s].num_tokens <= b.tables[s].num_tokens,
        a.tables[s].blocks.is_prefix_of(b.tables[s].blocks),
    ensures
        ready_to_commit(b, s, prompt),
{
    let t = a.tables[s];
    let u = b.tables[s];
    let unit = a.unit();
    let whole = prompt.len() as int / unit;
    assert(a.table_wf(t));
    assert(b.table_wf(u));
    vstd::arithmetic::div_mod::lemma_fundamental_div_mod(prompt.len() as int, unit);
    vstd::arithmetic::div_mod::lemma_mod_bound(prompt.len() as int, unit);
    assert(unit * whole == whole * unit) by (nonlinear_arith);
    law_blocks_for_is_least(t.num_tokens as int, unit);
    if whole > t.blocks.len() {
        lemma_unit_monotone(t.blocks.len() as int + 1, whole, unit);
        assert((t.blocks.len() + 1) * unit == t.blocks.len() * unit + unit) by (nonlinear_arith);
    }
    assert forall|i: int| 0 <= i < whole implies #[trigger] u.blocks[i] == t.blocks[i] by {
        assert(t.blocks =~= u.blocks.subrange(0, t.blocks.len() as int));
    }
    assert forall|i: int| 0 <= i < whole implies (#[trigger] b.pool.block(u.blocks[i])).hash is None
        || b.pool.block(u.blocks[i]).hash == Some(block_hash(prompt, unit, i)) by {
        assert(a.pool.knows(t.blocks[i]));
        assert(u.blocks[i] == t.blocks[i]);
        assert(a.pool.block(t.blocks[i]).hash is None || a.pool.block(t.blocks[i]).hash == Some(
            block_hash(prompt, unit, i),
        ));
    }
    assert forall|i: int, j: int|
        0 <= i < whole && 0 <= j < whole && #[trigger] u.blocks[i] == #[trigger] u.blocks[j] implies block_hash(
        prompt,
        unit,
        i,
    ) == block_hash(prompt, unit, j) by {
        assert(u.blocks[i] == t.blocks[i] && u.blocks[j] == t.blocks[j]);
    }
}

/// Placing a prompt forgets hashes of blocks and gives none.
proof fn lemma_placing_forgets(s: CacheState, seq: u64, prompt: Seq<TokenId>, k: int, id: BlockId)
    requires
        s.wf(),
        !s.tables.contains_key(seq),
        prompt.len() <= usize::MAX,
        s.blocks_of(prompt) <= s.pool.free.len(),
        s.reused_blocks(prompt) <= k <= s.blocks_of(prompt),
        s.pool.knows(id),
    ensures
        ({
            let now = placed_so_far(s, seq, prompt, k).pool.block(id).hash;
            now == s.pool.block(id).hash || now is None
        }),
    decreases k,
{
    let run = s.reused_blocks(prompt);
    lemma_reused(s, prompt);
    if k == run {
        lemma_adopting_keeps_hash(s, seq, prompt, run, id);
    } else {
        lemma_placing_forgets(s, seq, prompt, k - 1, id);
        lemma_placed_so_far(s, seq, prompt, k - 1);
        let p = placed_so_far(s, seq, prompt, k - 1);
        assert(p.pool.knows(p.pool.free[0]));
    }
}

proof fn lemma_admission_forgets(s: CacheState, seq: u64, prompt: Seq<TokenId>)
    requires
        s.wf(),
        !s.tables.contains_key(seq),
        prompt.len() <= usize::MAX,
        s.blocks_of(prompt) <= s.pool.free.len(),
    ensures
        forgets(s, s.admitted(seq, prompt)),
{
    let n = s.blocks_of(prompt);
    let a = s.admitted(seq, prompt);
    lemma_reused(s, prompt);
    lemma_placed_so_far(s, seq, prompt, n);
    assert(a.pool == placed_so_far(s, seq, prompt, n).pool);
    assert forall|id: BlockId| #[trigger] s.pool.knows(id) implies a.pool.block(id).hash
        == s.pool.block(id).hash || a.pool.block(id).hash is None by {
        lemma_placing_forgets(s, seq, prompt, n, id);
    }
}

/// A block in two tables is referenced twice.
proof fn lemma_in_two_tables(s: CacheState, x: u64, i: int, y: u64, j: int)
    requires
        s.wf(),
        s.tables.contains_key(x),
        s.tables.contains_key(y),
        x != y,
        0 <= i < s.tables[x].blocks.len(),
        0 <= j < s.tables[y].blocks.len(),
        s.tables[x].blocks[i] == s.tables[y].blocks[j],
    ensures
        s.pool.knows(s.tables[x].blocks[i]),
        references(s.tables, s.tables[x].blocks[i]) >= 2,
        s.pool.block(s.tables[x].blocks[i]).ref_count >= 2,
{
    let id = s.tables[x].blocks[i];
    assert(s.table_wf(s.tables[x]));
    assert(s.pool.knows(s.tables[x].blocks[i]));
    lemma_references_remove(s.tables, x, id);
    lemma_references_remove(s.tables.remove(x), y, id);
    assert(s.tables[x].blocks.contains(id));
    assert(s.tables[y].blocks.contains(id));
    lemma_occurrences_contains(s.tables[x].blocks, id);
    lemma_occurrences_contains(s.tables[y].blocks, id);
}

/// Publishing a sequence's blocks changes no hash of a block that another
/// sequence holds too.
proof fn lemma_publishing_keeps_shared(
    s: CacheState,
    seq: u64,
    prompt: Seq<TokenId>,
    k: int,
    other: u64,
    j: int,
)
    requires
        s.wf(),
        s.sound(),
        ready_to_commit(s, seq, prompt),
        0 <= k <= s.full_blocks(seq, prompt),
        s.tables.contains_key(other),
        other != seq,
        0 <= j < s.tables[other].blocks.len(),
    ensures
        s.publishing(seq, prompt, k).pool.block(s.tables[other].blocks[j]).hash == s.pool.block(
            s.tables[other].blocks[j],
        ).hash,
    decreases k,
{
    if k > 0 {
        lemma_publishing_keeps_shared(s, seq, prompt, k - 1, other, j);
        let t = s.tables[seq];
        let id = s.tables[other].blocks[j];
        assert(s.table_wf(t));
        assert(s.table_wf(s.tables[other]));
        assert(s.pool.knows(t.blocks[k - 1]));
        assert(s.pool.knows(s.tables[other].blocks[j]));
        lemma_published_hash(s, seq, prompt, k - 1, k - 1);
        if t.blocks[k - 1] == id {
            lemma_in_two_tables(s, seq, k - 1, other, j);
            assert(s.pool.block(t.blocks[k - 1]).hash is Some);
        }
    }
}

/// Publishing keeps every sequence ready.
proof fn lemma_commit_keeps_ready(h: CacheHistory, seq: u64)
    requires
        h.truthful(),
        h.cache.tables.contains_key(seq),
        h.cache.caching,
    ensures
        h.after(CacheStep::Commit { seq }).truthful(),
{
    let s = h.cache;
    let prompt = h.prompts[seq];
    let m = s.full_blocks(seq, prompt);
    let a = s.committed(seq, prompt);
    law_commit_keeps_soundness(s, seq, prompt);
    vstd::arithmetic::div_mod::lemma_div_pos_is_pos(prompt.len() as int, s.unit());
    lemma_publishing(s, seq, prompt, m);
    assert forall|x: u64| #[trigger] a.tables.contains_key(x) implies {
        &&& h.prompts[x].len() <= a.tables[x].num_tokens
        &&& ready_to_commit(a, x, h.prompts[x])
    } by {
        assert(s.tables.contains_key(x));
        let t = s.tables[x];
        let full = s.full_blocks(x, h.prompts[x]);
        assert(a.full_blocks(x, h.prompts[x]) == full);
        assert(ready_to_commit(s, x, h.prompts[x]));
        assert forall|i: int| 0 <= i < full implies (#[trigger] a.pool.block(t.blocks[i])).hash is None
            || a.pool.block(t.blocks[i]).hash == Some(
            block_hash(h.prompts[x], s.unit(), i),
        ) by {
            assert(s.pool.block(t.blocks[i]).hash is None || s.pool.block(t.blocks[i]).hash == Some(
                block_hash(h.prompts[x], s.unit(), i),
            ));
            if x == seq {
                lemma_published_hash(s, seq, prompt, m, i);
            } else {
                lemma_publishing_keeps_shared(s, seq, prompt, m, x, i);
            }
        }
    }
}

/// Where a free block is cached, one of those is the oldest.
proof fn lemma_oldest_exists(p: PoolState, k: int)
    requires
        0 <= k < p.free.len(),
        p.cached_at(k),
    ensures
        exists|j: int| p.oldest_cached_at(j),
    decreases k,
{
    if exists|j: int| 0 <= j < k && #[trigger] p.cached_at(j) {
        let j = choose|j: int| 0 <= j < k && #[trigger] p.cached_at(j);
        lemma_oldest_exists(p, j);
    } else {
        assert(p.oldest_cached_at(k));
    }
}

/// Forgetting the contents of free blocks leaves the tables, and hashes but for
/// those it forgets.
proof fn lemma_evicted(s: CacheState, n: int)
    requires
        s.wf(),
        s.sound(),
        n <= s.pool.evictable().len(),
    ensures
        s.evicted(n).wf(),
        s.evicted(n).sound(),
        s.evicted(n).tables == s.tables,
        forgets(s, s.evicted(n)),
        n >= 0 ==> s.evicted(n).pool.evictable().len() == s.pool.evictable().len() - n,
    decreases n,
{
    if n > 0 {
        lemma_evicted(s, n - 1);
        let e = s.evicted(n - 1);
        if forall|k: int| 0 <= k < e.pool.free.len() ==> !#[trigger] e.pool.cached_at(k) {
            lemma_nothing_evictable(e.pool);
        } else {
            let k = choose|k: int| 0 <= k < e.pool.free.len() && #[trigger] e.pool.cached_at(k);
            lemma_oldest_exists(e.pool, k);
        }
        let k = choose|k: int| e.pool.oldest_cached_at(k);
        law_eviction_is_safe(e);
        lemma_evict_one(e);
        assert(e.pool.knows(e.pool.free[k]));
        assert forall|id: BlockId| #[trigger] s.pool.knows(id) implies s.evicted(n).pool.block(
            id,
        ).hash == s.pool.block(id).hash || s.evicted(n).pool.block(id).hash is None by {
            assert(e.pool.knows(id));
        }
    }
}

proof fn lemma_clearing_keeps_truthful(h: CacheHistory)
    requires
        h.truthful(),
    ensures
        h.after(CacheStep::Clear).truthful(),
{
    let s = h.cache;
    let n = s.pool.evictable().len() as int;
    let e = s.evicted(n);
    let a = s.cleared();
    lemma_evicted(s, n);
    assert forall|id: BlockId| #[trigger] a.pool.knows(id) implies {
        &&& a.pool.block(id).ref_count == references(a.tables, id)
        &&& a.pool.block(id).hash is Some ==> a.pool.block(id).num_tokens == a.pool.block_size
        &&& a.pool.block(id).ref_count >= 2 ==> a.pool.block(id).hash is Some
    } by {
        assert(e.pool.knows(id));
    }
    assert forall|x: u64| #[trigger] a.tables.contains_key(x) implies a.table_wf(a.tables[x])
        && a.filled(a.tables[x]) by {
        assert(e.tables.contains_key(x));
        assert(e.table_wf(e.tables[x]));
        assert(e.filled(e.tables[x]));
        assert forall|i: int| 0 <= i < a.tables[x].blocks.len() implies a.pool.knows(
            #[trigger] a.tables[x].blocks[i],
        ) by {
            assert(e.pool.knows(e.tables[x].blocks[i]));
        }
    }
    assert forall|x: u64| #[trigger] a.tables.contains_key(x) implies {
        &&& h.prompts[x].len() <= a.tables[x].num_tokens
        &&& ready_to_commit(a, x, h.prompts[x])
    } by {
        assert(s.tables.contains_key(x));
        assert(s.tables[x].blocks =~= a.tables[x].blocks.subrange(
            0,
            s.tables[x].blocks.len() as int,
        ));
        lemma_still_ready(s, a, x, h.prompts[x]);
    }
}

/// Every operation keeps the cache truthful.
pub proof fn law_every_operation_keeps_the_cache_truthful(h: CacheHistory, step: CacheStep)
    requires
        h.truthful(),
        h.may(step),
    ensures
        h.after(step).truthful(),
{
    let s = h.cache;
    let after = h.after(step);
    let a = after.cache;
    match step {
        CacheStep::Admit { seq, prompt } => {
            law_admission_is_safe(s, seq, prompt);
            law_admitted_prompt_is_ready_to_commit(s, seq, prompt);
            lemma_admission_forgets(s, seq, prompt);
            assert(after.prompts.dom() =~= a.tables.dom());
            assert forall|x: u64| #[trigger] a.tables.contains_key(x) implies {
                &&& after.prompts[x].len() <= a.tables[x].num_tokens
                &&& ready_to_commit(a, x, after.prompts[x])
            } by {
                if x != seq {
                    assert(s.tables.contains_key(x));
                    lemma_still_ready(s, a, x, h.prompts[x]);
                }
            }
        },
        CacheStep::Commit { seq } => {
            if s.caching {
                lemma_commit_keeps_ready(h, seq);
            }
        },
        CacheStep::Append { seq } => {
            lemma_appended(s, seq);
            let t = s.tables[seq];
            assert(s.table_wf(t));
            law_blocks_for_is_least(t.num_tokens + 1, s.unit());
            if s.needs_block(seq) {
                assert(s.pool.knows(s.pool.free[0]));
            } else {
                assert(t.blocks.len() > 0);
                assert(s.pool.knows(t.blocks[t.blocks.len() - 1]));
            }
            assert(forgets(s, a));
            assert(after.prompts.dom() =~= a.tables.dom()) by {
                assert(s.tables.contains_key(seq));
            }
            assert forall|x: u64| #[trigger] a.tables.contains_key(x) implies {
                &&& after.prompts[x].len() <= a.tables[x].num_tokens
                &&& ready_to_commit(a, x, after.prompts[x])
            } by {
                assert(s.tables.contains_key(x));
                assert(s.tables[x].blocks =~= a.tables[x].blocks.subrange(
                    0,
                    s.tables[x].blocks.len() as int,
                ));
                lemma_still_ready(s, a, x, h.prompts[x]);
            }
        },
        CacheStep::Free { seq } => {
            law_free_is_safe(s, seq);
            if s.tables.contains_key(seq) {
                lemma_releasing(s, seq, s.tables[seq].blocks.len() as int);
            }
            assert(after.prompts.dom() =~= a.tables.dom());
            assert forall|x: u64| #[trigger] a.tables.contains_key(x) implies {
                &&& after.prompts[x].len() <= a.tables[x].num_tokens
                &&& ready_to_commit(a, x, after.prompts[x])
            } by {
                assert(s.tables.contains_key(x));
                assert(s.tables[x].blocks =~= a.tables[x].blocks.subrange(
                    0,
                    s.tables[x].blocks.len() as int,
                ));
                lemma_still_ready(s, a, x, h.prompts[x]);
            }
        },
        CacheStep::Clear => {
            lemma_clearing_keeps_truthful(h);
        },
        CacheStep::Evict => {
            law_eviction_is_safe(s);
            assert forall|x: u64| #[trigger] a.tables.contains_key(x) implies {
                &&& after.prompts[x].len() <= a.tables[x].num_tokens
                &&& ready_to_commit(a, x, after.prompts[x])
            } by {
                assert(s.tables.contains_key(x));
                assert(s.tables[x].blocks =~= a.tables[x].blocks.subrange(
                    0,
                    s.tables[x].blocks.len() as int,
                ));
                lemma_still_ready(s, a, x, h.prompts[x]);
            }
        },
    }
}

/// Whatever operations a fresh cache goes through, it stays truthful.
pub proof fn law_every_reachable_cache_is_truthful(
    num_blocks: usize,
    block_size: usize,
    caching: bool,
    steps: Seq<CacheStep>,
    n: int,
)
    requires
        0 < block_size,
        num_blocks <= u32::MAX as nat + 1,
        CacheHistory::initial(num_blocks, block_size, caching).may_run(steps),
        0 <= n <= steps.len(),
    ensures
        CacheHistory::initial(num_blocks, block_size, caching).run(steps, n).truthful(),
    decreases n,
{
    let h = CacheHistory::initial(num_blocks, block_size, caching);
    if n == 0 {
        law_initial_cache_is_sound(num_blocks, block_size, caching);
        let s = h.cache;
        assert(h.prompts.dom() =~= s.tables.dom());
        assert forall|id: BlockId| #[trigger] s.pool.knows(id) implies s.pool.block(id).ref_count
            == references(s.tables, id) by {}
        assert(s.pool.wf()) by {
            assert forall|i: int| 0 <= i < s.pool.blocks.len() implies s.pool.free.contains(
                BlockId(i as u32),
            ) && (#[trigger] s.pool.blocks[i]).id == BlockId(i as u32) by {
                assert(s.pool.free[i] == BlockId(i as u32));
            }
        }
    } else {
        law_every_reachable_cache_is_truthful(num_blocks, block_size, caching, steps, n - 1);
        assert(h.run(steps, n - 1).may(steps[n - 1]));
        law_every_operation_keeps_the_cache_truthful(h.run(steps, n - 1), steps[n - 1]);
    }
}

/// In every state that a cache reaches, a block that is not full is private: at
/// most one table names it, once, and the index does not name it.
pub proof fn law_partial_blocks_are_always_private(
    num_blocks: usize,
    block_size: usize,
    caching: bool,
    steps: Seq<CacheStep>,
    id: BlockId,
)
    requires
        0 < block_size,
        num_blocks <= u32::MAX as nat + 1,
        CacheHistory::initial(num_blocks, block_size, caching).may_run(steps),
        ({
            let s = CacheHistory::initial(num_blocks, block_size, caching).run(
                steps,
                steps.len() as int,
            ).cache;
            s.pool.knows(id) && s.pool.block(id).num_tokens < s.pool.block_size
        }),
    ensures
        ({
            let s = CacheHistory::initial(num_blocks, block_size, caching).run(
                steps,
                steps.len() as int,
            ).cache;
            &&& references(s.tables, id) <= 1
            &&& forall|h: u64| #[trigger]
                s.index.entries.contains_key(h) ==> s.index.entries[h].block != id
        }),
{
    let n = steps.len() as int;
    law_every_reachable_cache_is_truthful(num_blocks, block_size, caching, steps, n);
    law_partial_blocks_are_private(
        CacheHistory::initial(num_blocks, block_size, caching).run(steps, n).cache,
        id,
    );
}

/// What a block table is: as many blocks as its tokens need and no more, each of
/// them one of the pool's, and a last block that is not full in no other table.
pub proof fn law_block_tables_are_exact(h: CacheHistory, seq: u64, other: u64, j: int)
    requires
        h.truthful(),
        h.cache.tables.contains_key(seq),
    ensures
        ({
            let s = h.cache;
            let t = s.tables[seq];
            &&& t.blocks.len() == blocks_for(t.num_tokens as int, s.unit())
            &&& (t.blocks.len() - 1) * s.unit() < t.num_tokens || t.blocks.len() == 0
            &&& t.num_tokens <= t.blocks.len() * s.unit()
            &&& forall|i: int|
                0 <= i < t.blocks.len() ==> ((#[trigger] t.blocks[i]).0 as int) < s.pool.blocks.len()
            &&& t.num_tokens < t.blocks.len() * s.unit() && s.tables.contains_key(other) && other
                != seq && 0 <= j < s.tables[other].blocks.len() ==> s.tables[other].blocks[j]
                != t.blocks.last()
        }),
{
    let s = h.cache;
    let t = s.tables[seq];
    let n = t.blocks.len() as int;
    let unit = s.unit();
    assert(s.table_wf(t));
    law_blocks_for_is_least(t.num_tokens as int, unit);
    assert((n - 1) * unit == n * unit - unit) by (nonlinear_arith);
    if n > 0 && t.num_tokens <= (n - 1) * unit {
        assert(blocks_for(t.num_tokens as int, unit) <= n - 1);
    }
    assert forall|i: int| 0 <= i < t.blocks.len() implies ((#[trigger] t.blocks[i]).0 as int)
        < s.pool.blocks.len() by {
        assert(s.pool.knows(t.blocks[i]));
    }
    if t.num_tokens < n * unit && s.tables.contains_key(other) && other != seq && 0 <= j
        < s.tables[other].blocks.len() {
        assert(s.filled(t));
        assert(n > 0) by {
            assert(n == 0 ==> n * unit == 0) by (nonlinear_arith);
        }
        assert((n - 1 + 1) * unit == n * unit);
        assert(s.pool.block(t.blocks[n - 1]).num_tokens < unit);
        if s.tables[other].blocks[j] == t.blocks[n - 1] {
            lemma_in_two_tables(s, seq, n - 1, other, j);
        }
    }
}

} // verus!
