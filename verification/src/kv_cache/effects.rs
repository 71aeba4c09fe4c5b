//! What the cache's operations do, said of blocks, tables and entries: which
//! block is handed out, which keep their contents, what is found again.

use crate::id::{BlockId, TokenId};
use crate::kv_cache::block::{BlockHash, PoolState};
use crate::kv_cache::laws::{lemma_adopted_so_far, lemma_reused, lemma_run, lemma_unit_step};
use crate::kv_cache::model::{block_hash, occurrences, prompt_block, references, CacheState};
use crate::kv_cache::prefix::{EntryState, IndexState};
use crate::kv_cache::table::{
    blocks_for, chained_hash, law_blocks_for_is_least, mixed, mixed_all,
};
use vstd::prelude::*;

verus! {

// ----- the pool -------------------------------------------------------------------

/// A new pool has every block once, free in the order of their numbers, without
/// references and contents.
pub proof fn law_a_new_pool_is_blank(num_blocks: usize, block_size: usize, i: int)
    requires
        num_blocks <= u32::MAX as nat + 1,
        0 <= i < num_blocks,
    ensures
        ({
            let p = PoolState::initial(num_blocks, block_size);
            &&& p.blocks.len() == num_blocks
            &&& p.free.len() == num_blocks
            &&& p.block_size == block_size
            &&& p.free[i].0 == i
            &&& p.blocks[i].id.0 == i
            &&& p.blocks[i].ref_count == 0
            &&& p.blocks[i].num_tokens == 0
            &&& p.blocks[i].hash is None
        }),
{
}

/// The block that has been free longest is handed out: it has one reference and
/// nothing in it, the others stay free in their order, and no other block
/// changes.
pub proof fn law_the_oldest_free_block_is_handed_out(p: PoolState, other: BlockId)
    requires
        p.wf(),
        p.free.len() > 0,
    ensures
        ({
            let q = p.take_oldest();
            let id = p.free[0];
            &&& q.free == p.free.skip(1)
            &&& q.block(id).ref_count == 1
            &&& q.block(id).num_tokens == 0
            &&& q.block(id).hash is None
            &&& q.block(id).id == id
            &&& q.blocks.len() == p.blocks.len()
            &&& q.block_size == p.block_size
            &&& other != id && p.knows(other) ==> q.block(other) == p.block(other)
        }),
{
    let q = p.take_oldest();
    assert(p.knows(p.free[0]));
    assert(q.free =~= p.free.skip(1));
}

/// A block that is given back while others are free is handed out after all of
/// them.
pub proof fn law_free_blocks_queue_up(p: PoolState, id: BlockId)
    requires
        p.wf(),
        p.knows(id),
        p.block(id).ref_count == 1,
    ensures
        p.released(id).free.len() == p.free.len() + 1,
        p.released(id).free.take(p.free.len() as int) == p.free,
        p.released(id).free[p.free.len() as int] == id,
        p.free.len() > 0 ==> p.released(id).free[0] == p.free[0],
{
    assert(p.released(id).free.take(p.free.len() as int) =~= p.free);
}

/// Giving back a reference keeps the block's contents and every other block; the
/// block becomes free with its last reference and not before.
pub proof fn law_giving_back_keeps_contents(p: PoolState, id: BlockId, other: BlockId)
    requires
        p.wf(),
        p.knows(id),
        p.block(id).ref_count > 0,
    ensures
        p.released(id).block(id).ref_count == p.block(id).ref_count - 1,
        p.released(id).block(id).num_tokens == p.block(id).num_tokens,
        p.released(id).block(id).hash == p.block(id).hash,
        p.block(id).ref_count > 1 ==> p.released(id).free == p.free,
        p.block(id).ref_count == 1 ==> p.released(id).free.contains(id),
        other != id && p.knows(other) ==> p.released(id).block(other) == p.block(other),
        p.released(id).blocks.len() == p.blocks.len(),
        p.released(id).block_size == p.block_size,
{
    if p.block(id).ref_count == 1 {
        let n = p.free.len() as int;
        assert(p.released(id).free[n] == id);
    }
}

/// One more reference keeps the block's contents and every other block; a free
/// block is not free any more, and the other free ones keep their order.
pub proof fn law_a_reference_keeps_contents(p: PoolState, id: BlockId, other: BlockId)
    requires
        p.wf(),
        p.knows(id),
        p.block(id).ref_count < u32::MAX,
    ensures
        p.referenced(id).block(id).ref_count == p.block(id).ref_count + 1,
        p.referenced(id).block(id).num_tokens == p.block(id).num_tokens,
        p.referenced(id).block(id).hash == p.block(id).hash,
        p.block(id).ref_count > 0 ==> p.referenced(id).free == p.free,
        p.block(id).ref_count == 0 ==> !p.referenced(id).free.contains(id),
        p.block(id).ref_count == 0 ==> p.referenced(id).free.len() + 1 == p.free.len(),
        other != id && p.free.contains(other) ==> p.referenced(id).free.contains(other),
        other != id && p.knows(other) ==> p.referenced(id).block(other) == p.block(other),
{
    if p.block(id).ref_count == 0 {
        assert(p.blocks[id.0 as int].id == BlockId(id.0));
        assert(p.free.contains(id));
        let at = p.free.index_of(id);
        assert(p.free[at] == id);
        let q = p.free.remove(at);
        assert forall|k: int| 0 <= k < q.len() implies q[k] != id by {
            if k < at {
                assert(q[k] == p.free[k]);
            } else {
                assert(q[k] == p.free[k + 1]);
            }
        }
        if other != id && p.free.contains(other) {
            let k = choose|k: int| 0 <= k < p.free.len() && p.free[k] == other;
            if k < at {
                assert(q[k] == other);
            } else {
                assert(q[k - 1] == other);
            }
        }
    }
}

/// Recording contents changes those of the one block, and neither its references
/// nor the free list.
pub proof fn law_contents_are_recorded(
    p: PoolState,
    id: BlockId,
    num_tokens: usize,
    hash: Option<BlockHash>,
    other: BlockId,
)
    requires
        p.knows(id),
    ensures
        p.with_contents(id, num_tokens, hash).block(id).num_tokens == num_tokens,
        p.with_contents(id, num_tokens, hash).block(id).hash == hash,
        p.with_contents(id, num_tokens, hash).block(id).ref_count == p.block(id).ref_count,
        p.with_contents(id, num_tokens, hash).block(id).id == p.block(id).id,
        p.with_contents(id, num_tokens, hash).free == p.free,
        other != id && p.knows(other) ==> p.with_contents(id, num_tokens, hash).block(other)
            == p.block(other),
{
}

// ----- the index ------------------------------------------------------------------

/// A lookup hits exactly where an entry under the hash has the same tokens; it is
/// counted once, as a hit or a miss; no entry changes.
pub proof fn law_lookups_are_counted(index: IndexState, hash: BlockHash, tokens: Seq<TokenId>)
    ensures
        index.matches(hash, tokens) <==> index.entries.contains_key(hash.0)
            && index.entries[hash.0].tokens == tokens,
        index.hits < u64::MAX ==> index.counted(true).hits == index.hits + 1,
        index.counted(true).misses == index.misses,
        index.misses < u64::MAX ==> index.counted(false).misses == index.misses + 1,
        index.counted(false).hits == index.hits,
        index.counted(true).entries == index.entries,
        index.counted(false).entries == index.entries,
{
}

/// Publishing adds at most the one entry, with the block and its tokens; an entry
/// that is there stays; and withdrawing takes away an entry only where it names
/// that block.
pub proof fn law_other_entries_stay(
    index: IndexState,
    hash: BlockHash,
    block: BlockId,
    tokens: Seq<TokenId>,
    other: u64,
)
    ensures
        !index.entries.contains_key(hash.0) ==> index.published(
            hash,
            block,
            tokens,
        ).entries.contains_key(hash.0) && index.published(hash, block, tokens).entries[hash.0]
            == (EntryState { block, tokens }),
        index.entries.contains_key(hash.0) ==> index.published(hash, block, tokens) == index,
        other != hash.0 ==> (index.published(hash, block, tokens).entries.contains_key(other)
            <==> index.entries.contains_key(other)),
        index.entries.contains_key(other) ==> index.published(hash, block, tokens).entries[other]
            == index.entries[other],
        index.published(hash, block, tokens).hits == index.hits,
        index.published(hash, block, tokens).misses == index.misses,
        index.entries.contains_key(hash.0) && index.entries[hash.0].block == block
            ==> !index.withdrawn(hash, block).entries.contains_key(hash.0),
        index.entries.contains_key(hash.0) && index.entries[hash.0].block != block
            ==> index.withdrawn(hash, block) == index,
        other != hash.0 ==> (index.withdrawn(hash, block).entries.contains_key(other)
            <==> index.entries.contains_key(other)),
        other != hash.0 && index.entries.contains_key(other) ==> index.withdrawn(
            hash,
            block,
        ).entries[other] == index.entries[other],
        index.withdrawn(hash, block).hits == index.hits,
        index.withdrawn(hash, block).misses == index.misses,
{
}

// ----- hashes ---------------------------------------------------------------------

/// One mixing step, in numbers: what is rotated and folded is multiplied, modulo
/// 2 to the 64.
pub proof fn law_mixing_is_a_product(state: u64, value: u64)
    ensures
        mixed(state, value) as int == ((((state << 5) | (state >> 59)) ^ value) as int
            * 0x517cc1b727220a95) % 0x1_0000_0000_0000_0000,
{
}

/// The hash of a block mixes its parent, its length and then each token in order;
/// a first block has a fixed start in place of a parent.
pub proof fn law_hashes_take_in_each_token(parent: u64, tokens: Seq<TokenId>, token: TokenId)
    requires
        tokens.len() < u64::MAX,
    ensures
        chained_hash(None, tokens) == chained_hash(
            Some(BlockHash(0xcbf2_9ce4_8422_2325)),
            tokens,
        ),
        chained_hash(Some(BlockHash(parent)), seq![]).0 == mixed(parent, 0),
        chained_hash(Some(BlockHash(parent)), seq![token]).0 == mixed(
            mixed(parent, 1),
            token as u64,
        ),
        mixed_all(parent, tokens.push(token)) == mixed(mixed_all(parent, tokens), token as u64),
        chained_hash(Some(BlockHash(parent)), tokens).0 == mixed_all(
            mixed(parent, tokens.len() as u64),
            tokens,
        ),
{
    assert(tokens.push(token).drop_last() =~= tokens);
    assert(seq![token].drop_last() =~= seq![]);
    reveal_with_fuel(mixed_all, 2);
}

/// The block of a prompt at a place has the tokens from there on, as many as a
/// block holds or as there are; its hash is chained to that of the block before
/// it.
pub proof fn law_block_hashes_are_chained(prompt: Seq<TokenId>, unit: int, i: int)
    requires
        unit > 0,
        i >= 0,
        (i + 1) * unit <= prompt.len(),
    ensures
        prompt_block(prompt, unit, i) == prompt.subrange(i * unit, (i + 1) * unit),
        prompt_block(prompt, unit, i).len() == unit,
        i == 0 ==> block_hash(prompt, unit, i) == chained_hash(None, prompt.take(unit)),
        i > 0 ==> block_hash(prompt, unit, i) == chained_hash(
            Some(block_hash(prompt, unit, i - 1)),
            prompt.subrange(i * unit, (i + 1) * unit),
        ),
{
    assert((i + 1) * unit - i * unit == unit) by (nonlinear_arith);
    assert(i * unit >= 0) by (nonlinear_arith)
        requires
            i >= 0,
            unit > 0,
    ;
    reveal_with_fuel(crate::kv_cache::model::prefix_hash, 3);
    if i == 0 {
        assert(prompt.subrange(0, unit) =~= prompt.take(unit));
        assert(1 * unit == unit);
        assert(0 * unit == 0);
        assert(prompt_block(prompt, unit, 0) =~= prompt.take(unit));
    }
}

// ----- admission ------------------------------------------------------------------

/// The blocks that are recycled are the oldest free ones, in order.
proof fn lemma_recycled_in_order(s: CacheState, prompt: Seq<TokenId>, from: int, to: int)
    requires
        from <= to,
        to - from <= s.pool.free.len(),
    ensures
        s.recycled_blocks(prompt, from, to) == s.pool.free.take(to - from),
        s.recycling(prompt, from, to).pool.free == s.pool.free.skip(to - from),
        s.recycling(prompt, from, to).tables == s.tables,
        s.recycling(prompt, from, to).caching == s.caching,
    decreases to - from,
{
    if from < to {
        lemma_recycled_in_order(s, prompt, from, to - 1);
        let m = s.recycling(prompt, from, to - 1);
        assert(m.pool.free[0] == s.pool.free[to - 1 - from]);
        assert(s.recycled_blocks(prompt, from, to) =~= s.pool.free.take(to - from));
        assert(s.recycling(prompt, from, to).pool.free =~= s.pool.free.skip(to - from));
    } else {
        assert(s.recycled_blocks(prompt, from, to) =~= s.pool.free.take(0));
        assert(s.pool.free.skip(0) =~= s.pool.free);
    }
}

/// An admitted prompt has a table for all its tokens: first the blocks that the
/// index has for its leading blocks, then the oldest of the blocks that are free
/// beside them, in order. Every other table stays.
pub proof fn law_admission_places_a_prompt(
    s: CacheState,
    seq: u64,
    prompt: Seq<TokenId>,
    other: u64,
    i: int,
)
    requires
        s.wf(),
        !s.tables.contains_key(seq),
        prompt.len() <= usize::MAX,
        s.blocks_of(prompt) <= s.pool.free.len(),
    ensures
        ({
            let a = s.admitted(seq, prompt);
            let t = a.tables[seq];
            let k = s.reused_blocks(prompt);
            let spare = s.pool_adopting(prompt, k).free;
            &&& a.tables.contains_key(seq)
            &&& t.num_tokens == prompt.len()
            &&& t.blocks.len() == blocks_for(prompt.len() as int, s.unit())
            &&& 0 <= k <= t.blocks.len()
            &&& !s.caching ==> k == 0
            &&& 0 <= i < k ==> t.blocks[i] == s.index.entries[block_hash(
                prompt,
                s.unit(),
                i,
            ).0].block
            &&& 0 <= i < k ==> s.index.entries.contains_key(block_hash(prompt, s.unit(), i).0)
                && s.index.entries[block_hash(prompt, s.unit(), i).0].tokens == prompt.subrange(
                i * s.unit(),
                (i + 1) * s.unit(),
            )
            &&& k <= i < t.blocks.len() ==> t.blocks[i] == spare[i - k]
            &&& a.pool.free == spare.skip(t.blocks.len() - k)
            &&& a.caching == s.caching
            &&& other != seq ==> (a.tables.contains_key(other) <==> s.tables.contains_key(other))
            &&& other != seq ==> a.tables[other] == s.tables[other]
        }),
{
    let k = s.reused_blocks(prompt);
    let n = s.blocks_of(prompt);
    lemma_reused(s, prompt);
    lemma_adopted_so_far(s, seq, prompt, k);
    let mid = s.adopting(prompt);
    lemma_recycled_in_order(mid, prompt, k, n);
    law_blocks_for_is_least(prompt.len() as int, s.unit());
    if 0 <= i < k {
        assert(s.adoptable(prompt, i));
    }
}

/// As many leading blocks are reused as the index has: where reuse stops short of
/// the prompt's whole blocks, the next one is not in the index with its tokens, or
/// cannot be referenced once more.
pub proof fn law_reuse_goes_as_far_as_the_index(s: CacheState, prompt: Seq<TokenId>)
    requires
        s.wf(),
        s.caching,
    ensures
        ({
            let k = s.reused_blocks(prompt);
            let h = block_hash(prompt, s.unit(), k).0;
            (k + 1) * s.unit() <= prompt.len() ==> !s.index.entries.contains_key(h)
                || s.index.entries[h].tokens != prompt.subrange(
                k * s.unit(),
                (k + 1) * s.unit(),
            ) || s.pool_adopting(prompt, k).block(s.index.entries[h].block).ref_count == u32::MAX
        }),
{
    lemma_unit_step(0, s.unit());
    assert(0 * s.unit() <= prompt.len());
    lemma_run(s, prompt, 0);
    lemma_reused(s, prompt);
}

/// What an admission counts: each reused block as a hit, and the first whole block
/// that is not reused once more, as what its lookup gave.
pub proof fn law_admission_counts_its_lookups(s: CacheState, prompt: Seq<TokenId>)
    requires
        s.unit() > 0,
        s.index.hits + s.reused_blocks(prompt) < u64::MAX,
        s.index.misses < u64::MAX,
    ensures
        !s.caching ==> s.index_after_lookups(prompt) == s.index,
        s.index_after_lookups(prompt).entries == s.index.entries,
        s.index_after_lookups(prompt).hits + s.index_after_lookups(prompt).misses == s.index.hits
            + s.index.misses + s.reused_blocks(prompt) + if s.caching && (s.reused_blocks(prompt)
            + 1) * s.unit() <= prompt.len() {
            1int
        } else {
            0
        },
        s.caching && (s.reused_blocks(prompt) + 1) * s.unit() <= prompt.len() && !s.indexed(
            prompt,
            s.reused_blocks(prompt),
        ) ==> s.index_after_lookups(prompt).misses == s.index.misses + 1,
{
    lemma_reused(s, prompt);
    lemma_hits(s, s.reused_blocks(prompt));
}

proof fn lemma_hits(s: CacheState, k: int)
    requires
        0 <= k,
        s.index.hits + k <= u64::MAX,
    ensures
        s.index_after_hits(k).entries == s.index.entries,
        s.index_after_hits(k).hits == s.index.hits + k,
        s.index_after_hits(k).misses == s.index.misses,
    decreases k,
{
    if k > 0 {
        lemma_hits(s, k - 1);
    }
}

// ----- growth and release ---------------------------------------------------------

/// One more token of a sequence stays in its last block while that has room, and
/// else takes the oldest free block; no other table changes.
pub proof fn law_growth_fills_the_last_block(s: CacheState, seq: u64, other: u64)
    requires
        s.wf(),
        s.can_append(seq),
    ensures
        ({
            let t = s.tables[seq];
            let a = s.appended(seq);
            let room = t.num_tokens < t.blocks.len() * s.unit();
            &&& a.tables[seq].num_tokens == t.num_tokens + 1
            &&& room ==> a.tables[seq].blocks == t.blocks && a.pool.free == s.pool.free
                && a.index == s.index
            &&& !room ==> s.pool.free.len() > 0 && a.tables[seq].blocks == t.blocks.push(
                s.pool.free[0],
            ) && a.pool.free == s.pool.free.skip(1)
            &&& other != seq ==> a.tables[other] == s.tables[other]
            &&& a.tables.dom() == s.tables.dom()
            &&& a.caching == s.caching
        }),
{
    let t = s.tables[seq];
    let a = s.appended(seq);
    let u = s.unit();
    let n = t.num_tokens as int;
    assert(s.table_wf(t));
    law_blocks_for_is_least(n, u);
    law_blocks_for_is_least(n + 1, u);
    let b = t.blocks.len() as int;
    if n < b * u {
        assert(blocks_for(n + 1, u) <= b);
    } else {
        assert(n == b * u);
        assert(blocks_for(n + 1, u) > b) by (nonlinear_arith)
            requires
                n == b * u,
                n + 1 <= blocks_for(n + 1, u) * u,
                u > 0,
        ;
    }
    assert(a.tables.dom() =~= s.tables.dom());
    if s.needs_block(seq) {
        assert(a.pool.free =~= s.pool.free.skip(1));
    }
}

/// A sequence can grow exactly where it has a table that can count on and there is
/// room in its last block or a free block.
pub proof fn law_growth_needs_room(s: CacheState, seq: u64)
    requires
        s.wf(),
    ensures
        s.can_append(seq) <==> {
            &&& s.tables.contains_key(seq)
            &&& s.tables[seq].num_tokens < usize::MAX
            &&& s.tables[seq].num_tokens < s.tables[seq].blocks.len() * s.unit()
                || s.pool.free.len() > 0
        },
{
    if s.tables.contains_key(seq) {
        let t = s.tables[seq];
        let u = s.unit();
        let n = t.num_tokens as int;
        assert(s.table_wf(t));
        law_blocks_for_is_least(n, u);
        law_blocks_for_is_least(n + 1, u);
        let b = t.blocks.len() as int;
        if n < b * u {
            assert(blocks_for(n + 1, u) <= b);
        } else {
            assert(blocks_for(n + 1, u) > b) by (nonlinear_arith)
                requires
                    n >= b * u,
                    n + 1 <= blocks_for(n + 1, u) * u,
                    u > 0,
            ;
        }
    }
}

/// A released sequence has no table; every other keeps its own, and the index
/// keeps its entries.
pub proof fn law_release_takes_one_table(s: CacheState, seq: u64, other: u64)
    ensures
        !s.freed(seq).tables.contains_key(seq),
        other != seq ==> (s.freed(seq).tables.contains_key(other) <==> s.tables.contains_key(other)),
        other != seq && s.tables.contains_key(other) ==> s.freed(seq).tables[other]
            == s.tables[other],
        s.freed(seq).index == s.index,
        s.freed(seq).caching == s.caching,
        !s.tables.contains_key(seq) ==> s.freed(seq) == s,
{
}

// ----- publication and eviction ---------------------------------------------------

/// As many blocks are published as the prompt fills whole and the sequence holds;
/// tables, the free list and references stay.
pub proof fn law_whole_blocks_are_published(s: CacheState, seq: u64, prompt: Seq<TokenId>)
    requires
        s.unit() > 0,
        s.tables.contains_key(seq),
    ensures
        s.full_blocks(seq, prompt) * s.unit() <= prompt.len(),
        s.full_blocks(seq, prompt) <= s.tables[seq].blocks.len(),
        s.full_blocks(seq, prompt) == s.tables[seq].blocks.len() || prompt.len() < (s.full_blocks(
            seq,
            prompt,
        ) + 1) * s.unit(),
        !s.caching ==> s.committed(seq, prompt) == s,
        s.committed(seq, prompt).tables == s.tables,
        s.committed(seq, prompt).pool.free == s.pool.free,
        s.committed(seq, prompt).index.hits == s.index.hits,
        s.committed(seq, prompt).index.misses == s.index.misses,
{
    let u = s.unit();
    let n = prompt.len() as int;
    let w = n / u;
    let m = s.full_blocks(seq, prompt);
    vstd::arithmetic::div_mod::lemma_fundamental_div_mod(n, u);
    vstd::arithmetic::div_mod::lemma_mod_bound(n, u);
    assert(w * u <= n && n < (w + 1) * u) by (nonlinear_arith)
        requires
            n == u * w + n % u,
            0 <= n % u < u,
    ;
    assert(m * u <= w * u) by (nonlinear_arith)
        requires
            m <= w,
            u > 0,
    ;
    lemma_publishing_keeps(s, seq, prompt, m);
}

proof fn lemma_publishing_keeps(s: CacheState, seq: u64, prompt: Seq<TokenId>, k: int)
    ensures
        s.publishing(seq, prompt, k).tables == s.tables,
        s.publishing(seq, prompt, k).pool.free == s.pool.free,
        s.publishing(seq, prompt, k).index.hits == s.index.hits,
        s.publishing(seq, prompt, k).index.misses == s.index.misses,
        s.publishing(seq, prompt, k).caching == s.caching,
    decreases k,
{
    if k > 0 {
        lemma_publishing_keeps(s, seq, prompt, k - 1);
    }
}

/// Every whole block of a published prompt is found under its hash, with the
/// prompt's tokens unless others were there first; and nothing else comes into
/// the index.
pub proof fn law_published_blocks_are_indexed(
    s: CacheState,
    seq: u64,
    prompt: Seq<TokenId>,
    i: int,
    h: u64,
)
    requires
        s.caching,
        s.tables.contains_key(seq),
    ensures
        ({
            let e = s.committed(seq, prompt).index.entries;
            let m = s.full_blocks(seq, prompt);
            &&& 0 <= i < m ==> e.contains_key(block_hash(prompt, s.unit(), i).0)
            &&& s.index.entries.contains_key(h) ==> e.contains_key(h) && e[h]
                == s.index.entries[h]
            &&& e.contains_key(h) && !s.index.entries.contains_key(h) ==> indexed_by(
                s,
                seq,
                prompt,
                m,
                h,
                e[h],
            )
        }),
{
    lemma_published(s, seq, prompt, s.full_blocks(seq, prompt), i, h);
}

/// Whether an entry is that of one of the first `m` blocks of a sequence's prompt.
pub open spec fn indexed_by(
    s: CacheState,
    seq: u64,
    prompt: Seq<TokenId>,
    m: int,
    h: u64,
    entry: EntryState,
) -> bool {
    exists|j: int|
        0 <= j < m && (#[trigger] block_hash(prompt, s.unit(), j)).0 == h && entry.block
            == s.tables[seq].blocks[j] && entry.tokens == prompt_block(prompt, s.unit(), j)
}

proof fn lemma_published(s: CacheState, seq: u64, prompt: Seq<TokenId>, k: int, i: int, h: u64)
    ensures
        ({
            let e = s.publishing(seq, prompt, k).index.entries;
            &&& 0 <= i < k ==> e.contains_key(block_hash(prompt, s.unit(), i).0)
            &&& s.index.entries.contains_key(h) ==> e.contains_key(h) && e[h]
                == s.index.entries[h]
            &&& e.contains_key(h) && !s.index.entries.contains_key(h) ==> indexed_by(
                s,
                seq,
                prompt,
                k,
                h,
                e[h],
            )
        }),
    decreases k,
{
    if k > 0 {
        lemma_published(s, seq, prompt, k - 1, i, h);
        let e = s.publishing(seq, prompt, k).index.entries;
        let f = s.publishing(seq, prompt, k - 1).index.entries;
        if e.contains_key(h) && !s.index.entries.contains_key(h) {
            if f.contains_key(h) {
                let j = choose|j: int|
                    0 <= j < k - 1 && (#[trigger] block_hash(prompt, s.unit(), j)).0 == h
                        && f[h].block == s.tables[seq].blocks[j] && f[h].tokens == prompt_block(
                        prompt,
                        s.unit(),
                        j,
                    );
                assert(block_hash(prompt, s.unit(), j).0 == h);
                assert(e[h] == f[h]);
            } else {
                assert(block_hash(prompt, s.unit(), k - 1).0 == h);
            }
        }
    }
}

/// Of the free blocks with cached contents the one that has been free longest
/// loses them, and no other block changes.
pub proof fn law_the_oldest_cached_block_is_evicted(s: CacheState, k: int, other: BlockId)
    requires
        s.wf(),
        0 <= k < s.pool.free.len(),
        s.pool.block(s.pool.free[k]).hash is Some,
        forall|j: int| 0 <= j < k ==> s.pool.block(#[trigger] s.pool.free[j]).hash is None,
    ensures
        ({
            let e = s.evict_one();
            let id = s.pool.free[k];
            &&& e.pool.block(id).hash is None
            &&& e.pool.block(id).num_tokens == 0
            &&& e.pool.free == s.pool.free
            &&& e.tables == s.tables
            &&& other != id && s.pool.knows(other) ==> e.pool.block(other) == s.pool.block(other)
        }),
{
    assert forall|j: int| 0 <= j < k implies !#[trigger] s.pool.cached_at(j) by {
        assert(s.pool.block(s.pool.free[j]).hash is None);
    }
    assert(s.pool.oldest_cached_at(k));
    crate::kv_cache::laws::lemma_oldest_cached_unique(s.pool, k);
    assert(s.pool.knows(s.pool.free[k]));
}

/// Clearing takes every entry from the index, keeps its counters, and leaves the
/// tables, the free list and every referenced block.
pub proof fn law_clearing_forgets_every_entry(s: CacheState)
    ensures
        s.cleared().index.entries == Map::<u64, EntryState>::empty(),
        s.cleared().index.hits == s.index.hits,
        s.cleared().index.misses == s.index.misses,
        s.cleared().tables == s.tables,
        s.cleared().pool.free == s.pool.free,
        s.cleared().caching == s.caching,
{
    lemma_evicted_keeps(s, s.pool.evictable().len() as int);
}

proof fn lemma_evicted_keeps(s: CacheState, n: int)
    ensures
        s.evicted(n).tables == s.tables,
        s.evicted(n).pool.free == s.pool.free,
        s.evicted(n).caching == s.caching,
        s.evicted(n).index.hits == s.index.hits,
        s.evicted(n).index.misses == s.index.misses,
    decreases n,
{
    if n > 0 {
        lemma_evicted_keeps(s, n - 1);
    }
}

/// Evictions follow one another, each from what the one before it left.
pub proof fn law_evictions_follow_one_another(s: CacheState, n: int)
    requires
        n >= 0,
    ensures
        s.evicted(0) == s,
        s.evicted(n + 1) == s.evicted(n).evict_one(),
{
}

/// What can be evicted are the free blocks with cached contents, and no others.
pub proof fn law_free_cached_blocks_are_evictable(p: PoolState, k: int)
    ensures
        0 <= k < p.free.len() && p.block(p.free[k]).hash is Some ==> p.evictable().contains(
            p.free[k],
        ),
        0 <= k < p.evictable().len() ==> p.free.contains(p.evictable()[k]) && p.block(
            p.evictable()[k],
        ).hash is Some,
        p.evictable().len() <= p.free.len(),
{
    let cached = |id: BlockId| p.block(id).hash is Some;
    p.free.lemma_filter_len(cached);
    if 0 <= k < p.free.len() && p.block(p.free[k]).hash is Some {
        p.free.lemma_filter_contains(cached, k);
    }
    if 0 <= k < p.evictable().len() {
        p.free.lemma_filter_pred(cached, k);
        assert(p.free.filter(cached).contains(p.evictable()[k]));
        p.free.lemma_filter_contains_rev(cached, p.evictable()[k]);
    }
}

/// What is counted of references: a block's count is how often it stands in all
/// tables together, so a table that holds it once more has one more of them.
pub proof fn law_references_count_occurrences(blocks: Seq<BlockId>, last: BlockId, id: BlockId)
    ensures
        occurrences(seq![], id) == 0,
        last == id ==> occurrences(blocks.push(last), id) == occurrences(blocks, id) + 1,
        last != id ==> occurrences(blocks.push(last), id) == occurrences(blocks, id),
        references(Map::empty(), id) == 0,
{
    assert(blocks.push(last).drop_last() =~= blocks);
    assert(Map::<u64, crate::kv_cache::table::TableState>::empty().dom() =~= Set::<u64>::empty());
}

/// A new cache has no tables, an empty index that has counted nothing, and uses it as
/// it was told.
pub proof fn law_a_new_cache_is_empty(num_blocks: usize, block_size: usize, caching: bool)
    ensures
        ({
            let s = CacheState::initial(num_blocks, block_size, caching);
            &&& s.tables == Map::<u64, crate::kv_cache::table::TableState>::empty()
            &&& s.index.entries == Map::<u64, EntryState>::empty()
            &&& s.index.hits == 0
            &&& s.index.misses == 0
            &&& s.caching == caching
            &&& s.pool.blocks.len() == num_blocks
            &&& s.pool.free.len() == num_blocks
            &&& s.unit() == block_size
        }),
{
}

} // verus!
