//! What holds of the KV cache as a whole.
//!
//! The operations keep the cache well formed and sound, free what they took,
//! and share exactly the full blocks of a common prefix.

use crate::id::{BlockId, TokenId};
use crate::kv_cache::block::{
    lemma_referenced_wf, lemma_released_wf, lemma_take_oldest_wf, lemma_with_contents_wf, BlockHash,
    PoolState,
};
use crate::kv_cache::model::{
    block_hash, lemma_occurrences_add, lemma_occurrences_contains, lemma_occurrences_push,
    lemma_references_insert, lemma_references_remove, lemma_references_replace,
    lemma_table_blocks_are_referenced, occurrences, prefix_hash, prompt_block, references,
    CacheState,
};
use crate::kv_cache::prefix::law_entries_are_counted;
use crate::kv_cache::table::{blocks_for, law_blocks_for_is_least, TableState};
use vstd::prelude::*;

verus! {

// ----- arithmetic of blocks -------------------------------------------------

pub proof fn lemma_unit_step(k: int, unit: int)
    ensures
        (k + 1) * unit == k * unit + unit,
        (k - 1) * unit == k * unit - unit,
        0 * unit == 0,
        unit >= 0 && k >= 0 ==> 0 <= k * unit,
{
    assert((k + 1) * unit == k * unit + unit) by (nonlinear_arith);
    assert((k - 1) * unit == k * unit - unit) by (nonlinear_arith);
    assert(unit >= 0 && k >= 0 ==> 0 <= k * unit) by (nonlinear_arith);
}

pub proof fn lemma_unit_monotone(a: int, b: int, unit: int)
    requires
        a <= b,
        unit >= 0,
    ensures
        a * unit <= b * unit,
{
    assert(a * unit <= b * unit) by (nonlinear_arith)
        requires
            a <= b,
            unit >= 0,
    ;
}

/// `k` full blocks and `rest` more tokens need `k` or `k + 1` blocks.
pub proof fn lemma_blocks_for_run(k: int, rest: int, unit: int)
    requires
        unit > 0,
        k >= 0,
        0 <= rest <= unit,
    ensures
        blocks_for(k * unit + rest, unit) == if rest == 0 {
            k
        } else {
            k + 1
        },
{
    let n = k * unit + rest;
    lemma_unit_step(k, unit);
    law_blocks_for_is_least(n, unit);
    let b = blocks_for(n, unit);
    let want = if rest == 0 {
        k
    } else {
        k + 1
    };
    assert(n <= want * unit);
    assert(b <= want);
    if b < want {
        lemma_unit_monotone(b, want - 1, unit);
        lemma_unit_step(want, unit);
        lemma_unit_step(k - 1, unit);
    }
}

// ----- keeping the cache well formed and sound --------------------------------

/// Blocks that nothing references stand in no table.
pub proof fn lemma_unreferenced_in_no_table(m: CacheState, id: BlockId, s: u64, i: int)
    requires
        m.wf(),
        m.pool.knows(id),
        m.pool.block(id).ref_count == 0,
        m.tables.contains_key(s),
        0 <= i < m.tables[s].blocks.len(),
    ensures
        m.tables[s].blocks[i] != id,
{
    lemma_table_blocks_are_referenced(m, s, i);
}

/// The cache after `seq`, whose blocks are all full, was given the oldest free
/// block for `len` more tokens.
pub open spec fn given_block(m: CacheState, seq: u64, len: usize) -> CacheState {
    let t = m.tables[seq];
    CacheState {
        tables: m.tables.insert(
            seq,
            TableState {
                blocks: t.blocks.push(m.pool.free[0]),
                num_tokens: (t.num_tokens + len) as usize,
            },
        ),
        ..m.recycle(len)
    }
}

/// Giving a sequence the oldest free block keeps the cache well formed and
/// sound.
pub proof fn lemma_given_block(m: CacheState, seq: u64, len: usize)
    requires
        m.wf(),
        m.tables.contains_key(seq),
        m.tables[seq].num_tokens == m.tables[seq].blocks.len() * m.unit(),
        m.pool.free.len() > 0,
        0 < len <= m.pool.block_size,
        m.tables[seq].num_tokens + len <= usize::MAX,
    ensures
        given_block(m, seq, len).wf(),
        m.sound() ==> given_block(m, seq, len).sound(),
{
    let g = given_block(m, seq, len);
    let t = m.tables[seq];
    let u = g.tables[seq];
    let id = m.pool.free[0];
    assert(m.pool.knows(id));
    assert(m.table_wf(t));
    lemma_take_oldest_wf(m.pool);
    lemma_with_contents_wf(m.pool.take_oldest(), id, len, None);
    lemma_blocks_for_run(t.blocks.len() as int, len as int, m.unit());
    assert(g.pool.blocks.len() == m.pool.blocks.len());
    assert forall|b: BlockId| #[trigger] g.pool.knows(b) implies g.pool.block(b).ref_count
        == references(g.tables, b) by {
        assert(m.pool.knows(b));
        lemma_references_replace(m.tables, seq, u, b);
        lemma_occurrences_push(t.blocks, id, b);
    }
    assert forall|s: u64| #[trigger] g.tables.contains_key(s) implies g.table_wf(g.tables[s]) by {
        assert(m.tables.contains_key(s));
        assert(m.table_wf(m.tables[s]));
        assert forall|i: int| 0 <= i < g.tables[s].blocks.len() implies g.pool.knows(
            #[trigger] g.tables[s].blocks[i],
        ) by {
            if i < m.tables[s].blocks.len() {
                assert(m.pool.knows(m.tables[s].blocks[i]));
            }
        }
    }
    assert forall|h: u64| #[trigger] g.index.entries.contains_key(h) implies g.pool.knows(
        g.index.entries[h].block,
    ) by {
        assert(m.index.entries.contains_key(h));
    }
    if m.sound() {
        assert forall|h: u64| #[trigger] g.index.entries.contains_key(h) implies {
            &&& g.pool.block(g.index.entries[h].block).hash == Some(BlockHash(h))
            &&& g.index.entries[h].tokens.len() == g.unit()
        } by {
            assert(m.index.entries.contains_key(h));
            assert(m.pool.knows(m.index.entries[h].block));
        }
        assert forall|b: BlockId| #[trigger] g.pool.knows(b) implies {
            &&& g.pool.block(b).hash is Some ==> g.pool.block(b).num_tokens == g.pool.block_size
            &&& g.pool.block(b).ref_count >= 2 ==> g.pool.block(b).hash is Some
        } by {
            assert(m.pool.knows(b));
        }
        assert forall|s: u64| #[trigger] g.tables.contains_key(s) implies g.filled(g.tables[s]) by {
            assert(m.tables.contains_key(s));
            assert(m.filled(m.tables[s]));
            assert(m.table_wf(m.tables[s]));
            assert forall|i: int| 0 <= i < g.tables[s].blocks.len() implies g.pool.block(
                #[trigger] g.tables[s].blocks[i],
            ).num_tokens == if (i + 1) * g.unit() <= g.tables[s].num_tokens {
                g.unit()
            } else {
                g.tables[s].num_tokens - i * g.unit()
            } by {
                lemma_unit_step(i, g.unit());
                if i < m.tables[s].blocks.len() {
                    lemma_unreferenced_in_no_table(m, id, s, i);
                    assert(m.pool.knows(m.tables[s].blocks[i]));
                    if s == seq {
                        lemma_unit_monotone(i + 1, t.blocks.len() as int, m.unit());
                    }
                } else {
                    assert(i == t.blocks.len());
                }
            }
        }
    }
}

/// A table holds a block at one position only, if the block has one reference.
proof fn lemma_single_occurrence(blocks: Seq<BlockId>, id: BlockId, i: int, j: int)
    requires
        occurrences(blocks, id) <= 1,
        0 <= i < j < blocks.len(),
        blocks[j] == id,
    ensures
        blocks[i] != id,
    decreases blocks.len(),
{
    let d = blocks.drop_last();
    if blocks[i] == id {
        assert(d[i] == id);
        assert(d.contains(id));
        lemma_occurrences_contains(d, id);
        if j < d.len() {
            assert(d[j] == id);
            lemma_single_occurrence(d, id, i, j);
        }
    }
}

/// Filling the last block by one token keeps the cache well formed and sound.
pub proof fn lemma_appended(s: CacheState, seq: u64)
    requires
        s.wf(),
        s.can_append(seq),
    ensures
        s.appended(seq).wf(),
        s.sound() ==> s.appended(seq).sound(),
{
    let t = s.tables[seq];
    let a = s.appended(seq);
    let n = t.blocks.len() as int;
    let unit = s.unit();
    assert(s.table_wf(t));
    law_blocks_for_is_least(t.num_tokens as int, unit);
    law_blocks_for_is_least(t.num_tokens + 1, unit);
    lemma_unit_step(n, unit);
    lemma_unit_step(n + 1, unit);
    if s.needs_block(seq) {
        if t.num_tokens + 1 <= n * unit {
            assert(blocks_for(t.num_tokens + 1, unit) <= n);
        }
        assert(t.num_tokens == n * unit);
        lemma_given_block(s, seq, 1);
        assert(a == given_block(s, seq, 1));
    } else {
        assert(t.num_tokens + 1 <= blocks_for(t.num_tokens + 1, unit) * unit);
        lemma_unit_monotone(blocks_for(t.num_tokens + 1, unit), n, unit);
        if n == 0 {
            assert(false);
        }
        let id = t.blocks[n - 1];
        let u = a.tables[seq];
        let filled = (t.num_tokens + 1 - (n - 1) * unit) as usize;
        assert(t.num_tokens >= (n - 1) * unit) by {
            if t.num_tokens < (n - 1) * unit {
                assert(blocks_for(t.num_tokens as int, unit) <= n - 1);
            }
        }
        assert(s.pool.knows(id));
        assert(t.blocks.last() == id);
        lemma_with_contents_wf(s.pool, id, filled, None);
        assert(blocks_for(t.num_tokens + 1, unit) == n) by {
            lemma_blocks_for_run(n - 1, filled as int, unit);
        }
        assert forall|b: BlockId| #[trigger] a.pool.knows(b) implies a.pool.block(b).ref_count
            == references(a.tables, b) by {
            assert(s.pool.knows(b));
            lemma_references_replace(s.tables, seq, u, b);
        }
        assert forall|x: u64| #[trigger] a.tables.contains_key(x) implies a.table_wf(
            a.tables[x],
        ) by {
            assert(s.tables.contains_key(x));
            assert(s.table_wf(s.tables[x]));
            assert forall|i: int| 0 <= i < a.tables[x].blocks.len() implies a.pool.knows(
                #[trigger] a.tables[x].blocks[i],
            ) by {
                assert(s.pool.knows(s.tables[x].blocks[i]));
            }
        }
        assert forall|h: u64| #[trigger] a.index.entries.contains_key(h) implies a.pool.knows(
            a.index.entries[h].block,
        ) by {
            assert(s.index.entries.contains_key(h));
        }
        if s.sound() {
            assert(s.filled(t));
            assert(s.pool.block(t.blocks[n - 1]).num_tokens < unit);
            assert(s.pool.block(id).hash is None);
            lemma_references_remove(s.tables, seq, id);
            assert(t.blocks.contains(id));
            lemma_occurrences_contains(t.blocks, id);
            assert forall|h: u64| #[trigger] a.index.entries.contains_key(h) implies {
                &&& a.pool.block(a.index.entries[h].block).hash == Some(BlockHash(h))
                &&& a.index.entries[h].tokens.len() == a.unit()
            } by {
                assert(s.index.entries.contains_key(h));
                assert(s.pool.knows(s.index.entries[h].block));
            }
            assert forall|b: BlockId| #[trigger] a.pool.knows(b) implies {
                &&& a.pool.block(b).hash is Some ==> a.pool.block(b).num_tokens
                    == a.pool.block_size
                &&& a.pool.block(b).ref_count >= 2 ==> a.pool.block(b).hash is Some
            } by {
                assert(s.pool.knows(b));
            }
            assert forall|x: u64| #[trigger] a.tables.contains_key(x) implies a.filled(
                a.tables[x],
            ) by {
                assert(s.tables.contains_key(x));
                assert(s.filled(s.tables[x]));
                assert(s.table_wf(s.tables[x]));
                assert forall|i: int| 0 <= i < a.tables[x].blocks.len() implies a.pool.block(
                    #[trigger] a.tables[x].blocks[i],
                ).num_tokens == if (i + 1) * a.unit() <= a.tables[x].num_tokens {
                    a.unit()
                } else {
                    a.tables[x].num_tokens - i * a.unit()
                } by {
                    let b = s.tables[x].blocks[i];
                    assert(s.pool.knows(b));
                    lemma_unit_step(i, unit);
                    if x != seq {
                        if b == id {
                            lemma_references_remove(s.tables.remove(seq), x, id);
                            assert(s.tables[x].blocks.contains(id));
                            lemma_occurrences_contains(s.tables[x].blocks, id);
                        }
                    } else if i < n - 1 {
                        lemma_single_occurrence(t.blocks, id, i, n - 1);
                        lemma_unit_monotone(i + 1, n - 1, unit);
                    }
                }
            }
        }
    }
}

// ----- admitting a prompt -------------------------------------------------------

/// The run of adopted blocks is exactly the longest one.
pub proof fn lemma_run(s: CacheState, prompt: Seq<TokenId>, k: int)
    requires
        s.unit() > 0,
        0 <= k,
        k * s.unit() <= prompt.len(),
    ensures
        k <= s.run_from(prompt, k),
        s.run_from(prompt, k) * s.unit() <= prompt.len(),
        !s.adoptable(prompt, s.run_from(prompt, k)),
        forall|j: int| k <= j < s.run_from(prompt, k) ==> #[trigger] s.adoptable(prompt, j),
    decreases prompt.len() - k * s.unit(),
{
    lemma_unit_step(k, s.unit());
    if s.adoptable(prompt, k) {
        lemma_run(s, prompt, k + 1);
    }
}

/// The blocks that are adopted, fewer than the prompt needs in all.
pub proof fn lemma_reused(s: CacheState, prompt: Seq<TokenId>)
    requires
        s.unit() > 0,
    ensures
        0 <= s.reused_blocks(prompt) <= s.blocks_of(prompt),
        s.reused_blocks(prompt) * s.unit() <= prompt.len(),
        forall|j: int| 0 <= j < s.reused_blocks(prompt) ==> #[trigger] s.adoptable(prompt, j),
{
    lemma_unit_step(0, s.unit());
    if s.caching {
        lemma_run(s, prompt, 0);
    }
    let r = s.reused_blocks(prompt);
    law_blocks_for_is_least(prompt.len() as int, s.unit());
    if s.blocks_of(prompt) < r {
        lemma_unit_monotone(s.blocks_of(prompt) + 1, r, s.unit());
        lemma_unit_step(s.blocks_of(prompt), s.unit());
        assert(prompt.len() >= (s.blocks_of(prompt) + 1) * s.unit());
    }
}

/// The cache while the first `k` blocks of `seq`'s prompt are adopted.
pub open spec fn adopted_so_far(s: CacheState, seq: u64, prompt: Seq<TokenId>, k: int) -> CacheState {
    CacheState {
        pool: s.pool_adopting(prompt, k),
        tables: s.tables.insert(
            seq,
            TableState {
                blocks: s.adopted_blocks(prompt, k),
                num_tokens: (k * s.unit()) as usize,
            },
        ),
        ..s
    }
}

/// Adopting blocks keeps the cache well formed and sound, and each one uses up
/// at most one free block.
pub proof fn lemma_adopted_so_far(s: CacheState, seq: u64, prompt: Seq<TokenId>, k: int)
    requires
        s.wf(),
        !s.tables.contains_key(seq),
        prompt.len() <= usize::MAX,
        0 <= k <= s.reused_blocks(prompt),
    ensures
        adopted_so_far(s, seq, prompt, k).wf(),
        s.sound() ==> adopted_so_far(s, seq, prompt, k).sound(),
        s.pool_adopting(prompt, k).block_size == s.pool.block_size,
        s.pool_adopting(prompt, k).blocks.len() == s.pool.blocks.len(),
        s.pool_adopting(prompt, k).free.len() + k >= s.pool.free.len(),
        s.pool_adopting(prompt, k).free.len() <= s.pool.free.len(),
    decreases k,
{
    let a = adopted_so_far(s, seq, prompt, k);
    let t = a.tables[seq];
    let unit = s.unit();
    lemma_unit_step(0, unit);
    lemma_reused(s, prompt);
    lemma_unit_monotone(k, s.reused_blocks(prompt), unit);
    lemma_unit_step(k, unit);
    if k == 0 {
        assert(t.blocks =~= seq![]);
        lemma_blocks_for_run(0, 0, unit);
        assert forall|b: BlockId| #[trigger] a.pool.knows(b) implies a.pool.block(b).ref_count
            == references(a.tables, b) by {
            assert(s.pool.knows(b));
            lemma_references_insert(s.tables, seq, t, b);
        }
        assert forall|x: u64| #[trigger] a.tables.contains_key(x) implies a.table_wf(
            a.tables[x],
        ) by {
            if x != seq {
                assert(s.tables.contains_key(x));
                assert(s.table_wf(s.tables[x]));
            }
        }
        if s.sound() {
            assert forall|x: u64| #[trigger] a.tables.contains_key(x) implies a.filled(
                a.tables[x],
            ) by {
                if x != seq {
                    assert(s.tables.contains_key(x));
                    assert(s.filled(s.tables[x]));
                }
            }
        }
    } else {
        lemma_adopted_so_far(s, seq, prompt, k - 1);
        let p = adopted_so_far(s, seq, prompt, k - 1);
        let id = s.cached_block(prompt, k - 1);
        assert(s.adoptable(prompt, k - 1));
        let h = block_hash(prompt, unit, k - 1);
        assert(s.index.entries.contains_key(h.0));
        assert(s.pool.knows(id));
        assert(p.pool.knows(id));
        lemma_referenced_wf(p.pool, id);
        if p.pool.block(id).ref_count == 0 {
            assert(p.pool.blocks[id.0 as int].id == id);
            let at = p.pool.free.index_of(id);
            assert(p.pool.free.contains(id));
            assert(p.pool.free[at] == id);
            p.pool.free.remove_ensures(at);
        }
        assert(t.blocks =~= p.tables[seq].blocks.push(id));
        assert(a.tables =~= p.tables.insert(seq, t));
        lemma_blocks_for_run(k, 0, unit);
        assert forall|b: BlockId| #[trigger] a.pool.knows(b) implies a.pool.block(b).ref_count
            == references(a.tables, b) by {
            assert(p.pool.knows(b));
            lemma_references_replace(p.tables, seq, t, b);
            lemma_occurrences_push(p.tables[seq].blocks, id, b);
        }
        assert forall|x: u64| #[trigger] a.tables.contains_key(x) implies a.table_wf(
            a.tables[x],
        ) by {
            assert(p.tables.contains_key(x));
            assert(p.table_wf(p.tables[x]));
            assert forall|i: int| 0 <= i < a.tables[x].blocks.len() implies a.pool.knows(
                #[trigger] a.tables[x].blocks[i],
            ) by {
                if i < p.tables[x].blocks.len() {
                    assert(p.pool.knows(p.tables[x].blocks[i]));
                }
            }
        }
        assert forall|x: u64| #[trigger] a.index.entries.contains_key(x) implies a.pool.knows(
            a.index.entries[x].block,
        ) by {
            assert(s.pool.knows(s.index.entries[x].block));
        }
        if s.sound() {
            assert forall|x: u64| #[trigger] a.index.entries.contains_key(x) implies {
                &&& a.pool.block(a.index.entries[x].block).hash == Some(BlockHash(x))
                &&& a.index.entries[x].tokens.len() == a.unit()
            } by {
                assert(p.index.entries.contains_key(x));
                assert(p.pool.knows(p.index.entries[x].block));
            }
            assert(p.index.entries.contains_key(h.0));
            assert forall|b: BlockId| #[trigger] a.pool.knows(b) implies {
                &&& a.pool.block(b).hash is Some ==> a.pool.block(b).num_tokens
                    == a.pool.block_size
                &&& a.pool.block(b).ref_count >= 2 ==> a.pool.block(b).hash is Some
            } by {
                assert(p.pool.knows(b));
            }
            assert forall|x: u64| #[trigger] a.tables.contains_key(x) implies a.filled(
                a.tables[x],
            ) by {
                assert(p.tables.contains_key(x));
                assert(p.filled(p.tables[x]));
                assert(p.table_wf(p.tables[x]));
                assert forall|i: int| 0 <= i < a.tables[x].blocks.len() implies a.pool.block(
                    #[trigger] a.tables[x].blocks[i],
                ).num_tokens == if (i + 1) * a.unit() <= a.tables[x].num_tokens {
                    a.unit()
                } else {
                    a.tables[x].num_tokens - i * a.unit()
                } by {
                    lemma_unit_step(i, unit);
                    if i < p.tables[x].blocks.len() {
                        assert(p.pool.knows(p.tables[x].blocks[i]));
                        if x == seq {
                            lemma_unit_monotone(i + 1, k - 1, unit);
                        }
                    }
                }
            }
        }
    }
}

/// The cache while the first `k` blocks of `seq`'s prompt have their place.
pub open spec fn placed_so_far(s: CacheState, seq: u64, prompt: Seq<TokenId>, k: int) -> CacheState {
    let run = s.reused_blocks(prompt);
    let mid = s.adopting(prompt).recycling(prompt, run, k);
    CacheState {
        tables: s.tables.insert(
            seq,
            TableState {
                blocks: s.adopted_blocks(prompt, run) + s.adopting(prompt).recycled_blocks(
                    prompt,
                    run,
                    k,
                ),
                num_tokens: if k * s.unit() <= prompt.len() {
                    (k * s.unit()) as usize
                } else {
                    prompt.len() as usize
                },
            },
        ),
        ..mid
    }
}

/// Looking up blocks changes no entry.
pub proof fn lemma_lookups_keep_entries(s: CacheState, k: int)
    ensures
        s.index_after_hits(k).entries == s.index.entries,
    decreases k,
{
    if k > 0 {
        lemma_lookups_keep_entries(s, k - 1);
    }
}

/// Being well formed and sound is no matter of the lookup counters.
proof fn lemma_counters_do_not_matter(a: CacheState, b: CacheState)
    requires
        a.wf(),
        a.pool == b.pool,
        a.tables == b.tables,
        a.index.entries == b.index.entries,
    ensures
        b.wf(),
        a.sound() ==> b.sound(),
{
    assert forall|x: u64| #[trigger] b.tables.contains_key(x) implies b.table_wf(b.tables[x]) by {
        assert(a.table_wf(a.tables[x]));
    }
    assert forall|id: BlockId| #[trigger] b.pool.knows(id) implies b.pool.block(id).ref_count
        == references(b.tables, id) by {
        assert(a.pool.knows(id));
    }
    assert forall|h: u64| #[trigger] b.index.entries.contains_key(h) implies b.pool.knows(
        b.index.entries[h].block,
    ) by {
        assert(a.index.entries.contains_key(h));
    }
    if a.sound() {
        assert forall|x: u64| #[trigger] b.tables.contains_key(x) implies b.filled(b.tables[x]) by {
            assert(a.tables.contains_key(x));
            assert(a.filled(a.tables[x]));
        }
        assert forall|h: u64| #[trigger] b.index.entries.contains_key(h) implies {
            &&& b.pool.block(b.index.entries[h].block).hash == Some(BlockHash(h))
            &&& b.index.entries[h].tokens.len() == b.unit()
        } by {
            assert(a.index.entries.contains_key(h));
        }
        assert forall|id: BlockId| #[trigger] b.pool.knows(id) implies {
            &&& b.pool.block(id).hash is Some ==> b.pool.block(id).num_tokens == b.pool.block_size
            &&& b.pool.block(id).ref_count >= 2 ==> b.pool.block(id).hash is Some
        } by {
            assert(a.pool.knows(id));
        }
    }
}

/// Placing a prompt keeps the cache well formed and sound at every block.
pub proof fn lemma_placed_so_far(s: CacheState, seq: u64, prompt: Seq<TokenId>, k: int)
    requires
        s.wf(),
        !s.tables.contains_key(seq),
        prompt.len() <= usize::MAX,
        s.blocks_of(prompt) <= s.pool.free.len(),
        s.reused_blocks(prompt) <= k <= s.blocks_of(prompt),
    ensures
        placed_so_far(s, seq, prompt, k).wf(),
        s.sound() ==> placed_so_far(s, seq, prompt, k).sound(),
        placed_so_far(s, seq, prompt, k).pool.block_size == s.pool.block_size,
        placed_so_far(s, seq, prompt, k).pool.blocks.len() == s.pool.blocks.len(),
        placed_so_far(s, seq, prompt, k).pool.free.len() + k >= s.pool.free.len(),
        placed_so_far(s, seq, prompt, k).pool.free.len() <= s.pool.free.len(),
        placed_so_far(s, seq, prompt, k).tables[seq].blocks.len() == k,
    decreases k,
{
    let run = s.reused_blocks(prompt);
    let unit = s.unit();
    let a = placed_so_far(s, seq, prompt, k);
    lemma_reused(s, prompt);
    lemma_unit_step(run, unit);
    if k == run {
        lemma_adopted_so_far(s, seq, prompt, run);
        lemma_lookups_keep_entries(s, run);
        let b = adopted_so_far(s, seq, prompt, run);
        assert(a.tables[seq].blocks =~= b.tables[seq].blocks);
        assert(a.tables =~= b.tables);
        lemma_counters_do_not_matter(b, a);
    } else {
        lemma_placed_so_far(s, seq, prompt, k - 1);
        let p = placed_so_far(s, seq, prompt, k - 1);
        lemma_unit_step(k, unit);
        lemma_unit_step(k - 1, unit);
        law_blocks_for_is_least(prompt.len() as int, unit);
        if prompt.len() <= (k - 1) * unit {
            assert(s.blocks_of(prompt) <= k - 1);
        }
        let len = prompt_block(prompt, unit, k - 1).len() as usize;
        assert(s.adopting(prompt).unit() == unit) by {
            lemma_adopted_so_far(s, seq, prompt, run);
        }
        lemma_given_block(p, seq, len);
        let g = given_block(p, seq, len);
        assert(a.tables[seq].blocks =~= g.tables[seq].blocks);
        assert(a.tables =~= g.tables);
        assert(a == g);
    }
}

/// Admitting a prompt keeps the cache well formed and sound, and uses up at
/// most as many free blocks as the prompt fills.
pub proof fn law_admission_is_safe(s: CacheState, seq: u64, prompt: Seq<TokenId>)
    requires
        s.wf(),
        !s.tables.contains_key(seq),
        prompt.len() <= usize::MAX,
        s.blocks_of(prompt) <= s.pool.free.len(),
    ensures
        s.admitted(seq, prompt).wf(),
        s.sound() ==> s.admitted(seq, prompt).sound(),
        s.admitted(seq, prompt).pool.free.len() + s.blocks_of(prompt) >= s.pool.free.len(),
        s.admitted(seq, prompt).pool.free.len() <= s.pool.free.len(),
        s.admitted(seq, prompt).tables[seq].blocks.len() == s.blocks_of(prompt),
{
    let n = s.blocks_of(prompt);
    lemma_reused(s, prompt);
    lemma_placed_so_far(s, seq, prompt, n);
    law_blocks_for_is_least(prompt.len() as int, s.unit());
    assert(placed_so_far(s, seq, prompt, n).tables[seq].num_tokens == prompt.len());
    assert(s.admitted(seq, prompt) == placed_so_far(s, seq, prompt, n));
}

// ----- publishing, releasing, evicting --------------------------------------------

/// Whether publishing `prompt` for `seq` tells the truth: its full blocks are
/// filled, none of them carries another hash, and a block that occurs twice
/// is meant under one hash.
pub open spec fn ready_to_commit(s: CacheState, seq: u64, prompt: Seq<TokenId>) -> bool {
    let t = s.tables[seq];
    let m = s.full_blocks(seq, prompt);
    &&& s.tables.contains_key(seq)
    &&& m * s.unit() <= t.num_tokens
    &&& forall|i: int|
        0 <= i < m ==> (#[trigger] s.pool.block(t.blocks[i])).hash is None || s.pool.block(
            t.blocks[i],
        ).hash == Some(block_hash(prompt, s.unit(), i))
    &&& forall|i: int, j: int|
        0 <= i < m && 0 <= j < m && #[trigger] t.blocks[i] == #[trigger] t.blocks[j] ==> block_hash(
            prompt,
            s.unit(),
            i,
        ) == block_hash(prompt, s.unit(), j)
}

/// The hash a block carries while the first `k` blocks are published.
pub proof fn lemma_published_hash(s: CacheState, seq: u64, prompt: Seq<TokenId>, k: int, i: int)
    requires
        s.wf(),
        ready_to_commit(s, seq, prompt),
        0 <= k <= s.full_blocks(seq, prompt),
        0 <= i < s.full_blocks(seq, prompt),
    ensures
        ({
            let now = s.publishing(seq, prompt, k).pool.block(s.tables[seq].blocks[i]).hash;
            now is None || now == Some(block_hash(prompt, s.unit(), i))
        }),
        s.publishing(seq, prompt, k).pool.blocks.len() == s.pool.blocks.len(),
    decreases k,
{
    let t = s.tables[seq];
    assert(s.table_wf(t));
    assert(s.pool.knows(t.blocks[i]));
    if k > 0 {
        lemma_published_hash(s, seq, prompt, k - 1, i);
        assert(s.pool.knows(t.blocks[k - 1]));
        if t.blocks[k - 1] == t.blocks[i] {
            assert(block_hash(prompt, s.unit(), k - 1) == block_hash(prompt, s.unit(), i));
        }
    } else {
        assert(s.pool.block(t.blocks[i]).hash is None || s.pool.block(t.blocks[i]).hash == Some(
            block_hash(prompt, s.unit(), i),
        ));
    }
}

/// Publishing keeps the cache well formed, and sound where it is called for a
/// prompt whose blocks it tells the truth about.
pub proof fn lemma_publishing(s: CacheState, seq: u64, prompt: Seq<TokenId>, k: int)
    requires
        s.wf(),
        s.sound(),
        ready_to_commit(s, seq, prompt),
        0 <= k <= s.full_blocks(seq, prompt),
    ensures
        s.publishing(seq, prompt, k).wf(),
        s.publishing(seq, prompt, k).sound(),
        s.publishing(seq, prompt, k).tables == s.tables,
        s.publishing(seq, prompt, k).pool.free == s.pool.free,
        s.publishing(seq, prompt, k).pool.block_size == s.pool.block_size,
        s.publishing(seq, prompt, k).pool.blocks.len() == s.pool.blocks.len(),
    decreases k,
{
    if k > 0 {
        lemma_publishing(s, seq, prompt, k - 1);
        let p = s.publishing(seq, prompt, k - 1);
        let a = s.publishing(seq, prompt, k);
        let t = s.tables[seq];
        let unit = s.unit();
        let id = t.blocks[k - 1];
        let h = block_hash(prompt, unit, k - 1);
        assert(p.tables.contains_key(seq));
        assert(p.table_wf(t));
        assert(p.pool.knows(t.blocks[k - 1]));
        lemma_published_hash(s, seq, prompt, k - 1, k - 1);
        lemma_with_contents_wf(p.pool, id, s.pool.block_size, Some(h));
        assert(p.filled(t));
        lemma_unit_monotone(k, s.full_blocks(seq, prompt), unit);
        assert(p.pool.block(t.blocks[k - 1]).num_tokens == unit);
        vstd::arithmetic::div_mod::lemma_fundamental_div_mod(prompt.len() as int, unit);
        vstd::arithmetic::div_mod::lemma_mod_bound(prompt.len() as int, unit);
        lemma_unit_step(k, unit);
        lemma_unit_step(k - 1, unit);
        lemma_unit_monotone(k, prompt.len() as int / unit, unit);
        assert(unit * (prompt.len() as int / unit) == (prompt.len() as int / unit) * unit)
            by (nonlinear_arith);
        assert(prompt_block(prompt, unit, k - 1).len() == unit);
        assert forall|b: BlockId| #[trigger] a.pool.knows(b) implies a.pool.block(b).ref_count
            == references(a.tables, b) by {
            assert(p.pool.knows(b));
        }
        assert forall|x: u64| #[trigger] a.tables.contains_key(x) implies a.table_wf(
            a.tables[x],
        ) by {
            assert(p.tables.contains_key(x));
            assert(p.table_wf(p.tables[x]));
            assert forall|i: int| 0 <= i < a.tables[x].blocks.len() implies a.pool.knows(
                #[trigger] a.tables[x].blocks[i],
            ) by {
                assert(p.pool.knows(p.tables[x].blocks[i]));
            }
        }
        assert forall|x: u64| #[trigger] a.index.entries.contains_key(x) implies a.pool.knows(
            a.index.entries[x].block,
        ) && a.pool.block(a.index.entries[x].block).hash == Some(BlockHash(x))
            && a.index.entries[x].tokens.len() == a.unit() by {
            if p.index.entries.contains_key(x) {
                assert(p.pool.knows(p.index.entries[x].block));
            }
        }
        assert forall|b: BlockId| #[trigger] a.pool.knows(b) implies {
            &&& a.pool.block(b).hash is Some ==> a.pool.block(b).num_tokens == a.pool.block_size
            &&& a.pool.block(b).ref_count >= 2 ==> a.pool.block(b).hash is Some
        } by {
            assert(p.pool.knows(b));
        }
        assert forall|x: u64| #[trigger] a.tables.contains_key(x) implies a.filled(
            a.tables[x],
        ) by {
            assert(p.tables.contains_key(x));
            assert(p.filled(p.tables[x]));
            assert(p.table_wf(p.tables[x]));
            assert forall|i: int| 0 <= i < a.tables[x].blocks.len() implies a.pool.block(
                #[trigger] a.tables[x].blocks[i],
            ).num_tokens == if (i + 1) * a.unit() <= a.tables[x].num_tokens {
                a.unit()
            } else {
                a.tables[x].num_tokens - i * a.unit()
            } by {
                assert(p.pool.knows(p.tables[x].blocks[i]));
            }
        }
    }
}

/// Publishing a prompt that the sequence's blocks really hold keeps the cache
/// sound.
pub proof fn law_commit_keeps_soundness(s: CacheState, seq: u64, prompt: Seq<TokenId>)
    requires
        s.wf(),
        s.sound(),
        ready_to_commit(s, seq, prompt),
    ensures
        s.committed(seq, prompt).wf(),
        s.committed(seq, prompt).sound(),
{
    if s.caching {
        vstd::arithmetic::div_mod::lemma_div_pos_is_pos(prompt.len() as int, s.unit());
        lemma_publishing(s, seq, prompt, s.full_blocks(seq, prompt));
    }
}

/// The blocks from position `i` on are the one there and those after it.
pub proof fn lemma_skip_one(blocks: Seq<BlockId>, i: int, id: BlockId)
    requires
        0 <= i < blocks.len(),
    ensures
        occurrences(blocks.skip(i), id) == occurrences(blocks.skip(i + 1), id) + if blocks[i] == id {
            1nat
        } else {
            0nat
        },
{
    let head = seq![blocks[i]];
    assert(blocks.skip(i) =~= head + blocks.skip(i + 1));
    lemma_occurrences_add(head, blocks.skip(i + 1), id);
    lemma_occurrences_push(seq![], blocks[i], id);
    assert(head =~= Seq::<BlockId>::empty().push(blocks[i]));
}

/// While the blocks of a sequence are released one by one, contents stay and
/// reference counts are what the remaining tables and blocks account for.
pub proof fn lemma_releasing(s: CacheState, seq: u64, k: int)
    requires
        s.wf(),
        s.tables.contains_key(seq),
        0 <= k <= s.tables[seq].blocks.len(),
    ensures
        ({
            let blocks = s.tables[seq].blocks;
            let p = s.pool_releasing(blocks, k);
            &&& p.wf()
            &&& p.block_size == s.pool.block_size
            &&& p.blocks.len() == s.pool.blocks.len()
            &&& forall|id: BlockId| #[trigger]
                s.pool.knows(id) ==> {
                    &&& p.block(id).ref_count == references(s.tables.remove(seq), id)
                        + occurrences(blocks.skip(k), id)
                    &&& p.block(id).hash == s.pool.block(id).hash
                    &&& p.block(id).num_tokens == s.pool.block(id).num_tokens
                }
        }),
    decreases k,
{
    let blocks = s.tables[seq].blocks;
    let rest = s.tables.remove(seq);
    let p = s.pool_releasing(blocks, k);
    if k == 0 {
        assert(blocks.skip(0) =~= blocks);
        assert forall|id: BlockId| #[trigger] s.pool.knows(id) implies p.block(id).ref_count
            == references(rest, id) + occurrences(blocks.skip(0), id) by {
            lemma_references_remove(s.tables, seq, id);
        }
    } else {
        lemma_releasing(s, seq, k - 1);
        let q = s.pool_releasing(blocks, k - 1);
        let id = blocks[k - 1];
        assert(s.table_wf(s.tables[seq]));
        assert(s.pool.knows(id));
        lemma_skip_one(blocks, k - 1, id);
        lemma_released_wf(q, id);
        assert forall|b: BlockId| #[trigger] s.pool.knows(b) implies p.block(b).ref_count
            == references(rest, b) + occurrences(blocks.skip(k), b) && p.block(b).hash
            == s.pool.block(b).hash && p.block(b).num_tokens == s.pool.block(b).num_tokens by {
            lemma_skip_one(blocks, k - 1, b);
        }
    }
}

/// Giving back blocks takes none from the free list.
pub proof fn lemma_releasing_frees(s: CacheState, blocks: Seq<BlockId>, k: int)
    requires
        0 <= k <= blocks.len(),
    ensures
        s.pool_releasing(blocks, k).free.len() >= s.pool.free.len(),
    decreases k,
{
    if k > 0 {
        lemma_releasing_frees(s, blocks, k - 1);
    }
}

/// Releasing a sequence keeps the cache well formed and sound.
pub proof fn law_free_is_safe(s: CacheState, seq: u64)
    requires
        s.wf(),
    ensures
        s.freed(seq).wf(),
        s.sound() ==> s.freed(seq).sound(),
{
    if s.tables.contains_key(seq) {
        let f = s.freed(seq);
        let blocks = s.tables[seq].blocks;
        lemma_releasing(s, seq, blocks.len() as int);
        assert(blocks.skip(blocks.len() as int) =~= seq![]);
        assert forall|b: BlockId| #[trigger] f.pool.knows(b) implies f.pool.block(b).ref_count
            == references(f.tables, b) by {
            assert(s.pool.knows(b));
        }
        assert forall|x: u64| #[trigger] f.tables.contains_key(x) implies f.table_wf(
            f.tables[x],
        ) by {
            assert(s.tables.contains_key(x));
            assert(s.table_wf(s.tables[x]));
            assert forall|i: int| 0 <= i < f.tables[x].blocks.len() implies f.pool.knows(
                #[trigger] f.tables[x].blocks[i],
            ) by {
                assert(s.pool.knows(s.tables[x].blocks[i]));
            }
        }
        assert forall|h: u64| #[trigger] f.index.entries.contains_key(h) implies f.pool.knows(
            f.index.entries[h].block,
        ) by {
            assert(s.index.entries.contains_key(h));
        }
        if s.sound() {
            assert forall|h: u64| #[trigger] f.index.entries.contains_key(h) implies {
                &&& f.pool.block(f.index.entries[h].block).hash == Some(BlockHash(h))
                &&& f.index.entries[h].tokens.len() == f.unit()
            } by {
                assert(s.index.entries.contains_key(h));
                assert(s.pool.knows(s.index.entries[h].block));
            }
            assert forall|b: BlockId| #[trigger] f.pool.knows(b) implies {
                &&& f.pool.block(b).hash is Some ==> f.pool.block(b).num_tokens
                    == f.pool.block_size
                &&& f.pool.block(b).ref_count >= 2 ==> f.pool.block(b).hash is Some
            } by {
                assert(s.pool.knows(b));
                lemma_references_remove(s.tables, seq, b);
            }
            assert forall|x: u64| #[trigger] f.tables.contains_key(x) implies f.filled(
                f.tables[x],
            ) by {
                assert(s.tables.contains_key(x));
                assert(s.filled(s.tables[x]));
                assert(s.table_wf(s.tables[x]));
                assert forall|i: int| 0 <= i < f.tables[x].blocks.len() implies f.pool.block(
                    #[trigger] f.tables[x].blocks[i],
                ).num_tokens == if (i + 1) * f.unit() <= f.tables[x].num_tokens {
                    f.unit()
                } else {
                    f.tables[x].num_tokens - i * f.unit()
                } by {
                    assert(s.pool.knows(s.tables[x].blocks[i]));
                }
            }
        }
    }
}

/// There is one oldest cached block.
pub proof fn lemma_oldest_cached_unique(p: PoolState, k: int)
    requires
        p.oldest_cached_at(k),
    ensures
        k == (choose|j: int| p.oldest_cached_at(j)),
{
    let j = choose|j: int| p.oldest_cached_at(j);
    assert(p.oldest_cached_at(j));
    if j < k {
        assert(!p.cached_at(j));
    } else if k < j {
        assert(!p.cached_at(k));
    }
}

proof fn lemma_filter_same(s: Seq<BlockId>, f: spec_fn(BlockId) -> bool, g: spec_fn(BlockId) -> bool)
    requires
        forall|i: int| 0 <= i < s.len() ==> f(#[trigger] s[i]) == g(s[i]),
    ensures
        s.filter(f) == s.filter(g),
    decreases s.len(),
{
    reveal(Seq::filter);
    if s.len() > 0 {
        assert forall|i: int| 0 <= i < s.drop_last().len() implies f(#[trigger] s.drop_last()[i])
            == g(s.drop_last()[i]) by {
            assert(s.drop_last()[i] == s[i]);
        }
        lemma_filter_same(s.drop_last(), f, g);
        assert(s.last() == s[s.len() - 1]);
    }
}

proof fn lemma_filter_less_one(
    s: Seq<BlockId>,
    f: spec_fn(BlockId) -> bool,
    g: spec_fn(BlockId) -> bool,
    at: int,
)
    requires
        0 <= at < s.len(),
        f(s[at]),
        !g(s[at]),
        forall|i: int| 0 <= i < s.len() && i != at ==> f(#[trigger] s[i]) == g(s[i]),
    ensures
        s.filter(g).len() + 1 == s.filter(f).len(),
    decreases s.len(),
{
    reveal(Seq::filter);
    let d = s.drop_last();
    assert(s.last() == s[s.len() - 1]);
    assert forall|i: int| 0 <= i < d.len() && i != at implies f(#[trigger] d[i]) == g(d[i]) by {
        assert(d[i] == s[i]);
    }
    if at == s.len() - 1 {
        lemma_filter_same(d, f, g);
    } else {
        lemma_filter_less_one(d, f, g, at);
    }
}

/// Where no free block is cached, nothing is evictable.
pub proof fn lemma_nothing_evictable(p: PoolState)
    requires
        forall|k: int| 0 <= k < p.free.len() ==> !#[trigger] p.cached_at(k),
    ensures
        p.evictable().len() == 0,
{
    let f = |id: BlockId| p.block(id).hash is Some;
    let g = |id: BlockId| false;
    assert forall|i: int| 0 <= i < p.free.len() implies f(#[trigger] p.free[i]) == g(p.free[i]) by {
        assert(!p.cached_at(i));
    }
    lemma_filter_same(p.free, f, g);
    lemma_filter_none(p.free, g);
}

proof fn lemma_filter_none(s: Seq<BlockId>, g: spec_fn(BlockId) -> bool)
    requires
        forall|id: BlockId| !#[trigger] g(id),
    ensures
        s.filter(g).len() == 0,
    decreases s.len(),
{
    reveal(Seq::filter);
    if s.len() > 0 {
        lemma_filter_none(s.drop_last(), g);
    }
}

/// One eviction keeps the cache well formed, leaves the free list alone and
/// uses up one evictable block.
pub proof fn lemma_evict_one(s: CacheState)
    requires
        s.wf(),
        exists|k: int| s.pool.oldest_cached_at(k),
    ensures
        s.evict_one().wf(),
        s.evict_one().pool.free == s.pool.free,
        s.evict_one().pool.evictable().len() + 1 == s.pool.evictable().len(),
{
    let k = choose|k: int| s.pool.oldest_cached_at(k);
    let id = s.pool.free[k];
    let e = s.evict_one();
    assert(s.pool.knows(id));
    assert(s.pool.cached_at(k));
    assert(e.pool.blocks.len() == s.pool.blocks.len());
    lemma_with_contents_wf(s.pool, id, 0, None);
    assert forall|b: BlockId| #[trigger] e.pool.knows(b) implies e.pool.block(b).ref_count
        == references(e.tables, b) by {
        assert(s.pool.knows(b));
    }
    assert forall|x: u64| #[trigger] e.tables.contains_key(x) implies e.table_wf(e.tables[x]) by {
        assert(s.table_wf(s.tables[x]));
        assert forall|i: int| 0 <= i < e.tables[x].blocks.len() implies e.pool.knows(
            #[trigger] e.tables[x].blocks[i],
        ) by {
            assert(s.pool.knows(s.tables[x].blocks[i]));
        }
    }
    assert forall|h: u64| #[trigger] e.index.entries.contains_key(h) implies e.pool.knows(
        e.index.entries[h].block,
    ) by {
        assert(s.index.entries.contains_key(h));
    }
    let f = |b: BlockId| s.pool.block(b).hash is Some;
    let g = |b: BlockId| e.pool.block(b).hash is Some;
    assert forall|i: int| 0 <= i < s.pool.free.len() && i != k implies f(#[trigger] s.pool.free[i])
        == g(s.pool.free[i]) by {
        assert(s.pool.free[i] != s.pool.free[k]);
    }
    lemma_filter_less_one(s.pool.free, f, g, k);
}

/// Forgetting the oldest cached contents keeps the cache sound.
pub proof fn law_eviction_is_safe(s: CacheState)
    requires
        s.wf(),
        s.sound(),
        exists|k: int| s.pool.oldest_cached_at(k),
    ensures
        s.evict_one().wf(),
        s.evict_one().sound(),
        s.evict_one().pool.free == s.pool.free,
{
    lemma_evict_one(s);
    let k = choose|k: int| s.pool.oldest_cached_at(k);
    let id = s.pool.free[k];
    let e = s.evict_one();
    assert(s.pool.knows(id));
    assert(s.pool.cached_at(k));
    assert forall|h: u64| #[trigger] e.index.entries.contains_key(h) implies {
        &&& e.pool.block(e.index.entries[h].block).hash == Some(BlockHash(h))
        &&& e.index.entries[h].tokens.len() == e.unit()
    } by {
        assert(s.index.entries.contains_key(h));
        assert(s.pool.knows(s.index.entries[h].block));
    }
    assert forall|b: BlockId| #[trigger] e.pool.knows(b) implies {
        &&& e.pool.block(b).hash is Some ==> e.pool.block(b).num_tokens == e.pool.block_size
        &&& e.pool.block(b).ref_count >= 2 ==> e.pool.block(b).hash is Some
    } by {
        assert(s.pool.knows(b));
    }
    assert forall|x: u64| #[trigger] e.tables.contains_key(x) implies e.filled(e.tables[x]) by {
        assert(s.tables.contains_key(x));
        assert(s.filled(s.tables[x]));
        assert(s.table_wf(s.tables[x]));
        assert forall|i: int| 0 <= i < e.tables[x].blocks.len() implies e.pool.block(
            #[trigger] e.tables[x].blocks[i],
        ).num_tokens == if (i + 1) * e.unit() <= e.tables[x].num_tokens {
            e.unit()
        } else {
            e.tables[x].num_tokens - i * e.unit()
        } by {
            assert(s.pool.knows(s.tables[x].blocks[i]));
            lemma_unreferenced_in_no_table(s, id, x, i);
        }
    }
}

/// An eviction takes from the index the entry of the block whose contents it
/// forgets, if there is one, and no other.
pub proof fn law_eviction_drops_one_entry(s: CacheState)
    requires
        s.wf(),
        s.sound(),
        exists|k: int| s.pool.oldest_cached_at(k),
    ensures
        ({
            let id = s.eviction_victim();
            let h = s.pool.block(id).hash->0;
            let e = s.evict_one().index.entries;
            if s.index.entries.contains_key(h.0) && s.index.entries[h.0].block == id {
                e == s.index.entries.remove(h.0) && e.len() + 1 == s.index.entries.len()
            } else {
                e == s.index.entries && forall|x: u64| #[trigger]
                    e.contains_key(x) ==> e[x].block != id
            }
        }),
{
    let k = choose|k: int| s.pool.oldest_cached_at(k);
    let id = s.eviction_victim();
    let h = s.pool.block(id).hash->0;
    assert(s.pool.cached_at(k));
    law_entries_are_counted(s.index, h, id, Seq::empty());
    assert forall|x: u64| #[trigger]
        s.index.entries.contains_key(x) && s.index.entries[x].block == id implies x == h.0 by {
        assert(s.pool.block(s.index.entries[x].block).hash == Some(BlockHash(x)));
    }
}

/// A fresh cache is sound.
pub proof fn law_initial_cache_is_sound(num_blocks: usize, block_size: usize, caching: bool)
    ensures
        CacheState::initial(num_blocks, block_size, caching).sound(),
{
}

// ----- what the cache promises ------------------------------------------------------

/// A block that is not full is never shared: at most one table holds it, and
/// the index does not name it.
pub proof fn law_partial_blocks_are_private(s: CacheState, id: BlockId)
    requires
        s.wf(),
        s.sound(),
        s.pool.knows(id),
        s.pool.block(id).num_tokens < s.pool.block_size,
    ensures
        references(s.tables, id) <= 1,
        forall|h: u64| #[trigger]
            s.index.entries.contains_key(h) ==> s.index.entries[h].block != id,
{
    assert forall|h: u64| #[trigger] s.index.entries.contains_key(h) implies
        s.index.entries[h].block != id by {
        assert(s.pool.knows(s.index.entries[h].block));
    }
}

/// Every block that a prompt adopts is full, carries the hash of the whole
/// prefix up to it, and is recorded with exactly the prompt's tokens.
pub proof fn law_adopted_blocks_match_the_prompt(s: CacheState, prompt: Seq<TokenId>, i: int)
    requires
        s.wf(),
        s.sound(),
        0 <= i < s.reused_blocks(prompt),
    ensures
        ({
            let id = s.cached_block(prompt, i);
            let h = block_hash(prompt, s.unit(), i);
            &&& s.pool.knows(id)
            &&& s.pool.block(id).num_tokens == s.pool.block_size
            &&& s.pool.block(id).hash == Some(h)
            &&& s.index.entries[h.0].tokens == prompt_block(prompt, s.unit(), i)
        }),
{
    lemma_reused(s, prompt);
    assert(s.adoptable(prompt, i));
    let h = block_hash(prompt, s.unit(), i);
    assert(s.index.entries.contains_key(h.0));
    assert(s.pool.knows(s.cached_block(prompt, i)));
}

/// The positions of the blocks without references.
spec fn unreferenced(p: PoolState) -> Set<int> {
    Set::new(|i: int| 0 <= i < p.blocks.len() && p.blocks[i].ref_count == 0)
}

/// As many blocks are free as there are blocks without references.
proof fn lemma_free_count(p: PoolState)
    requires
        p.wf(),
    ensures
        unreferenced(p).finite(),
        p.free.len() == unreferenced(p).len(),
{
    let s = p.free.map_values(|id: BlockId| id.0 as int);
    assert(s.no_duplicates()) by {
        assert forall|i: int, j: int| 0 <= i < s.len() && 0 <= j < s.len() && i != j implies s[i]
            != s[j] by {
            assert(p.free[i] != p.free[j]);
        }
    }
    s.unique_seq_to_set();
    assert(s.to_set() =~= unreferenced(p)) by {
        assert forall|x: int| s.to_set().contains(x) == unreferenced(p).contains(x) by {
            if s.to_set().contains(x) {
                let i = choose|i: int| 0 <= i < s.len() && s[i] == x;
                assert(p.knows(p.free[i]));
            }
            if unreferenced(p).contains(x) {
                assert(p.blocks[x].id == BlockId(x as u32));
                let i = p.free.index_of(BlockId(x as u32));
                assert(p.free[i] == BlockId(x as u32));
                assert(s[i] == x);
            }
        }
    }
}

/// Two caches whose tables reference every block equally often have equally
/// many free blocks.
proof fn lemma_same_references_same_free(a: CacheState, b: CacheState)
    requires
        a.wf(),
        b.wf(),
        a.tables == b.tables,
        a.pool.blocks.len() == b.pool.blocks.len(),
    ensures
        a.pool.free.len() == b.pool.free.len(),
{
    lemma_free_count(a.pool);
    lemma_free_count(b.pool);
    assert(unreferenced(a.pool) =~= unreferenced(b.pool)) by {
        assert forall|i: int| unreferenced(a.pool).contains(i) == unreferenced(b.pool).contains(
            i,
        ) by {
            if 0 <= i < a.pool.blocks.len() {
                let id = BlockId(i as u32);
                assert(a.pool.knows(id));
                assert(b.pool.knows(id));
                assert(a.pool.blocks[i].id == id);
            }
        }
    }
}

/// Admitting a prompt and releasing it again leaves as many free blocks, and
/// the same block tables, as before.
pub proof fn law_allocate_then_free_restores(s: CacheState, seq: u64, prompt: Seq<TokenId>)
    requires
        s.wf(),
        !s.tables.contains_key(seq),
        prompt.len() <= usize::MAX,
        s.blocks_of(prompt) <= s.pool.free.len(),
    ensures
        s.admitted(seq, prompt).freed(seq).tables == s.tables,
        s.admitted(seq, prompt).freed(seq).pool.free.len() == s.pool.free.len(),
{
    let a = s.admitted(seq, prompt);
    law_admission_is_safe(s, seq, prompt);
    law_free_is_safe(a, seq);
    let f = a.freed(seq);
    assert(f.tables =~= s.tables);
    lemma_releasing(a, seq, a.tables[seq].blocks.len() as int);
    lemma_reused(s, prompt);
    lemma_placed_so_far(s, seq, prompt, s.blocks_of(prompt));
    law_blocks_for_is_least(prompt.len() as int, s.unit());
    assert(a == placed_so_far(s, seq, prompt, s.blocks_of(prompt)));
    lemma_same_references_same_free(f, s);
}

/// The cache after `seq` grew by `n` tokens.
pub open spec fn grown(s: CacheState, seq: u64, n: int) -> CacheState
    decreases n,
{
    if n <= 0 {
        s
    } else {
        grown(s, seq, n - 1).appended(seq)
    }
}

proof fn lemma_grown(s: CacheState, seq: u64, n: int)
    requires
        s.wf(),
        s.tables.contains_key(seq),
        forall|i: int| 0 <= i < n ==> (#[trigger] grown(s, seq, i)).can_append(seq),
    ensures
        grown(s, seq, n).wf(),
        grown(s, seq, n).tables.contains_key(seq),
        grown(s, seq, n).tables.remove(seq) == s.tables.remove(seq),
        grown(s, seq, n).pool.blocks.len() == s.pool.blocks.len(),
    decreases n,
{
    if n > 0 {
        lemma_grown(s, seq, n - 1);
        let g = grown(s, seq, n - 1);
        assert(g.can_append(seq));
        lemma_appended(g, seq);
        assert(grown(s, seq, n).tables.remove(seq) =~= g.tables.remove(seq));
        let t = g.tables[seq];
        assert(g.table_wf(t));
        law_blocks_for_is_least(t.num_tokens + 1, g.unit());
        if g.needs_block(seq) {
            assert(g.pool.knows(g.pool.free[0]));
        } else {
            if t.blocks.len() == 0 {
                lemma_unit_monotone(
                    blocks_for(t.num_tokens + 1, g.unit()),
                    t.blocks.len() as int,
                    g.unit(),
                );
                lemma_unit_step(0, g.unit());
            }
            assert(g.pool.knows(t.blocks[t.blocks.len() - 1]));
        }
    }
}

/// Admitting a prompt, growing it by any number of tokens and releasing it
/// leaves as many free blocks, and the same block tables, as before.
pub proof fn law_allocate_grow_and_free_restores(
    s: CacheState,
    seq: u64,
    prompt: Seq<TokenId>,
    n: int,
)
    requires
        s.wf(),
        !s.tables.contains_key(seq),
        prompt.len() <= usize::MAX,
        s.blocks_of(prompt) <= s.pool.free.len(),
        forall|i: int|
            0 <= i < n ==> (#[trigger] grown(s.admitted(seq, prompt), seq, i)).can_append(seq),
    ensures
        grown(s.admitted(seq, prompt), seq, n).freed(seq).tables == s.tables,
        grown(s.admitted(seq, prompt), seq, n).freed(seq).pool.free.len() == s.pool.free.len(),
{
    let a = s.admitted(seq, prompt);
    law_admission_is_safe(s, seq, prompt);
    lemma_reused(s, prompt);
    lemma_placed_so_far(s, seq, prompt, s.blocks_of(prompt));
    assert(a.pool == placed_so_far(s, seq, prompt, s.blocks_of(prompt)).pool);
    lemma_grown(a, seq, n);
    let g = grown(a, seq, n);
    law_free_is_safe(g, seq);
    lemma_releasing(g, seq, g.tables[seq].blocks.len() as int);
    let f = g.freed(seq);
    assert(a.tables.remove(seq) =~= s.tables);
    assert(f.tables =~= s.tables);
    lemma_same_references_same_free(f, s);
}

/// Whether some sequence holds the block at that place of the pool.
pub open spec fn is_held(s: CacheState, at: int) -> bool {
    exists|q: u64| #[trigger]
        s.tables.contains_key(q) && s.tables[q].blocks.contains(BlockId(at as u32))
}

/// The places of the blocks that some sequence holds.
pub open spec fn held(s: CacheState) -> Set<int> {
    Set::new(|at: int| 0 <= at < s.pool.blocks.len() && is_held(s, at))
}

/// A block is referenced exactly if some table names it.
proof fn lemma_referenced_is_named(tables: Map<u64, TableState>, id: BlockId)
    requires
        tables.dom().finite(),
    ensures
        references(tables, id) > 0 <==> exists|q: u64| #[trigger]
            tables.contains_key(q) && tables[q].blocks.contains(id),
    decreases tables.dom().len(),
{
    if tables.dom().len() > 0 {
        let c = tables.dom().choose();
        assert(tables.dom().contains(c));
        let rest = tables.remove(c);
        assert(rest.dom() =~= tables.dom().remove(c));
        lemma_referenced_is_named(rest, id);
        lemma_occurrences_contains(tables[c].blocks, id);
        if exists|q: u64| #[trigger] rest.contains_key(q) && rest[q].blocks.contains(id) {
            let q = choose|q: u64| #[trigger]
                rest.contains_key(q) && rest[q].blocks.contains(id);
            assert(tables.contains_key(q) && tables[q].blocks.contains(id));
        }
        if exists|q: u64| #[trigger] tables.contains_key(q) && tables[q].blocks.contains(id) {
            let q = choose|q: u64| #[trigger]
                tables.contains_key(q) && tables[q].blocks.contains(id);
            if q != c {
                assert(rest.contains_key(q) && rest[q].blocks.contains(id));
            }
        }
        if tables[c].blocks.contains(id) {
            assert(tables.contains_key(c));
        }
    } else {
        assert forall|q: u64| !(#[trigger] tables.contains_key(q)) by {
            if tables.contains_key(q) {
                assert(tables.dom().contains(q));
                assert(tables.dom().remove(q).len() + 1 == tables.dom().len());
            }
        }
    }
}

/// No block leaks: the free blocks are all but those that some sequence holds,
/// each counted once however many hold it.
pub proof fn law_free_blocks_are_those_not_held(s: CacheState)
    requires
        s.wf(),
    ensures
        held(s).finite(),
        s.pool.free.len() + held(s).len() == s.pool.blocks.len(),
{
    let n = s.pool.blocks.len() as int;
    lemma_free_count(s.pool);
    let free = unreferenced(s.pool);
    let all = vstd::set_lib::set_int_range(0, n);
    vstd::set_lib::lemma_int_range(0, n);
    assert(all.difference(free) =~= held(s)) by {
        assert forall|at: int| 0 <= at < n implies (free.contains(at) <==> !held(s).contains(at)) by {
            let id = BlockId(at as u32);
            assert(s.pool.knows(id));
            lemma_referenced_is_named(s.tables, id);
        }
    }
    assert(free.union(held(s)) =~= all);
    assert(free.disjoint(held(s)));
    vstd::set_lib::lemma_set_disjoint_lens(free, held(s));
}

/// When no sequence holds a table, every block is free: nothing leaks.
pub proof fn law_nothing_held_means_all_free(s: CacheState)
    requires
        s.wf(),
        s.tables.dom().len() == 0,
    ensures
        s.pool.free.len() == s.pool.blocks.len(),
{
    lemma_free_count(s.pool);
    let all = vstd::set_lib::set_int_range(0, s.pool.blocks.len() as int);
    vstd::set_lib::lemma_int_range(0, s.pool.blocks.len() as int);
    assert(unreferenced(s.pool) =~= all) by {
        assert forall|i: int| all.contains(i) implies unreferenced(s.pool).contains(i) by {
            assert(s.pool.knows(BlockId(i as u32)));
        }
    }
}

/// Releasing twice is releasing once.
pub proof fn law_free_is_idempotent(s: CacheState, seq: u64)
    ensures
        s.freed(seq).freed(seq) == s.freed(seq),
        !s.freed(seq).tables.contains_key(seq),
{
}

/// The first `n` full blocks of two prompts with a common prefix have the same
/// tokens and hashes.
proof fn lemma_common_prefix(a: Seq<TokenId>, b: Seq<TokenId>, unit: int, n: int)
    requires
        unit > 0,
        0 <= n,
        n * unit <= a.len(),
        n * unit <= b.len(),
        a.take(n * unit) == b.take(n * unit),
    ensures
        prefix_hash(a, unit, n) == prefix_hash(b, unit, n),
        forall|i: int|
            0 <= i < n ==> #[trigger] prompt_block(a, unit, i) == prompt_block(b, unit, i),
        forall|i: int| 0 <= i < n ==> #[trigger] block_hash(a, unit, i) == block_hash(b, unit, i),
    decreases n,
{
    lemma_unit_step(n, unit);
    if n > 0 {
        lemma_unit_step(n - 1, unit);
        assert(a.take((n - 1) * unit) =~= a.take(n * unit).take((n - 1) * unit));
        assert(b.take((n - 1) * unit) =~= b.take(n * unit).take((n - 1) * unit));
        lemma_common_prefix(a, b, unit, n - 1);
        let x = prompt_block(a, unit, n - 1);
        let y = prompt_block(b, unit, n - 1);
        assert(x =~= y) by {
            assert forall|k: int| 0 <= k < x.len() implies x[k] == y[k] by {
                assert(x[k] == a.take(n * unit)[(n - 1) * unit + k]);
                assert(y[k] == b.take(n * unit)[(n - 1) * unit + k]);
            }
        }
        assert forall|i: int| 0 <= i < n implies #[trigger] block_hash(a, unit, i) == block_hash(
            b,
            unit,
            i,
        ) by {
            if i < n - 1 {
                assert(block_hash(a, unit, i) == block_hash(b, unit, i));
            }
        }
    }
}

/// Whether no other tokens are or come to be indexed under the hashes of the
/// prompt's first `n` blocks.
pub open spec fn free_of_collisions(s: CacheState, prompt: Seq<TokenId>, n: int) -> bool {
    &&& forall|i: int|
        0 <= i < n && s.index.entries.contains_key((#[trigger] block_hash(prompt, s.unit(), i)).0)
            ==> s.index.entries[block_hash(prompt, s.unit(), i).0].tokens == prompt_block(
            prompt,
            s.unit(),
            i,
        )
    &&& forall|i: int, j: int|
        0 <= i < n && 0 <= j < n && #[trigger] block_hash(prompt, s.unit(), i)
            == #[trigger] block_hash(prompt, s.unit(), j) ==> prompt_block(prompt, s.unit(), i)
            == prompt_block(prompt, s.unit(), j)
}

/// The blocks published so far are indexed with their tokens, and what is
/// indexed under the other hashes stays true.
proof fn lemma_published_is_indexed(s: CacheState, seq: u64, prompt: Seq<TokenId>, k: int, n: int)
    requires
        0 <= k <= n,
        free_of_collisions(s, prompt, n),
    ensures
        s.publishing(seq, prompt, k).pool.block_size == s.pool.block_size,
        s.publishing(seq, prompt, k).caching == s.caching,
        forall|i: int|
            0 <= i < n && (i < k || s.publishing(seq, prompt, k).index.entries.contains_key(
                block_hash(prompt, s.unit(), i).0,
            )) ==> #[trigger] s.publishing(seq, prompt, k).index.matches(
                block_hash(prompt, s.unit(), i),
                prompt_block(prompt, s.unit(), i),
            ),
    decreases k,
{
    if k == 0 {
        assert forall|i: int|
            0 <= i < n && s.index.entries.contains_key(
                block_hash(prompt, s.unit(), i).0,
            ) implies #[trigger] s.index.matches(
            block_hash(prompt, s.unit(), i),
            prompt_block(prompt, s.unit(), i),
        ) by {
            let h = block_hash(prompt, s.unit(), i);
        }
    } else {
        lemma_published_is_indexed(s, seq, prompt, k - 1, n);
        let p = s.publishing(seq, prompt, k - 1);
        let a = s.publishing(seq, prompt, k);
        let g = block_hash(prompt, s.unit(), k - 1);
        assert forall|i: int|
            0 <= i < n && (i < k || a.index.entries.contains_key(
                block_hash(prompt, s.unit(), i).0,
            )) implies #[trigger] a.index.matches(
            block_hash(prompt, s.unit(), i),
            prompt_block(prompt, s.unit(), i),
        ) by {
            let h = block_hash(prompt, s.unit(), i);
            if p.index.entries.contains_key(h.0) {
                assert(p.index.matches(h, prompt_block(prompt, s.unit(), i)));
            } else if i < k - 1 {
                assert(p.index.matches(h, prompt_block(prompt, s.unit(), i)));
            } else {
                assert(h.0 == g.0);
                assert(block_hash(prompt, s.unit(), i) == block_hash(prompt, s.unit(), k - 1));
            }
        }
    }
}

/// Adopting `k` blocks adds at most `k` references to any block.
proof fn lemma_adopting_adds_few(s: CacheState, prompt: Seq<TokenId>, k: int, id: BlockId)
    requires
        s.wf(),
        0 <= k,
        s.pool.knows(id),
        forall|j: int| 0 <= j < k ==> #[trigger] s.indexed(prompt, j),
        s.pool.block(id).ref_count + k <= u32::MAX,
    ensures
        s.pool_adopting(prompt, k).block(id).ref_count <= s.pool.block(id).ref_count + k,
        s.pool_adopting(prompt, k).blocks.len() == s.pool.blocks.len(),
    decreases k,
{
    if k > 0 {
        lemma_adopting_adds_few(s, prompt, k - 1, id);
        assert(s.indexed(prompt, k - 1));
        assert(s.index.entries.contains_key(block_hash(prompt, s.unit(), k - 1).0));
        assert(s.pool.knows(s.cached_block(prompt, k - 1)));
    }
}

/// A prompt whose first `n` blocks are indexed adopts at least those.
proof fn lemma_indexed_prefix_is_adopted(s: CacheState, prompt: Seq<TokenId>, n: int, k: int)
    requires
        s.wf(),
        0 <= k <= n,
        forall|j: int| 0 <= j < n ==> #[trigger] s.indexed(prompt, j),
        forall|id: BlockId| #[trigger]
            s.pool.knows(id) ==> s.pool.block(id).ref_count + n <= u32::MAX,
    ensures
        s.run_from(prompt, k) >= n,
    decreases n - k,
{
    lemma_unit_step(k, s.unit());
    if k < n {
        assert(s.indexed(prompt, k));
        assert(s.index.entries.contains_key(block_hash(prompt, s.unit(), k).0));
        let id = s.cached_block(prompt, k);
        assert(s.pool.knows(id));
        lemma_adopting_adds_few(s, prompt, k, id);
        assert(s.adoptable(prompt, k));
        lemma_indexed_prefix_is_adopted(s, prompt, n, k + 1);
    } else {
        if s.adoptable(prompt, k) {
            lemma_run(s, prompt, k);
        }
    }
}

/// Once a sequence has published its prompt, a prompt that begins with the
/// same `n` full blocks reuses at least those, unless hashes collide or a
/// reference count is exhausted.
pub proof fn law_published_prefix_is_reused(
    s: CacheState,
    seq: u64,
    prompt: Seq<TokenId>,
    other: Seq<TokenId>,
    n: int,
)
    requires
        s.wf(),
        s.caching,
        s.tables.contains_key(seq),
        0 <= n <= s.full_blocks(seq, prompt),
        n * s.unit() <= other.len(),
        prompt.take(n * s.unit()) == other.take(n * s.unit()),
        free_of_collisions(s, prompt, s.full_blocks(seq, prompt)),
        s.committed(seq, prompt).wf(),
        forall|id: BlockId| #[trigger]
            s.pool.knows(id) ==> s.pool.block(id).ref_count + n <= u32::MAX,
    ensures
        s.committed(seq, prompt).reused_blocks(other) >= n,
{
    let c = s.committed(seq, prompt);
    let m = s.full_blocks(seq, prompt);
    let unit = s.unit();
    vstd::arithmetic::div_mod::lemma_fundamental_div_mod(prompt.len() as int, unit);
    vstd::arithmetic::div_mod::lemma_mod_bound(prompt.len() as int, unit);
    lemma_unit_monotone(n, prompt.len() as int / unit, unit);
    assert(unit * (prompt.len() as int / unit) == (prompt.len() as int / unit) * unit)
        by (nonlinear_arith);
    lemma_published_is_indexed(s, seq, prompt, m, m);
    lemma_common_prefix(prompt, other, unit, n);
    assert forall|j: int| 0 <= j < n implies #[trigger] c.indexed(other, j) by {
        lemma_unit_monotone(j + 1, n, unit);
        assert(c.index.matches(block_hash(prompt, unit, j), prompt_block(prompt, unit, j)));
        assert(prompt_block(prompt, unit, j) == prompt_block(other, unit, j));
        assert(block_hash(prompt, unit, j) == block_hash(other, unit, j));
    }
    assert forall|id: BlockId| #[trigger] c.pool.knows(id) implies c.pool.block(id).ref_count + n
        <= u32::MAX by {
        lemma_publishing_keeps_references(s, seq, prompt, m, id);
    }
    lemma_indexed_prefix_is_adopted(c, other, n, 0);
}

/// Publishing changes no reference count.
proof fn lemma_publishing_keeps_references(
    s: CacheState,
    seq: u64,
    prompt: Seq<TokenId>,
    k: int,
    id: BlockId,
)
    requires
        s.wf(),
        s.tables.contains_key(seq),
        k <= s.full_blocks(seq, prompt),
    ensures
        s.publishing(seq, prompt, k).pool.blocks.len() == s.pool.blocks.len(),
        s.pool.knows(id) ==> s.publishing(seq, prompt, k).pool.block(id).ref_count
            == s.pool.block(id).ref_count,
    decreases k,
{
    if k > 0 {
        lemma_publishing_keeps_references(s, seq, prompt, k - 1, id);
        assert(s.table_wf(s.tables[seq]));
        assert(s.pool.knows(s.tables[seq].blocks[k - 1]));
    }
}

/// A prompt that was just admitted may be published as soon as it is computed:
/// doing so keeps the cache sound.
pub proof fn law_admitted_prompt_is_ready_to_commit(s: CacheState, seq: u64, prompt: Seq<TokenId>)
    requires
        s.wf(),
        s.sound(),
        !s.tables.contains_key(seq),
        prompt.len() <= usize::MAX,
        s.blocks_of(prompt) <= s.pool.free.len(),
    ensures
        ready_to_commit(s.admitted(seq, prompt), seq, prompt),
        s.admitted(seq, prompt).committed(seq, prompt).sound(),
{
    let a = s.admitted(seq, prompt);
    let n = s.blocks_of(prompt);
    let unit = s.unit();
    law_admission_is_safe(s, seq, prompt);
    lemma_reused(s, prompt);
    law_blocks_for_is_least(prompt.len() as int, unit);
    lemma_placed_so_far(s, seq, prompt, n);
    assert(a == placed_so_far(s, seq, prompt, n));
    let t = a.tables[seq];
    let m = a.full_blocks(seq, prompt);
    vstd::arithmetic::div_mod::lemma_fundamental_div_mod(prompt.len() as int, unit);
    vstd::arithmetic::div_mod::lemma_mod_bound(prompt.len() as int, unit);
    vstd::arithmetic::div_mod::lemma_div_pos_is_pos(prompt.len() as int, unit);
    assert(unit * (prompt.len() as int / unit) == (prompt.len() as int / unit) * unit)
        by (nonlinear_arith);
    lemma_unit_monotone(m, prompt.len() as int / unit, unit);
    assert forall|i: int| 0 <= i < m implies (#[trigger] a.pool.block(t.blocks[i])).hash is None
        || a.pool.block(t.blocks[i]).hash == Some(block_hash(prompt, unit, i)) by {
        lemma_placed_hashes(s, seq, prompt, n, i);
    }
    assert forall|i: int, j: int|
        0 <= i < m && 0 <= j < m && #[trigger] t.blocks[i] == #[trigger] t.blocks[j] implies block_hash(
        prompt,
        unit,
        i,
    ) == block_hash(prompt, unit, j) by {
        lemma_placed_hashes(s, seq, prompt, n, i);
        lemma_placed_hashes(s, seq, prompt, n, j);
        if i != j {
            if i < j {
                lemma_placed_twice(s, seq, prompt, n, i, j);
            } else {
                lemma_placed_twice(s, seq, prompt, n, j, i);
            }
        }
    }
    law_commit_keeps_soundness(a, seq, prompt);
}

/// Of the blocks placed so far, the adopted ones carry the prompt's hashes and
/// the recycled ones none.
proof fn lemma_placed_hashes(s: CacheState, seq: u64, prompt: Seq<TokenId>, k: int, i: int)
    requires
        s.wf(),
        s.sound(),
        !s.tables.contains_key(seq),
        prompt.len() <= usize::MAX,
        s.blocks_of(prompt) <= s.pool.free.len(),
        s.reused_blocks(prompt) <= k <= s.blocks_of(prompt),
        0 <= i < k,
    ensures
        ({
            let a = placed_so_far(s, seq, prompt, k);
            a.pool.block(a.tables[seq].blocks[i]).hash == if i < s.reused_blocks(prompt) {
                Some(block_hash(prompt, s.unit(), i))
            } else {
                None
            }
        }),
    decreases k,
{
    let run = s.reused_blocks(prompt);
    let a = placed_so_far(s, seq, prompt, k);
    lemma_reused(s, prompt);
    lemma_placed_so_far(s, seq, prompt, k);
    if k == run {
        law_adopted_blocks_match_the_prompt(s, prompt, i);
        let id = s.cached_block(prompt, i);
        lemma_adopting_keeps_hash(s, seq, prompt, run, id);
        assert(a.tables[seq].blocks[i] == id);
    } else {
        lemma_placed_so_far(s, seq, prompt, k - 1);
        let p = placed_so_far(s, seq, prompt, k - 1);
        let fresh = p.pool.free[0];
        assert(p.pool.knows(fresh));
        assert(a.tables[seq].blocks =~= p.tables[seq].blocks.push(fresh));
        if i < k - 1 {
            lemma_placed_hashes(s, seq, prompt, k - 1, i);
            lemma_unreferenced_in_no_table(p, fresh, seq, i);
            lemma_table_blocks_are_referenced(p, seq, i);
        }
    }
}

/// A block that is placed twice was adopted twice, under one hash.
proof fn lemma_placed_twice(s: CacheState, seq: u64, prompt: Seq<TokenId>, k: int, i: int, j: int)
    requires
        s.wf(),
        s.sound(),
        !s.tables.contains_key(seq),
        prompt.len() <= usize::MAX,
        s.blocks_of(prompt) <= s.pool.free.len(),
        s.reused_blocks(prompt) <= k <= s.blocks_of(prompt),
        0 <= i < j < k,
        ({
            let a = placed_so_far(s, seq, prompt, k);
            a.tables[seq].blocks[i] == a.tables[seq].blocks[j]
        }),
    ensures
        block_hash(prompt, s.unit(), i) == block_hash(prompt, s.unit(), j),
    decreases k,
{
    let run = s.reused_blocks(prompt);
    let a = placed_so_far(s, seq, prompt, k);
    lemma_reused(s, prompt);
    lemma_placed_so_far(s, seq, prompt, k);
    lemma_placed_hashes(s, seq, prompt, k, i);
    lemma_placed_hashes(s, seq, prompt, k, j);
    if j >= run {
        lemma_placed_so_far(s, seq, prompt, k - 1);
        let p = placed_so_far(s, seq, prompt, k - 1);
        let fresh = p.pool.free[0];
        assert(p.pool.knows(fresh));
        assert(a.tables[seq].blocks =~= p.tables[seq].blocks.push(fresh));
        if j == k - 1 {
            lemma_unreferenced_in_no_table(p, fresh, seq, i);
        } else {
            lemma_placed_twice(s, seq, prompt, k - 1, i, j);
        }
    }
}

/// Adopting changes no contents.
pub proof fn lemma_adopting_keeps_hash(
    s: CacheState,
    seq: u64,
    prompt: Seq<TokenId>,
    k: int,
    id: BlockId,
)
    requires
        s.wf(),
        s.pool.knows(id),
        0 <= k <= s.reused_blocks(prompt),
    ensures
        s.pool_adopting(prompt, k).block(id).hash == s.pool.block(id).hash,
        s.pool_adopting(prompt, k).blocks.len() == s.pool.blocks.len(),
    decreases k,
{
    if k > 0 {
        lemma_adopting_keeps_hash(s, seq, prompt, k - 1, id);
        lemma_reused(s, prompt);
        assert(s.adoptable(prompt, k - 1));
        assert(s.index.entries.contains_key(block_hash(prompt, s.unit(), k - 1).0));
        assert(s.pool.knows(s.cached_block(prompt, k - 1)));
    }
}

} // verus!
