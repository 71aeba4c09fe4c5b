//! Automatic prefix caching.
//!
//! When many requests share a leading prompt, recomputing that prefix's KV
//! entries per request is pure waste. This index lets a new sequence adopt
//! already-computed blocks instead. It stores the tokens of each cached block
//! and compares them on lookup, so a hash collision degrades to a miss rather
//! than to silent corruption.

use crate::id::{BlockId, TokenId};
use crate::kv_cache::block::BlockHash;
use crate::ratio::Ratio;
use std::collections::HashMap;
use vstd::prelude::*;

verus! {

broadcast use vstd::std_specs::hash::group_hash_axioms;

/// What a cached block covers.
#[derive(Debug)]
struct CacheEntry {
    block: BlockId,
    /// The exact tokens this block holds, kept for collision verification.
    tokens: Vec<TokenId>,
}

/// What the index knows of one cached block.
pub ghost struct EntryState {
    pub block: BlockId,
    pub tokens: Seq<TokenId>,
}

/// What the index holds: an entry per hash, and how often lookups hit and
/// missed.
pub ghost struct IndexState {
    pub entries: Map<u64, EntryState>,
    pub hits: u64,
    pub misses: u64,
}

impl View for CacheEntry {
    type V = EntryState;

    closed spec fn view(&self) -> EntryState {
        EntryState { block: self.block, tokens: self.tokens@ }
    }
}

/// Hash-indexed map from computed prefixes to physical blocks.
///
/// The index holds no references of its own: entries point at blocks whose
/// reference count may be zero. Such a block may be recycled at any time, at
/// which point [`PrefixCache::remove`] must be called to drop the stale entry.
/// The two counters wrap around at `u64::MAX`.
#[derive(Debug)]
pub struct PrefixCache {
    entries: HashMap<u64, CacheEntry>,
    hits: u64,
    misses: u64,
}

impl View for PrefixCache {
    type V = IndexState;

    closed spec fn view(&self) -> IndexState {
        IndexState {
            entries: self.entries@.map_values(|e: CacheEntry| e@),
            hits: self.hits,
            misses: self.misses,
        }
    }
}

impl IndexState {
    pub open spec fn empty() -> IndexState {
        IndexState { entries: Map::empty(), hits: 0, misses: 0 }
    }

    /// Whether a block is cached under `hash` that holds exactly `tokens`.
    pub open spec fn matches(self, hash: BlockHash, tokens: Seq<TokenId>) -> bool {
        self.entries.contains_key(hash.0) && self.entries[hash.0].tokens == tokens
    }

    /// Whether the entries can be counted.
    pub open spec fn wf(self) -> bool {
        self.entries.dom().finite()
    }

    /// Whether the entry for `hash` names `block`.
    pub open spec fn names(self, hash: BlockHash, block: BlockId) -> bool {
        self.entries.contains_key(hash.0) && self.entries[hash.0].block == block
    }

    /// The index after counting one lookup.
    pub open spec fn counted(self, hit: bool) -> IndexState {
        if hit {
            IndexState { hits: self.hits.wrapping_add(1), ..self }
        } else {
            IndexState { misses: self.misses.wrapping_add(1), ..self }
        }
    }

    /// The index with `block` published under `hash`, unless the hash is
    /// already taken.
    pub open spec fn published(
        self,
        hash: BlockHash,
        block: BlockId,
        tokens: Seq<TokenId>,
    ) -> IndexState {
        if self.entries.contains_key(hash.0) {
            self
        } else {
            IndexState {
                entries: self.entries.insert(hash.0, EntryState { block, tokens }),
                ..self
            }
        }
    }

    /// The index without the entry for `hash`, provided that it names `block`.
    pub open spec fn withdrawn(self, hash: BlockHash, block: BlockId) -> IndexState {
        if self.names(hash, block) {
            IndexState { entries: self.entries.remove(hash.0), ..self }
        } else {
            self
        }
    }
}

/// Whether two token runs are the same.
pub fn same_tokens(a: &[TokenId], b: &[TokenId]) -> (r: bool)
    ensures
        r == (a@ == b@),
{
    if a.len() != b.len() {
        return false;
    }
    let mut i: usize = 0;
    while i < a.len()
        invariant
            a@.len() == b@.len(),
            i <= a@.len(),
            forall|k: int| 0 <= k < i ==> a@[k] == b@[k],
        decreases a@.len() - i,
    {
        if a[i] != b[i] {
            return false;
        }
        i += 1;
    }
    proof {
        assert(a@ =~= b@);
    }
    true
}

impl PrefixCache {
    /// The entries of an index can be counted, whatever was done to it.
    proof fn lemma_wf(&self)
        ensures
            self@.wf(),
            self@.entries.dom() == self.entries@.dom(),
    {
        assert(self@.entries.dom() =~= self.entries@.dom());
    }

    pub fn new() -> (r: Self)
        ensures
            r@ == IndexState::empty(),
            r@.wf(),
    {
        let r = PrefixCache { entries: HashMap::new(), hits: 0, misses: 0 };
        proof {
            assert(r@.entries =~= Map::empty());
        }
        r
    }

    pub fn len(&self) -> (r: usize)
        ensures
            self@.wf(),
            r == self@.entries.len(),
    {
        proof {
            self.lemma_wf();
        }
        self.entries.len()
    }

    pub fn is_empty(&self) -> (r: bool)
        ensures
            self@.wf(),
            r == (self@.entries.len() == 0),
    {
        self.len() == 0
    }

    pub fn hits(&self) -> (r: u64)
        ensures
            r == self@.hits,
    {
        self.hits
    }

    pub fn misses(&self) -> (r: u64)
        ensures
            r == self@.misses,
    {
        self.misses
    }

    /// The share of lookups that hit; zero before any lookup.
    pub fn hit_rate(&self) -> (r: Ratio)
        requires
            self@.hits + self@.misses <= u64::MAX,
        ensures
            r == Ratio::spec_of(self@.hits, (self@.hits + self@.misses) as u64),
    {
        Ratio::of(self.hits, self.hits + self.misses)
    }

    /// Looks up a block by chained hash, verifying token equality.
    ///
    /// Records a hit or miss. Returns the physical block to adopt; the caller
    /// must take a reference to it via the pool before using it.
    pub fn lookup(&mut self, hash: BlockHash, tokens: &[TokenId]) -> (r: Option<BlockId>)
        ensures
            r == if old(self)@.matches(hash, tokens@) {
                Some(old(self)@.entries[hash.0].block)
            } else {
                None
            },
            final(self)@ == old(self)@.counted(old(self)@.matches(hash, tokens@)),
            old(self)@.wf(),
            final(self)@.wf(),
    {
        proof {
            self.lemma_wf();
        }
        let found: Option<BlockId> = match self.entries.get(&hash.0) {
            Some(entry) => {
                if same_tokens(entry.tokens.as_slice(), tokens) {
                    Some(entry.block)
                } else {
                    // Distinct token sequences reached the same digest: a miss
                    // rather than wrong KV data.
                    None
                }
            },
            None => None,
        };
        match found {
            Some(_) => {
                self.hits = self.hits.wrapping_add(1);
            },
            None => {
                self.misses = self.misses.wrapping_add(1);
            },
        }
        found
    }

    /// Looks up without recording statistics.
    pub fn peek(&self, hash: BlockHash) -> (r: Option<BlockId>)
        ensures
            r == if self@.entries.contains_key(hash.0) {
                Some(self@.entries[hash.0].block)
            } else {
                None
            },
    {
        match self.entries.get(&hash.0) {
            Some(entry) => Some(entry.block),
            None => None,
        }
    }

    /// Publishes a finished block under its hash.
    ///
    /// Only full blocks should be inserted: a partial block will still be
    /// written to. Re-inserting an existing hash keeps the first block.
    pub fn insert(&mut self, hash: BlockHash, block: BlockId, tokens: Vec<TokenId>)
        ensures
            final(self)@ == old(self)@.published(hash, block, tokens@),
            old(self)@.wf(),
            final(self)@.wf(),
            final(self)@.entries.len() == old(self)@.entries.len() + if old(
                self,
            )@.entries.contains_key(hash.0) {
                0int
            } else {
                1
            },
    {
        proof {
            self.lemma_wf();
            law_entries_are_counted(self@, hash, block, tokens@);
        }
        if !self.entries.contains_key(&hash.0) {
            self.entries.insert(hash.0, CacheEntry { block, tokens });
        }
        proof {
            assert(self@.entries =~= old(self)@.published(hash, block, tokens@).entries);
        }
    }

    /// Drops the entry for `hash`, if the block it names is still `block`.
    ///
    /// A block may have been evicted and its hash re-inserted by a different
    /// block in between; that live entry stays.
    pub fn remove(&mut self, hash: BlockHash, block: BlockId)
        ensures
            final(self)@ == old(self)@.withdrawn(hash, block),
            old(self)@.wf(),
            final(self)@.wf(),
            final(self)@.entries.len() == old(self)@.entries.len() - if old(self)@.names(
                hash,
                block,
            ) {
                1int
            } else {
                0
            },
    {
        proof {
            self.lemma_wf();
            law_entries_are_counted(self@, hash, block, Seq::empty());
        }
        let stale: bool = match self.entries.get(&hash.0) {
            Some(entry) => entry.block == block,
            None => false,
        };
        if stale {
            self.entries.remove(&hash.0);
        }
        proof {
            assert(self@.entries =~= old(self)@.withdrawn(hash, block).entries);
        }
    }

    /// Empties the index. Does not touch the pool.
    pub fn clear(&mut self)
        ensures
            final(self)@ == (IndexState { entries: Map::empty(), ..old(self)@ }),
            final(self)@.wf(),
    {
        self.entries.clear();
        proof {
            assert(self@.entries =~= Map::empty());
        }
    }

    /// Resets hit/miss counters without discarding cached blocks.
    pub fn reset_stats(&mut self)
        ensures
            final(self)@ == (IndexState { hits: 0, misses: 0, ..old(self)@ }),
            old(self)@.wf(),
            final(self)@.wf(),
    {
        proof {
            self.lemma_wf();
        }
        self.hits = 0;
        self.misses = 0;
    }
}

/// A lookup never answers with a block whose recorded tokens differ from the
/// ones asked for, whatever the hash.
pub proof fn law_collision_is_a_miss(index: IndexState, hash: BlockHash, tokens: Seq<TokenId>)
    requires
        index.entries.contains_key(hash.0),
        index.entries[hash.0].tokens != tokens,
    ensures
        !index.matches(hash, tokens),
{
}

/// Publishing a hash a second time leaves the index as it was.
pub proof fn law_first_publication_wins(
    index: IndexState,
    hash: BlockHash,
    first: BlockId,
    second: BlockId,
    tokens: Seq<TokenId>,
    other: Seq<TokenId>,
)
    ensures
        index.published(hash, first, tokens).published(hash, second, other) == index.published(
            hash,
            first,
            tokens,
        ),
{
}

/// A first publication adds one entry, and withdrawing a block that has one
/// takes one away; anything else leaves the number of entries as it was.
pub proof fn law_entries_are_counted(
    index: IndexState,
    hash: BlockHash,
    block: BlockId,
    tokens: Seq<TokenId>,
)
    requires
        index.wf(),
    ensures
        index.published(hash, block, tokens).wf(),
        index.published(hash, block, tokens).entries.len() == index.entries.len()
            + if index.entries.contains_key(hash.0) {
            0int
        } else {
            1
        },
        index.withdrawn(hash, block).wf(),
        index.withdrawn(hash, block).entries.len() == index.entries.len()
            - if index.names(hash, block) {
            1int
        } else {
            0
        },
{
    assert(index.entries.insert(hash.0, EntryState { block, tokens }).dom()
        =~= index.entries.dom().insert(hash.0));
    assert(index.entries.remove(hash.0).dom() =~= index.entries.dom().remove(hash.0));
}

/// A published block is found by its hash and tokens, if the hash was not
/// taken, and is gone once it is withdrawn.
pub proof fn law_publish_then_withdraw(
    index: IndexState,
    hash: BlockHash,
    block: BlockId,
    tokens: Seq<TokenId>,
)
    requires
        !index.entries.contains_key(hash.0),
    ensures
        index.published(hash, block, tokens).matches(hash, tokens),
        index.published(hash, block, tokens).withdrawn(hash, block) == index,
{
    assert(index.published(hash, block, tokens).withdrawn(hash, block).entries =~= index.entries);
}

} // verus!
