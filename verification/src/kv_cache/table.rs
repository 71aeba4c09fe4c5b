//! Per-sequence block tables and prefix hashing.
//!
//! A block table is the indirection that makes paging work: a sequence sees a
//! contiguous logical token space, while the physical blocks backing it may be
//! scattered anywhere in the pool.

use crate::id::{BlockId, TokenId};
use crate::kv_cache::block::BlockHash;
use vstd::arithmetic::div_mod::{
    lemma_fundamental_div_mod, lemma_mod_multiples_vanish, lemma_small_mod,
};
use vstd::prelude::*;

verus! {

/// Maps a sequence's logical block indices to physical blocks.
#[derive(Debug)]
pub struct BlockTable {
    /// Physical blocks in logical order. Index `i` covers logical tokens
    /// `i * block_size .. (i + 1) * block_size`.
    blocks: Vec<BlockId>,
    /// Tokens currently backed by these blocks.
    num_tokens: usize,
}

/// What a block table holds.
pub ghost struct TableState {
    pub blocks: Seq<BlockId>,
    pub num_tokens: usize,
}

impl View for BlockTable {
    type V = TableState;

    closed spec fn view(&self) -> TableState {
        TableState { blocks: self.blocks@, num_tokens: self.num_tokens }
    }
}

/// The number of blocks of `block_size` tokens that `num_tokens` tokens fill,
/// the last of them possibly in part.
pub open spec fn blocks_for(num_tokens: int, block_size: int) -> int {
    if num_tokens % block_size == 0 {
        num_tokens / block_size
    } else {
        num_tokens / block_size + 1
    }
}

/// [`blocks_for`] is the smallest number of blocks that holds the tokens.
pub proof fn law_blocks_for_is_least(num_tokens: int, block_size: int)
    requires
        num_tokens >= 0,
        block_size > 0,
    ensures
        blocks_for(num_tokens, block_size) >= 0,
        blocks_for(num_tokens, block_size) <= num_tokens,
        num_tokens <= blocks_for(num_tokens, block_size) * block_size,
        blocks_for(num_tokens, block_size) * block_size < num_tokens + block_size,
        forall|k: int|
            num_tokens <= #[trigger] (k * block_size) ==> blocks_for(num_tokens, block_size) <= k,
{
    let q = num_tokens / block_size;
    vstd::arithmetic::div_mod::lemma_fundamental_div_mod(num_tokens, block_size);
    vstd::arithmetic::div_mod::lemma_mod_bound(num_tokens, block_size);
    vstd::arithmetic::div_mod::lemma_div_pos_is_pos(num_tokens, block_size);
    assert(q * block_size == block_size * q) by (nonlinear_arith);
    assert((q + 1) * block_size == q * block_size + block_size) by (nonlinear_arith);
    assert(q <= q * block_size) by (nonlinear_arith)
        requires
            q >= 0,
            block_size >= 1,
    ;
    assert forall|k: int| num_tokens <= #[trigger] (k * block_size) implies blocks_for(
        num_tokens,
        block_size,
    ) <= k by {
        if k < blocks_for(num_tokens, block_size) {
            assert(k * block_size <= (blocks_for(num_tokens, block_size) - 1) * block_size)
                by (nonlinear_arith)
                requires
                    k <= blocks_for(num_tokens, block_size) - 1,
                    block_size > 0,
            ;
            assert((blocks_for(num_tokens, block_size) - 1) * block_size == blocks_for(
                num_tokens,
                block_size,
            ) * block_size - block_size) by (nonlinear_arith);
        }
    }
}

impl BlockTable {
    pub fn new() -> (r: Self)
        ensures
            r@ == (TableState { blocks: seq![], num_tokens: 0 }),
    {
        let r = BlockTable { blocks: Vec::new(), num_tokens: 0 };
        proof {
            assert(r@.blocks =~= seq![]);
        }
        r
    }

    pub fn blocks(&self) -> (r: &[BlockId])
        ensures
            r@ == self@.blocks,
    {
        self.blocks.as_slice()
    }

    pub fn num_blocks(&self) -> (r: usize)
        ensures
            r == self@.blocks.len(),
    {
        self.blocks.len()
    }

    pub fn num_tokens(&self) -> (r: usize)
        ensures
            r == self@.num_tokens,
    {
        self.num_tokens
    }

    pub fn is_empty(&self) -> (r: bool)
        ensures
            r == (self@.blocks.len() == 0),
    {
        self.blocks.len() == 0
    }

    /// Appends a physical block to the end of the table.
    pub fn push(&mut self, id: BlockId)
        ensures
            final(self)@ == (TableState { blocks: old(self)@.blocks.push(id), ..old(self)@ }),
    {
        self.blocks.push(id);
    }

    /// Sets the number of logically valid tokens.
    pub fn set_num_tokens(&mut self, n: usize)
        ensures
            final(self)@ == (TableState { num_tokens: n, ..old(self)@ }),
    {
        self.num_tokens = n;
    }

    /// Free slots in the blocks held, or `0` when the table is empty or full.
    pub fn slack(&self, block_size: usize) -> (r: usize)
        requires
            self@.blocks.len() * block_size <= usize::MAX,
        ensures
            r == if self@.blocks.len() * block_size >= self@.num_tokens {
                self@.blocks.len() * block_size - self@.num_tokens
            } else {
                0
            },
    {
        let capacity: usize = self.blocks.len() * block_size;
        capacity.saturating_sub(self.num_tokens)
    }

    /// Blocks needed to hold `num_tokens` in total.
    pub fn blocks_required(num_tokens: usize, block_size: usize) -> (r: usize)
        requires
            block_size > 0,
        ensures
            r == blocks_for(num_tokens as int, block_size as int),
    {
        let q: usize = num_tokens / block_size;
        proof {
            law_blocks_for_is_least(num_tokens as int, block_size as int);
        }
        if num_tokens % block_size == 0 {
            q
        } else {
            q + 1
        }
    }

    /// Additional blocks needed to grow to `target_tokens`.
    pub fn additional_blocks_for(&self, target_tokens: usize, block_size: usize) -> (r: usize)
        requires
            block_size > 0,
        ensures
            r == if blocks_for(target_tokens as int, block_size as int) >= self@.blocks.len() {
                blocks_for(target_tokens as int, block_size as int) - self@.blocks.len()
            } else {
                0
            },
    {
        Self::blocks_required(target_tokens, block_size).saturating_sub(self.blocks.len())
    }

    /// The physical block ids as `u32`, the layout the model backend consumes.
    pub fn to_raw(&self) -> (r: Vec<u32>)
        ensures
            r@ == self@.blocks.map_values(|b: BlockId| b.0),
    {
        let mut out: Vec<u32> = Vec::new();
        let mut i: usize = 0;
        while i < self.blocks.len()
            invariant
                i <= self.blocks.len(),
                out@.len() == i,
                forall|k: int| 0 <= k < i ==> #[trigger] out@[k] == self.blocks@[k].0,
            decreases self.blocks.len() - i,
        {
            out.push(self.blocks[i].0);
            i += 1;
        }
        proof {
            assert(out@ =~= self@.blocks.map_values(|b: BlockId| b.0));
        }
        out
    }

    /// Removes and returns every block, leaving the table empty.
    ///
    /// The caller is responsible for releasing the returned references to the
    /// pool.
    pub fn take_blocks(&mut self) -> (r: Vec<BlockId>)
        ensures
            r@ == old(self)@.blocks,
            final(self)@ == (TableState { blocks: seq![], num_tokens: 0 }),
    {
        self.num_tokens = 0;
        let r = self.blocks.split_off(0);
        proof {
            assert(r@ =~= old(self)@.blocks);
            assert(self@.blocks =~= seq![]);
        }
        r
    }

    /// Drops the trailing `n` blocks, returning them for release.
    pub fn truncate_blocks(&mut self, n: usize) -> (r: Vec<BlockId>)
        ensures
            ({
                let len = old(self)@.blocks.len() as int;
                let keep = if n <= len {
                    len - n
                } else {
                    0
                };
                &&& r@ == old(self)@.blocks.skip(keep)
                &&& final(self)@ == (TableState {
                    blocks: old(self)@.blocks.take(keep),
                    ..old(self)@
                })
            }),
    {
        let keep: usize = self.blocks.len().saturating_sub(n);
        let r = self.blocks.split_off(keep);
        proof {
            assert(r@ =~= old(self)@.blocks.skip(keep as int));
            assert(self@.blocks =~= old(self)@.blocks.take(keep as int));
        }
        r
    }
}

/// The chain start of a sequence's first block.
pub const ROOT_HASH: u64 = 0xcbf2_9ce4_8422_2325;

/// The multiplier of the mixing step.
const SEED: u64 = 0x51_7c_c1_b7_27_22_0a_95;

/// One mixing step: rotate the state left by five bits, fold in the value and
/// multiply.
pub open spec fn mixed(state: u64, value: u64) -> u64 {
    (((state << 5) | (state >> 59)) ^ value).wrapping_mul(0x51_7c_c1_b7_27_22_0a_95)
}

/// The state after mixing in every token in order.
pub open spec fn mixed_all(state: u64, tokens: Seq<TokenId>) -> u64
    decreases tokens.len(),
{
    if tokens.len() == 0 {
        state
    } else {
        mixed(mixed_all(state, tokens.drop_last()), tokens.last() as u64)
    }
}

/// The chained content hash of one block of tokens.
pub open spec fn chained_hash(parent: Option<BlockHash>, tokens: Seq<TokenId>) -> BlockHash {
    let start = match parent {
        Some(h) => h.0,
        None => ROOT_HASH,
    };
    BlockHash(mixed_all(mixed(start, tokens.len() as u64), tokens))
}

/// Computes the chained content hash of one block of tokens.
///
/// `parent` is the hash of the preceding block, or `None` for the first block
/// of a sequence. Chaining is what makes the hash identify a prefix rather
/// than a bag of tokens. Length is mixed in so that a short final block does
/// not coincide with a longer one sharing its leading tokens. This is not a
/// cryptographic hash: the prefix index compares tokens on every hit.
pub fn hash_block(parent: Option<BlockHash>, tokens: &[TokenId]) -> (r: BlockHash)
    ensures
        r == chained_hash(parent, tokens@),
{
    let start: u64 = match parent {
        Some(h) => h.0,
        None => ROOT_HASH,
    };
    let mut state: u64 = mix(start, tokens.len() as u64);
    let ghost first = state;
    let mut i: usize = 0;
    proof {
        assert(tokens@.take(0) =~= seq![]);
    }
    while i < tokens.len()
        invariant
            i <= tokens@.len(),
            state == mixed_all(first, tokens@.take(i as int)),
        decreases tokens@.len() - i,
    {
        proof {
            let now = tokens@.take(i + 1);
            assert(now.drop_last() =~= tokens@.take(i as int));
        }
        state = mix(state, tokens[i] as u64);
        i += 1;
    }
    proof {
        assert(tokens@.take(tokens@.len() as int) =~= tokens@);
    }
    BlockHash(state)
}

/// Multiplying by an odd number loses nothing: another multiplication takes it
/// back.
proof fn lemma_multiplied_back(x: u64)
    ensures
        x.wrapping_mul(0x51_7c_c1_b7_27_22_0a_95).wrapping_mul(0x2040_003d_7809_70bd) == x,
{
    let m: int = 0x1_0000_0000_0000_0000;
    let c: int = 0x517c_c1b7_2722_0a95;
    let d: int = 0x2040_003d_7809_70bd;
    let turns: int = 739706870995725965;
    assert(c * d == turns * m + 1);
    let k = x * c / m;
    lemma_fundamental_div_mod(x * c, m);
    assert(((x * c) % m) * d == x + m * (x * turns - k * d)) by (nonlinear_arith)
        requires
            c * d == turns * m + 1,
            x * c == m * k + (x * c) % m,
    ;
    lemma_mod_multiples_vanish(x * turns - k * d, x as int, m);
    lemma_small_mod(x as nat, m as nat);
}

/// A mixing step tells states apart, and values.
pub proof fn lemma_mixed_apart(a: u64, b: u64, x: u64, y: u64)
    ensures
        mixed(a, x) == mixed(b, x) ==> a == b,
        mixed(a, x) == mixed(a, y) ==> x == y,
{
    let ra = (a << 5) | (a >> 59);
    let rb = (b << 5) | (b >> 59);
    lemma_multiplied_back(ra ^ x);
    lemma_multiplied_back(rb ^ x);
    lemma_multiplied_back(ra ^ y);
    assert(ra ^ x == rb ^ x ==> ra == rb) by (bit_vector);
    assert(ra ^ x == ra ^ y ==> x == y) by (bit_vector);
    assert(((a << 5) | (a >> 59)) == ((b << 5) | (b >> 59)) ==> a == b) by (bit_vector);
}

/// Mixing in the same tokens keeps states apart.
proof fn lemma_mixed_all_apart(a: u64, b: u64, tokens: Seq<TokenId>)
    ensures
        mixed_all(a, tokens) == mixed_all(b, tokens) ==> a == b,
    decreases tokens.len(),
{
    if tokens.len() > 0 {
        let front = tokens.drop_last();
        lemma_mixed_all_apart(a, b, front);
        lemma_mixed_apart(
            mixed_all(a, front),
            mixed_all(b, front),
            tokens.last() as u64,
            tokens.last() as u64,
        );
    }
}

/// The same tokens behind different prefixes hash differently: with the same
/// tokens, the hashes of two blocks are equal exactly if those of the blocks
/// before them are.
pub proof fn law_hash_tells_prefixes_apart(p: BlockHash, q: BlockHash, tokens: Seq<TokenId>)
    ensures
        chained_hash(Some(p), tokens) == chained_hash(Some(q), tokens) <==> p == q,
{
    let len = tokens.len() as u64;
    lemma_mixed_all_apart(mixed(p.0, len), mixed(q.0, len), tokens);
    lemma_mixed_apart(p.0, q.0, len, len);
}

/// Another token in one place changes the hash of a block.
pub proof fn law_one_token_changes_the_hash(
    parent: Option<BlockHash>,
    tokens: Seq<TokenId>,
    at: int,
    other: TokenId,
)
    requires
        0 <= at < tokens.len(),
        tokens[at] != other,
    ensures
        chained_hash(parent, tokens) != chained_hash(parent, tokens.update(at, other)),
{
    let start = match parent {
        Some(h) => h.0,
        None => ROOT_HASH,
    };
    lemma_one_token_changes_the_state(mixed(start, tokens.len() as u64), tokens, at, other);
}

proof fn lemma_one_token_changes_the_state(
    state: u64,
    tokens: Seq<TokenId>,
    at: int,
    other: TokenId,
)
    requires
        0 <= at < tokens.len(),
        tokens[at] != other,
    ensures
        mixed_all(state, tokens) != mixed_all(state, tokens.update(at, other)),
    decreases tokens.len(),
{
    let changed = tokens.update(at, other);
    let front = tokens.drop_last();
    if at == tokens.len() - 1 {
        assert(changed.drop_last() =~= front);
        let s = mixed_all(state, front);
        lemma_mixed_apart(s, s, tokens.last() as u64, other as u64);
    } else {
        assert(changed.drop_last() =~= front.update(at, other));
        lemma_one_token_changes_the_state(state, front, at, other);
        lemma_mixed_apart(
            mixed_all(state, front),
            mixed_all(state, front.update(at, other)),
            tokens.last() as u64,
            tokens.last() as u64,
        );
    }
}

#[inline]
fn mix(state: u64, value: u64) -> (r: u64)
    ensures
        r == mixed(state, value),
{
    (((state << 5) | (state >> 59)) ^ value).wrapping_mul(SEED)
}

} // verus!
