//! Strongly typed identifiers.
//!
//! A block index and a sequence number are both integers, and mixing them up
//! in a block table is very hard to notice, so each has a type of its own.

use crate::text::{decimal, push_decimal};
use vstd::prelude::*;
use vstd::string::*;

verus! {

/// A token id as produced by the tokenizer and consumed by the model.
pub type TokenId = u32;

/// Hands out identifiers in increasing order, wrapping after `u64::MAX`.
///
/// The first identifier is 1.
#[derive(Debug)]
pub struct IdCounter {
    upcoming: u64,
}

impl View for IdCounter {
    type V = u64;

    closed spec fn view(&self) -> u64 {
        self.upcoming
    }
}

impl IdCounter {
    /// A counter whose first identifier is 1.
    pub fn new() -> (r: Self)
        ensures
            r@ == 1,
    {
        IdCounter { upcoming: 1 }
    }

    /// Hands out the upcoming number and advances.
    fn advance(&mut self) -> (r: u64)
        ensures
            r == old(self)@,
            final(self)@ == old(self)@.wrapping_add(1),
    {
        let r: u64 = self.upcoming;
        self.upcoming = r.wrapping_add(1);
        r
    }
}

/// Identifies a client request for the whole of its lifetime.
#[derive(Debug, Clone, Copy, PartialEq, Eq, PartialOrd, Ord, Hash, Structural)]
pub struct RequestId(u64);

impl View for RequestId {
    type V = u64;

    closed spec fn view(&self) -> u64 {
        self.0
    }
}

impl RequestId {
    /// Allocates the next id of `counter`.
    pub fn next(counter: &mut IdCounter) -> (r: Self)
        ensures
            r@ == old(counter)@,
            final(counter)@ == old(counter)@.wrapping_add(1),
    {
        RequestId(counter.advance())
    }

    pub fn as_u64(self) -> (r: u64)
        ensures
            r == self@,
    {
        self.0
    }

    /// Constructs an id from a raw value.
    pub fn from_raw(v: u64) -> (r: Self)
        ensures
            r@ == v,
    {
        RequestId(v)
    }

    /// The id with a readable prefix, such as `req-7`.
    pub fn to_text(self) -> (r: String)
        ensures
            r@ == "req-"@ + decimal(self@ as nat),
    {
        let mut r = String::from_str("req-");
        push_decimal(&mut r, self.0);
        r
    }
}

/// Identifies one decoding sequence.
///
/// Distinct from [`RequestId`] because one request can fan out into several
/// sequences that share a prompt and therefore share KV blocks.
#[derive(Debug, Clone, Copy, PartialEq, Eq, PartialOrd, Ord, Hash, Structural)]
pub struct SequenceId(u64);

impl View for SequenceId {
    type V = u64;

    closed spec fn view(&self) -> u64 {
        self.0
    }
}

/// The text of a sequence id, such as `seq-7`.
pub open spec fn sequence_text(id: u64) -> Seq<char> {
    "seq-"@ + decimal(id as nat)
}

impl SequenceId {
    /// Allocates the next id of `counter`.
    pub fn next(counter: &mut IdCounter) -> (r: Self)
        ensures
            r@ == old(counter)@,
            final(counter)@ == old(counter)@.wrapping_add(1),
    {
        SequenceId(counter.advance())
    }

    pub fn as_u64(self) -> (r: u64)
        ensures
            r == self@,
    {
        self.0
    }

    pub fn from_raw(v: u64) -> (r: Self)
        ensures
            r@ == v,
    {
        SequenceId(v)
    }

    /// The id with a readable prefix, such as `seq-7`.
    pub fn to_text(self) -> (r: String)
        ensures
            r@ == sequence_text(self@),
    {
        let mut r = String::from_str("seq-");
        push_decimal(&mut r, self.0);
        r
    }
}

/// The sequence id with that number.
pub closed spec fn sequence_id(v: u64) -> SequenceId {
    SequenceId(v)
}

/// An id is determined by its number.
pub proof fn lemma_sequence_id(id: SequenceId)
    ensures
        sequence_id(id@) == id,
{
}

/// Index of a physical block in the KV cache pool.
///
/// A sequence addresses its cache through a block table of these, and the ids
/// need not be contiguous or ordered.
#[derive(Debug, Clone, Copy, PartialEq, Eq, PartialOrd, Ord, Hash, Structural)]
pub struct BlockId(pub u32);

/// The text of a block id, such as `blk-7`.
pub open spec fn block_text(id: BlockId) -> Seq<char> {
    "blk-"@ + decimal(id.0 as nat)
}

impl BlockId {
    pub fn index(self) -> (r: usize)
        ensures
            r == self.0,
    {
        self.0 as usize
    }

    /// The id with a readable prefix, such as `blk-7`.
    pub fn to_text(self) -> (r: String)
        ensures
            r@ == block_text(self),
    {
        let mut r = String::from_str("blk-");
        push_decimal(&mut r, self.0 as u64);
        r
    }
}

/// Ids handed out one after the other differ, and the later one is larger,
/// as long as the counter has not wrapped.
pub proof fn law_ids_are_unique_and_increasing(first: u64, second: u64)
    requires
        second == first.wrapping_add(1),
        first < u64::MAX,
    ensures
        first < second,
{
}

/// How ids are shown: the prefix of their kind and their number.
pub proof fn law_ids_are_shown_with_their_kind(n: u64, block: BlockId)
    ensures
        sequence_text(n) == "seq-"@ + decimal(n as nat),
        block_text(block) == "blk-"@ + decimal(block.0 as nat),
        sequence_id(n)@ == n,
{
}

} // verus!
