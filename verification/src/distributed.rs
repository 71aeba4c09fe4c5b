//! Tensor-parallel partitioning: the arithmetic that decides how weights are
//! split over ranks.
//!
//! Each linear layer is split over the ranks, every rank holds a slice of the
//! weights, and a collective operation stitches the partial results back
//! together. Attention is split by head, so that each rank owns whole heads.

use crate::error::EngineError;
use crate::kv_cache::table::blocks_for;
use crate::text::{decimal, owned, push_count};
use crate::traits::ModelMetadata;
use vstd::prelude::*;
use vstd::string::*;

verus! {

/// How a weight matrix is split across ranks.
#[derive(Debug, Clone, Copy, PartialEq, Eq, Structural)]
pub enum ShardStrategy {
    /// Split the output dimension. Input is replicated; no collective needed
    /// before the next operation.
    ColumnParallel,
    /// Split the input dimension. Each rank produces a partial sum, requiring
    /// a sum over the ranks.
    RowParallel,
    /// Not split; every rank holds the full copy. For small tensors.
    Replicated,
}

/// A rank's position in the tensor-parallel group.
#[derive(Debug, Clone, Copy, PartialEq, Eq, Structural)]
pub struct Rank {
    pub index: usize,
    pub world_size: usize,
}

impl Rank {
    /// Whether this is a rank of a group.
    pub open spec fn wf(self) -> bool {
        self.index < self.world_size
    }

    pub fn new(index: usize, world_size: usize) -> (r: Result<Self, EngineError>)
        ensures
            match r {
                Ok(rank) => rank.wf() && rank == (Rank { index, world_size }),
                Err(e) => if world_size == 0 {
                    e.is_invalid_request("world_size must be at least 1"@)
                } else {
                    &&& index >= world_size
                    &&& e.is_invalid_request(
                        "rank "@ + decimal(index as nat) + " is out of range for world size "@
                            + decimal(world_size as nat),
                    )
                },
            },
    {
        if world_size == 0 {
            return Err(EngineError::InvalidRequest(owned("world_size must be at least 1")));
        }
        if index >= world_size {
            let mut m = owned("rank ");
            push_count(&mut m, index);
            m.append(" is out of range for world size ");
            push_count(&mut m, world_size);
            return Err(EngineError::InvalidRequest(m));
        }
        Ok(Rank { index, world_size })
    }

    /// A run on one device, which is the degenerate case of the same code path
    /// rather than a separate one.
    pub fn single() -> (r: Self)
        ensures
            r == (Rank { index: 0, world_size: 1 }),
            r.wf(),
    {
        Rank { index: 0, world_size: 1 }
    }

    pub fn is_distributed(&self) -> (r: bool)
        ensures
            r == (self.world_size > 1),
    {
        self.world_size > 1
    }

    /// Whether this rank does work that must not be duplicated, such as
    /// logging.
    pub fn is_leader(&self) -> (r: bool)
        ensures
            r == (self.index == 0),
    {
        self.index == 0
    }
}

/// The slice of a dimension one rank owns.
#[derive(Debug, Clone, Copy, PartialEq, Eq, Structural)]
pub struct Shard {
    pub start: usize,
    pub len: usize,
}

impl Shard {
    pub fn end(&self) -> (r: usize)
        requires
            self.start + self.len <= usize::MAX,
        ensures
            r == self.start + self.len,
    {
        self.start + self.len
    }

    pub fn is_empty(&self) -> (r: bool)
        ensures
            r == (self.len == 0),
    {
        self.len == 0
    }

    /// The slice of `total` that a rank owns where it splits evenly.
    pub open spec fn of(total: int, rank: Rank) -> (int, int) {
        let len = total / rank.world_size as int;
        (rank.index * len, len)
    }

    pub open spec fn is(self, slice: (int, int)) -> bool {
        self.start == slice.0 && self.len == slice.1
    }
}

/// Why a dimension cannot be split.
pub open spec fn uneven(total: usize, rank: Rank) -> Seq<char> {
    "cannot split "@ + decimal(total as nat) + " evenly across "@ + decimal(
        rank.world_size as nat,
    )
        + " ranks; tensor parallelism requires the dimension to be divisible by the world size"@
}

proof fn lemma_shard_fits(total: int, index: int, world: int)
    requires
        total >= 0,
        0 <= index < world,
    ensures
        0 <= total / world <= total,
        0 <= index * (total / world) <= total,
        index * (total / world) + total / world <= total,
{
    vstd::arithmetic::div_mod::lemma_fundamental_div_mod(total, world);
    vstd::arithmetic::div_mod::lemma_mod_bound(total, world);
    vstd::arithmetic::div_mod::lemma_div_pos_is_pos(total, world);
    let len = total / world;
    assert(0 <= index * len) by (nonlinear_arith)
        requires
            0 <= index,
            0 <= len,
    ;
    assert(index * len + len == (index + 1) * len) by (nonlinear_arith);
    assert((index + 1) * len <= world * len) by (nonlinear_arith)
        requires
            index + 1 <= world,
            0 <= len,
    ;
    assert(len <= world * len) by (nonlinear_arith)
        requires
            1 <= world,
            0 <= len,
    ;
}

/// Splits `total` elements across the ranks.
///
/// Requires exact divisibility rather than distributing a remainder: with
/// uneven shards the largest rank is a straggler that every collective waits
/// on.
pub fn shard_dimension(total: usize, rank: Rank) -> (r: Result<Shard, EngineError>)
    requires
        rank.wf(),
    ensures
        match r {
            Ok(shard) => total as int % rank.world_size as int == 0 && shard.is(
                Shard::of(total as int, rank),
            ),
            Err(e) => total as int % rank.world_size as int != 0 && e.is_invalid_request(
                uneven(total, rank),
            ),
        },
{
    if total % rank.world_size != 0 {
        let mut m = owned("cannot split ");
        push_count(&mut m, total);
        m.append(" evenly across ");
        push_count(&mut m, rank.world_size);
        m.append(
            " ranks; tensor parallelism requires the dimension to be divisible by the world size",
        );
        return Err(EngineError::InvalidRequest(m));
    }
    let len: usize = total / rank.world_size;
    proof {
        lemma_shard_fits(total as int, rank.index as int, rank.world_size as int);
    }
    Ok(Shard { start: rank.index * len, len })
}

/// How a model's weights are laid out across a tensor-parallel group.
#[derive(Debug, Clone, Copy, PartialEq, Eq, Structural)]
pub struct ParallelLayout {
    pub rank: Rank,
    /// Attention heads this rank owns.
    pub query_heads: Shard,
    /// KV heads this rank owns.
    pub kv_heads: Shard,
    /// Slice of the MLP intermediate dimension this rank owns.
    pub ffn: Shard,
}

/// Why a model has too few KV heads for the group.
pub open spec fn too_few_kv_heads(num_kv_heads: usize, world_size: usize) -> Seq<char> {
    "model has "@ + decimal(num_kv_heads as nat) + " KV heads but world size is "@ + decimal(
        world_size as nat,
    )
        + "; tensor parallelism beyond the KV head count would require replicating them, which is not implemented"@
}

impl ParallelLayout {
    /// Computes the layout for one rank, validating that the model can be split.
    ///
    /// Models with few KV heads cannot be split across more ranks than they
    /// have KV heads; that is reported as a configuration error.
    pub fn compute(meta: &ModelMetadata, rank: Rank, ffn_dim: usize) -> (r: Result<
        Self,
        EngineError,
    >)
        requires
            rank.wf(),
        ensures
            ({
                let heads = meta.num_attention_heads;
                let kv = meta.num_kv_heads;
                let n = rank.world_size;
                match r {
                    Ok(l) => {
                        &&& l.rank == rank
                        &&& if n > 1 {
                            &&& kv >= n
                            &&& heads as int % n as int == 0
                            &&& kv as int % n as int == 0
                            &&& ffn_dim as int % n as int == 0
                            &&& l.query_heads.is(Shard::of(heads as int, rank))
                            &&& l.kv_heads.is(Shard::of(kv as int, rank))
                            &&& l.ffn.is(Shard::of(ffn_dim as int, rank))
                        } else {
                            &&& l.query_heads.is((0, heads as int))
                            &&& l.kv_heads.is((0, kv as int))
                            &&& l.ffn.is((0, ffn_dim as int))
                        }
                    },
                    Err(e) => {
                        &&& n > 1
                        &&& if kv < n {
                            e.is_invalid_request(too_few_kv_heads(kv, n))
                        } else if heads as int % n as int != 0 {
                            e.is_invalid_request(uneven(heads, rank))
                        } else if kv as int % n as int != 0 {
                            e.is_invalid_request(uneven(kv, rank))
                        } else {
                            &&& ffn_dim as int % n as int != 0
                            &&& e.is_invalid_request(uneven(ffn_dim, rank))
                        }
                    },
                }
            }),
    {
        if !rank.is_distributed() {
            return Ok(
                ParallelLayout {
                    rank,
                    query_heads: Shard { start: 0, len: meta.num_attention_heads },
                    kv_heads: Shard { start: 0, len: meta.num_kv_heads },
                    ffn: Shard { start: 0, len: ffn_dim },
                },
            );
        }
        if meta.num_kv_heads < rank.world_size {
            let mut m = owned("model has ");
            push_count(&mut m, meta.num_kv_heads);
            m.append(" KV heads but world size is ");
            push_count(&mut m, rank.world_size);
            m.append(
                "; tensor parallelism beyond the KV head count would require replicating them, which is not implemented",
            );
            return Err(EngineError::InvalidRequest(m));
        }
        let query_heads = match shard_dimension(meta.num_attention_heads, rank) {
            Ok(s) => s,
            Err(e) => {
                return Err(e);
            },
        };
        let kv_heads = match shard_dimension(meta.num_kv_heads, rank) {
            Ok(s) => s,
            Err(e) => {
                return Err(e);
            },
        };
        let ffn = match shard_dimension(ffn_dim, rank) {
            Ok(s) => s,
            Err(e) => {
                return Err(e);
            },
        };
        Ok(ParallelLayout { rank, query_heads, kv_heads, ffn })
    }

    /// Hidden-dimension width this rank's attention output occupies.
    pub fn local_attention_dim(&self, head_dim: usize) -> (r: usize)
        requires
            self.query_heads.len * head_dim <= usize::MAX,
        ensures
            r == self.query_heads.len * head_dim,
    {
        self.query_heads.len * head_dim
    }

    /// Elements of keys and values that this rank holds per token.
    pub open spec fn local_kv_elements(&self, meta: ModelMetadata) -> int {
        2 * meta.num_layers * self.kv_heads.len * meta.head_dim
    }

    /// KV cache this rank holds per token, in bytes. Each rank stores only its
    /// own KV heads.
    pub fn local_kv_bytes_per_token(&self, meta: &ModelMetadata) -> (r: usize)
        requires
            2 * meta.num_layers <= usize::MAX,
            2 * meta.num_layers * self.kv_heads.len <= usize::MAX,
            self.local_kv_elements(*meta) * meta.dtype.width() <= usize::MAX,
        ensures
            r == blocks_for(self.local_kv_elements(*meta) * meta.dtype.width(), 8),
    {
        proof {
            crate::traits::lemma_factor_fits(
                2int,
                meta.num_layers as int,
                self.kv_heads.len as int,
                meta.head_dim as int,
                meta.dtype.width(),
            );
        }
        let elems: usize = 2 * meta.num_layers * self.kv_heads.len * meta.head_dim;
        meta.dtype.size_in_bytes(elems)
    }
}

/// The slices of all ranks together are the whole dimension, without gaps or
/// overlaps: each begins where the one before ends, the first at 0 and the
/// last ends at the total.
pub proof fn law_shards_partition_the_dimension(total: int, world_size: usize, index: usize)
    requires
        total >= 0,
        index < world_size,
        total % world_size as int == 0,
    ensures
        ({
            let s = Shard::of(total, Rank { index, world_size });
            &&& index == 0 ==> s.0 == 0
            &&& index == world_size - 1 ==> s.0 + s.1 == total
            &&& index < world_size - 1 ==> s.0 + s.1 == Shard::of(
                total,
                Rank { index: (index + 1) as usize, world_size },
            ).0
            &&& s.1 * world_size == total
        }),
{
    let n = world_size as int;
    let len = total / n;
    vstd::arithmetic::div_mod::lemma_fundamental_div_mod(total, n);
    assert(n * len == len * n) by (nonlinear_arith);
    assert(index * len + len == (index + 1) * len) by (nonlinear_arith);
    assert(0 * len == 0);
}

/// The KV cache that a rank holds shrinks with the number of ranks: together
/// they hold what one device would.
pub proof fn law_kv_cache_is_shared_out(meta: ModelMetadata, one: ParallelLayout, part: ParallelLayout, n: int)
    requires
        one.kv_heads.len == meta.num_kv_heads,
        part.kv_heads.len * n == meta.num_kv_heads,
    ensures
        one.local_kv_elements(meta) == meta.kv_elements(),
        part.local_kv_elements(meta) * n == meta.kv_elements(),
{
    let a = 2 * meta.num_layers;
    let k = part.kv_heads.len as int;
    let h = meta.head_dim as int;
    assert(a * k * h * n == a * (k * n) * h) by (nonlinear_arith);
}

/// The one-rank collectives: every one is a no-op or a copy.
///
/// This is the correct implementation for a group of one, and lets the same
/// code path serve runs on one and on several devices.
#[derive(Debug, Clone, Copy)]
pub struct SingleRank;

/// Why a collective of one rank cannot copy.
pub open spec fn sizes_differ(operation: Seq<char>, a: nat, b: nat) -> Seq<char> {
    operation + " on a single rank expects equal sizes, got "@ + decimal(a) + " and "@ + decimal(b)
}

/// Copies one buffer into another of the same size.
fn copy_all<T: Copy>(operation: &str, from: &[T], to: &mut [T]) -> (r: Result<(), EngineError>)
    ensures
        match r {
            Ok(()) => from@.len() == old(to)@.len() && final(to)@ == from@,
            Err(e) => {
                &&& from@.len() != old(to)@.len()
                &&& final(to)@ == old(to)@
                &&& e.is_internal(sizes_differ(operation@, from@.len(), old(to)@.len()))
            },
        },
{
    if from.len() != to.len() {
        let mut m = owned(operation);
        m.append(" on a single rank expects equal sizes, got ");
        push_count(&mut m, from.len());
        m.append(" and ");
        push_count(&mut m, to.len());
        return Err(EngineError::Internal(m));
    }
    let mut i: usize = 0;
    while i < from.len()
        invariant
            i <= from@.len(),
            from@.len() == to@.len(),
            forall|k: int| 0 <= k < i ==> to@[k] == from@[k],
        decreases from@.len() - i,
    {
        to[i] = from[i];
        i += 1;
    }
    proof {
        assert(to@ =~= from@);
    }
    Ok(())
}

impl SingleRank {
    pub fn rank(&self) -> (r: Rank)
        ensures
            r == (Rank { index: 0, world_size: 1 }),
    {
        Rank::single()
    }

    /// Summing across one rank leaves the buffer unchanged.
    pub fn all_reduce_sum<T>(&self, buffer: &mut [T]) -> (r: Result<(), EngineError>)
        ensures
            r is Ok,
            final(buffer)@ == old(buffer)@,
    {
        Ok(())
    }

    /// Concatenating one rank's slice is copying it.
    pub fn all_gather<T: Copy>(&self, local: &[T], out: &mut [T]) -> (r: Result<(), EngineError>)
        ensures
            match r {
                Ok(()) => local@.len() == old(out)@.len() && final(out)@ == local@,
                Err(e) => {
                    &&& local@.len() != old(out)@.len()
                    &&& final(out)@ == old(out)@
                    &&& e.is_internal(
                        sizes_differ("all_gather"@, local@.len(), old(out)@.len()),
                    )
                },
            },
    {
        copy_all("all_gather", local, out)
    }

    /// Summing across one rank and keeping its slice is copying it.
    pub fn reduce_scatter_sum<T: Copy>(&self, input: &[T], out: &mut [T]) -> (r: Result<
        (),
        EngineError,
    >)
        ensures
            match r {
                Ok(()) => input@.len() == old(out)@.len() && final(out)@ == input@,
                Err(e) => {
                    &&& input@.len() != old(out)@.len()
                    &&& final(out)@ == old(out)@
                    &&& e.is_internal(
                        sizes_differ("reduce_scatter"@, input@.len(), old(out)@.len()),
                    )
                },
            },
    {
        copy_all("reduce_scatter", input, out)
    }

    pub fn barrier(&self) -> (r: Result<(), EngineError>)
        ensures
            r is Ok,
    {
        Ok(())
    }
}

/// Estimates the communication volume of one forward pass, from the layer
/// structure.
#[derive(Debug, Clone, Copy, PartialEq, Eq, Structural)]
pub struct CommunicationEstimate {
    pub all_reduce_count: usize,
    pub bytes_per_token: usize,
}

impl CommunicationEstimate {
    /// What a ring sum over `world_size` ranks moves per rank: the buffer
    /// `2 (N - 1) / N` times, for each of the sums.
    pub open spec fn volume(count: int, buffer: int, world_size: int) -> int {
        count * buffer * (2 * (world_size - 1)) / world_size
    }

    /// Two sums per layer: one after attention's output projection, one after
    /// the MLP's down projection.
    pub fn for_model(meta: &ModelMetadata, world_size: usize) -> (r: Self)
        requires
            world_size > 1 ==> 2 * meta.num_layers <= usize::MAX,
            world_size > 1 ==> meta.hidden_size * meta.dtype.width() <= usize::MAX,
        ensures
            ({
                let count = 2 * meta.num_layers;
                let v = Self::volume(
                    count,
                    blocks_for(meta.hidden_size * meta.dtype.width(), 8),
                    world_size as int,
                );
                if world_size <= 1 {
                    r.all_reduce_count == 0 && r.bytes_per_token == 0
                } else {
                    &&& r.all_reduce_count == count
                    &&& r.bytes_per_token == if v <= usize::MAX {
                        v
                    } else {
                        usize::MAX as int
                    }
                }
            }),
    {
        if world_size <= 1 {
            return CommunicationEstimate { all_reduce_count: 0, bytes_per_token: 0 };
        }
        let count: usize = meta.num_layers * 2;
        let buffer: usize = meta.dtype.size_in_bytes(meta.hidden_size);
        proof {
            lemma_volume(count as int, buffer as int, world_size as int);
            crate::kv_cache::table::law_blocks_for_is_least(
                meta.hidden_size * meta.dtype.width(),
                8,
            );
            assert(0 <= count * buffer <= usize::MAX * usize::MAX) by (nonlinear_arith)
                requires
                    0 <= count <= usize::MAX,
                    0 <= buffer <= usize::MAX,
            ;
            assert(count * buffer <= usize::MAX * (usize::MAX / 4)) by (nonlinear_arith)
                requires
                    0 <= count <= usize::MAX,
                    0 <= buffer <= usize::MAX / 4,
            ;
            assert(usize::MAX <= u64::MAX);
            assert(usize::MAX * (usize::MAX / 4) <= u64::MAX * (u64::MAX / 4)) by (nonlinear_arith)
                requires
                    usize::MAX <= u64::MAX,
            ;
        }
        // Twice the data, less one share of it, rounded up.
        let doubled: u128 = 2 * (count as u128 * buffer as u128);
        let share: u128 = doubled / world_size as u128;
        let moved: u128 = if doubled % world_size as u128 == 0 {
            doubled - share
        } else {
            doubled - share - 1
        };
        let bytes_per_token: usize = if moved <= usize::MAX as u128 {
            moved as usize
        } else {
            usize::MAX
        };
        CommunicationEstimate { all_reduce_count: count, bytes_per_token }
    }
}

/// The volume is twice the data less one share of it, rounded up.
proof fn lemma_volume(count: int, buffer: int, n: int)
    requires
        count >= 0,
        buffer >= 0,
        n > 1,
    ensures
        ({
            let q = 2 * (count * buffer);
            &&& q >= 0
            &&& CommunicationEstimate::volume(count, buffer, n) == if q % n == 0 {
                q - q / n
            } else {
                q - q / n - 1
            }
            &&& q % n != 0 ==> q / n + 1 <= q
            &&& q / n <= q
        }),
{
    let p = count * buffer;
    let q = 2 * p;
    assert(0 <= p) by (nonlinear_arith)
        requires
            count >= 0,
            buffer >= 0,
            p == count * buffer,
    ;
    let d = q / n;
    let r = q % n;
    vstd::arithmetic::div_mod::lemma_fundamental_div_mod(q, n);
    vstd::arithmetic::div_mod::lemma_mod_bound(q, n);
    vstd::arithmetic::div_mod::lemma_div_pos_is_pos(q, n);
    let all = count * buffer * (2 * (n - 1));
    assert(all == q * n - q) by (nonlinear_arith)
        requires
            q == 2 * p,
            p == count * buffer,
            all == p * (2 * (n - 1)),
    ;
    assert(d <= n * d) by (nonlinear_arith)
        requires
            d >= 0,
            n >= 1,
    ;
    if r == 0 {
        assert(all == n * (q - d) + 0) by (nonlinear_arith)
            requires
                all == q * n - q,
                q == n * d,
        ;
        vstd::arithmetic::div_mod::lemma_fundamental_div_mod_converse(all, n, q - d, 0);
    } else {
        assert(all == n * (q - d - 1) + (n - r)) by (nonlinear_arith)
            requires
                all == q * n - q,
                q == n * d + r,
        ;
        vstd::arithmetic::div_mod::lemma_fundamental_div_mod_converse(all, n, q - d - 1, n - r);
    }
}

/// A rank's slice begins behind those of the ranks before it, and all slices are as
/// long as each other.
pub proof fn law_slices_follow_the_ranks(total: int, rank: Rank)
    requires
        rank.wf(),
        total >= 0,
        total % rank.world_size as int == 0,
    ensures
        Shard::of(total, rank).1 * rank.world_size == total,
        Shard::of(total, rank).0 == rank.index * Shard::of(total, rank).1,
        0 <= Shard::of(total, rank).0,
        Shard::of(total, rank).0 + Shard::of(total, rank).1 <= total,
{
    let n = rank.world_size as int;
    let len = total / n;
    let i = rank.index as int;
    vstd::arithmetic::div_mod::lemma_fundamental_div_mod(total, n);
    assert(len * n == total) by (nonlinear_arith)
        requires
            total == n * len + total % n,
            total % n == 0,
    ;
    assert(0 <= len) by (nonlinear_arith)
        requires
            len * n == total,
            total >= 0,
            n > 0,
    ;
    assert(0 <= i * len && i * len + len <= total) by (nonlinear_arith)
        requires
            0 <= i < n,
            0 <= len,
            len * n == total,
    ;
}

/// What is said of a model that cannot be split.
pub proof fn law_refused_splits_are_told(total: usize, rank: Rank)
    ensures
        uneven(total, rank) == "cannot split "@ + decimal(total as nat) + " evenly across "@
            + decimal(rank.world_size as nat)
            + " ranks; tensor parallelism requires the dimension to be divisible by the world size"@,
        too_few_kv_heads(total, rank.world_size) == "model has "@ + decimal(total as nat)
            + " KV heads but world size is "@ + decimal(rank.world_size as nat)
            + "; tensor parallelism beyond the KV head count would require replicating them, which is not implemented"@,
{
}

/// A ring sum moves the buffer twice for each sum, less one share of it each time:
/// the more ranks the more, and never all of it twice.
pub proof fn law_ring_sums_move_less_than_twice(count: int, buffer: int, world_size: int)
    requires
        count >= 0,
        buffer >= 0,
        world_size > 1,
    ensures
        CommunicationEstimate::volume(count, buffer, world_size) * world_size <= 2 * count * buffer
            * (world_size - 1),
        2 * count * buffer * (world_size - 1) < (CommunicationEstimate::volume(
            count,
            buffer,
            world_size,
        ) + 1) * world_size,
{
    let a = count * buffer * (2 * (world_size - 1));
    let v = a / world_size;
    assert(a == 2 * count * buffer * (world_size - 1)) by (nonlinear_arith)
        requires
            a == count * buffer * (2 * (world_size - 1)),
    ;
    vstd::arithmetic::div_mod::lemma_fundamental_div_mod(a, world_size);
    vstd::arithmetic::div_mod::lemma_mod_bound(a, world_size);
    assert(v * world_size <= a && a < (v + 1) * world_size) by (nonlinear_arith)
        requires
            a == world_size * v + a % world_size,
            0 <= a % world_size < world_size,
    ;
}

/// What is said of buffers that differ in size.
pub proof fn law_differing_sizes_are_told(operation: Seq<char>, a: nat, b: nat)
    ensures
        sizes_differ(operation, a, b) == operation
            + " on a single rank expects equal sizes, got "@ + decimal(a) + " and "@ + decimal(b),
{
}

} // verus!
