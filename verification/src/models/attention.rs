//! Paged attention: where keys and values lie.
//!
//! The KV arena is a single flat allocation, indexed as
//!
//! ```text
//! [layer][block][k_or_v][slot_in_block][head][dim]
//! ```
//!
//! Layer is outermost because a forward pass touches all blocks of one layer
//! before moving to the next. Within a block, `slot` precedes `head` so that
//! the values of one head at one position are adjacent.

use crate::error::EngineError;
use crate::models::tensor::{lemma_row_range, Matrix, MatrixModel};
use crate::text::{decimal, owned, push_count};
use vstd::prelude::*;
use vstd::slice::slice_subrange;
use vstd::string::*;

verus! {

/// Flat storage for all keys and values across all layers and blocks.
///
/// Sized once at startup from the block count; it never grows.
#[derive(Debug)]
pub struct KvStore<T> {
    data: Vec<T>,
    num_layers: usize,
    num_blocks: usize,
    block_size: usize,
    num_kv_heads: usize,
    head_dim: usize,
}

/// The dimensions of a store.
pub ghost struct Shape {
    pub layers: int,
    pub blocks: int,
    pub slots: int,
    pub heads: int,
    pub dim: int,
}

/// What a store holds.
pub ghost struct StoreModel<T> {
    pub shape: Shape,
    pub data: Seq<T>,
}

/// A place of one head's vector.
pub ghost struct Place {
    pub layer: int,
    pub block: int,
    pub is_value: bool,
    pub slot: int,
    pub head: int,
}

impl Shape {
    /// The number of vectors: two for each layer, block, slot and head.
    pub open spec fn vectors(self) -> int {
        self.layers * self.blocks * 2 * self.slots * self.heads
    }

    pub open spec fn total(self) -> int {
        self.vectors() * self.dim
    }

    pub open spec fn has(self, p: Place) -> bool {
        &&& 0 <= p.layer < self.layers
        &&& 0 <= p.block < self.blocks
        &&& 0 <= p.slot < self.slots
        &&& 0 <= p.head < self.heads
    }

    /// The number of the vector at a place.
    pub open spec fn number(self, p: Place) -> int {
        (((p.layer * self.blocks + p.block) * 2 + (if p.is_value {
            1int
        } else {
            0
        })) * self.slots + p.slot) * self.heads + p.head
    }

    /// What is wrong with an access to a place with a vector of `len`
    /// elements.
    pub open spec fn complaint(self, p: Place, len: int) -> Option<Seq<char>> {
        if p.layer >= self.layers {
            Some(
                "layer "@ + decimal(p.layer as nat) + " out of range (have "@ + decimal(
                    self.layers as nat,
                ) + ")"@,
            )
        } else if p.block >= self.blocks {
            Some(
                "block "@ + decimal(p.block as nat) + " out of range (have "@ + decimal(
                    self.blocks as nat,
                ) + ")"@,
            )
        } else if p.slot >= self.slots {
            Some(
                "slot "@ + decimal(p.slot as nat) + " out of range (block holds "@ + decimal(
                    self.slots as nat,
                ) + ")"@,
            )
        } else if p.head >= self.heads {
            Some(
                "kv head "@ + decimal(p.head as nat) + " out of range (have "@ + decimal(
                    self.heads as nat,
                ) + ")"@,
            )
        } else if len != self.dim {
            Some(
                "vector length "@ + decimal(len as nat) + " does not match head_dim "@ + decimal(
                    self.dim as nat,
                ),
            )
        } else {
            None
        }
    }
}

impl<T> StoreModel<T> {
    pub open spec fn wf(self) -> bool {
        &&& self.shape.layers >= 0 && self.shape.blocks >= 0 && self.shape.slots >= 0
        &&& self.shape.heads >= 0 && self.shape.dim >= 0
        &&& self.data.len() == self.shape.total()
        &&& self.shape.total() <= usize::MAX
    }

    /// The vector with that number.
    pub open spec fn vector(self, number: int) -> Seq<T> {
        self.data.subrange(number * self.shape.dim, number * self.shape.dim + self.shape.dim)
    }

    pub open spec fn at(self, p: Place) -> Seq<T> {
        self.vector(self.shape.number(p))
    }
}

impl<T> View for KvStore<T> {
    type V = StoreModel<T>;

    closed spec fn view(&self) -> StoreModel<T> {
        StoreModel {
            shape: Shape {
                layers: self.num_layers as int,
                blocks: self.num_blocks as int,
                slots: self.block_size as int,
                heads: self.num_kv_heads as int,
                dim: self.head_dim as int,
            },
            data: self.data@,
        }
    }
}

/// One digit of a mixed-radix number.
proof fn lemma_digit(high: int, low: int, radix: int, bound: int)
    requires
        0 <= high < bound,
        0 <= low < radix,
    ensures
        0 <= high * radix + low < bound * radix,
        high <= high * radix + low,
        0 <= high * radix,
{
    assert(0 <= high * radix) by (nonlinear_arith)
        requires
            0 <= high,
            0 <= radix,
    ;
    assert(high <= high * radix) by (nonlinear_arith)
        requires
            0 <= high,
            1 <= radix,
    ;
    assert(high * radix + radix == (high + 1) * radix) by (nonlinear_arith);
    assert((high + 1) * radix <= bound * radix) by (nonlinear_arith)
        requires
            high + 1 <= bound,
            0 <= radix,
    ;
}

/// The digits of a mixed-radix number are determined by it.
proof fn lemma_digits_unique(a: int, b: int, c: int, d: int, radix: int)
    requires
        0 <= b < radix,
        0 <= d < radix,
        a * radix + b == c * radix + d,
    ensures
        a == c,
        b == d,
{
    if a < c {
        assert((a + 1) * radix <= c * radix) by (nonlinear_arith)
            requires
                a + 1 <= c,
                radix > 0,
        ;
        assert((a + 1) * radix == a * radix + radix) by (nonlinear_arith);
    } else if c < a {
        assert((c + 1) * radix <= a * radix) by (nonlinear_arith)
            requires
                c + 1 <= a,
                radix > 0,
        ;
        assert((c + 1) * radix == c * radix + radix) by (nonlinear_arith);
    }
}

/// A place's number is one of the store's vectors.
pub proof fn lemma_number(s: Shape, p: Place)
    requires
        s.has(p),
    ensures
        0 <= s.number(p) < s.vectors(),
        ({
            let a = p.layer * s.blocks + p.block;
            let b = a * 2 + (if p.is_value {
                1int
            } else {
                0
            });
            let c = b * s.slots + p.slot;
            &&& 0 <= p.layer * s.blocks <= a
            &&& 0 <= a * 2 <= b
            &&& 0 <= b * s.slots <= c
            &&& 0 <= c * s.heads <= s.number(p)
            &&& a <= b <= c <= s.number(p)
        }),
{
    let v = if p.is_value {
        1int
    } else {
        0
    };
    let a = p.layer * s.blocks + p.block;
    let b = a * 2 + v;
    let c = b * s.slots + p.slot;
    lemma_digit(p.layer, p.block, s.blocks, s.layers);
    lemma_digit(a, v, 2, s.layers * s.blocks);
    lemma_digit(b, p.slot, s.slots, s.layers * s.blocks * 2);
    lemma_digit(c, p.head, s.heads, s.layers * s.blocks * 2 * s.slots);
}

/// Different places have different vectors: layer, block, key or value, slot
/// and head are independent of each other.
pub proof fn law_places_are_independent(s: Shape, p: Place, q: Place)
    requires
        s.has(p),
        s.has(q),
        s.number(p) == s.number(q),
    ensures
        p == q,
{
    let v = if p.is_value {
        1int
    } else {
        0
    };
    let w = if q.is_value {
        1int
    } else {
        0
    };
    let a = p.layer * s.blocks + p.block;
    let b = a * 2 + v;
    let c = b * s.slots + p.slot;
    let x = q.layer * s.blocks + q.block;
    let y = x * 2 + w;
    let z = y * s.slots + q.slot;
    lemma_digits_unique(c, p.head, z, q.head, s.heads);
    lemma_digits_unique(b, p.slot, y, q.slot, s.slots);
    lemma_digits_unique(a, v, x, w, 2);
    lemma_digits_unique(p.layer, p.block, q.layer, q.block, s.blocks);
}

/// A vector lies inside the store, and different ones do not overlap.
proof fn lemma_vector_range(s: Shape, n: int)
    requires
        0 <= n < s.vectors(),
        s.dim >= 0,
    ensures
        0 <= n * s.dim,
        n * s.dim + s.dim <= s.total(),
        forall|m: int|
            0 <= m < s.vectors() && m != n ==> (#[trigger] (m * s.dim)) + s.dim <= n * s.dim || n
                * s.dim + s.dim <= m * s.dim,
{
    assert(0 <= n * s.dim) by (nonlinear_arith)
        requires
            0 <= n,
            0 <= s.dim,
    ;
    assert((n + 1) * s.dim == n * s.dim + s.dim) by (nonlinear_arith);
    assert((n + 1) * s.dim <= s.vectors() * s.dim) by (nonlinear_arith)
        requires
            n + 1 <= s.vectors(),
            0 <= s.dim,
    ;
    assert forall|m: int| 0 <= m < s.vectors() && m != n implies (#[trigger] (m * s.dim)) + s.dim
        <= n * s.dim || n * s.dim + s.dim <= m * s.dim by {
        assert((m + 1) * s.dim == m * s.dim + s.dim) by (nonlinear_arith);
        if m < n {
            assert((m + 1) * s.dim <= n * s.dim) by (nonlinear_arith)
                requires
                    m + 1 <= n,
                    0 <= s.dim,
            ;
        } else {
            assert((n + 1) * s.dim <= m * s.dim) by (nonlinear_arith)
                requires
                    n + 1 <= m,
                    0 <= s.dim,
            ;
        }
    }
}

/// The partial products of a product of positive numbers fit where it does.
proof fn lemma_products_fit(a: int, b: int, c: int, d: int, e: int)
    requires
        a >= 1,
        b >= 1,
        c >= 1,
        d >= 1,
        e >= 1,
    ensures
        1 <= a * b <= a * b * 2 <= a * b * 2 * c <= a * b * 2 * c * d <= a * b * 2 * c * d * e,
{
    lemma_grows(a, b);
    lemma_grows(a * b, 2);
    lemma_grows(a * b * 2, c);
    lemma_grows(a * b * 2 * c, d);
    lemma_grows(a * b * 2 * c * d, e);
}

proof fn lemma_grows(a: int, b: int)
    requires
        a >= 1,
        b >= 1,
    ensures
        a <= a * b,
{
    assert(a <= a * b) by (nonlinear_arith)
        requires
            a >= 1,
            b >= 1,
    ;
}

proof fn lemma_zero_product(a: int, b: int, c: int, d: int, e: int)
    requires
        a == 0 || b == 0 || c == 0 || d == 0 || e == 0,
    ensures
        a * b * 2 * c * d * e == 0,
{
    if a == 0 || b == 0 {
        assert(a * b == 0) by (nonlinear_arith)
            requires
                a == 0 || b == 0,
        ;
        assert(a * b * 2 * c == 0) by (nonlinear_arith)
            requires
                a * b == 0,
        ;
    }
    if c == 0 {
        assert(a * b * 2 * c == 0) by (nonlinear_arith)
            requires
                c == 0,
        ;
    }
    if a == 0 || b == 0 || c == 0 || d == 0 {
        assert(a * b * 2 * c * d == 0) by (nonlinear_arith)
            requires
                a * b * 2 * c == 0 || d == 0,
        ;
    }
    assert(a * b * 2 * c * d * e == 0) by (nonlinear_arith)
        requires
            a * b * 2 * c * d == 0 || e == 0,
    ;
}

/// Whether an access is refused, and how.
fn refuse(prefix: &str, given: usize, middle: &str, limit: usize, end: &str) -> (e: EngineError)
    ensures
        e.is_internal(
            prefix@ + decimal(given as nat) + middle@ + decimal(limit as nat) + end@,
        ),
{
    let mut m = owned(prefix);
    push_count(&mut m, given);
    m.append(middle);
    push_count(&mut m, limit);
    m.append(end);
    EngineError::Internal(m)
}

impl<T: Copy> KvStore<T> {
    pub open spec fn wf(&self) -> bool {
        self@.wf()
    }

    /// Allocates the arena, every element of it `fill`.
    pub fn new(
        num_layers: usize,
        num_blocks: usize,
        block_size: usize,
        num_kv_heads: usize,
        head_dim: usize,
        fill: T,
    ) -> (r: Self)
        requires
            num_layers * num_blocks * 2 * block_size * num_kv_heads * head_dim <= usize::MAX,
        ensures
            r.wf(),
            r@.shape == (Shape {
                layers: num_layers as int,
                blocks: num_blocks as int,
                slots: block_size as int,
                heads: num_kv_heads as int,
                dim: head_dim as int,
            }),
            forall|i: int| 0 <= i < r@.data.len() ==> #[trigger] r@.data[i] == fill,
    {
        let total: usize = if num_layers == 0 || num_blocks == 0 || block_size == 0
            || num_kv_heads == 0 || head_dim == 0 {
            proof {
                lemma_zero_product(
                    num_layers as int,
                    num_blocks as int,
                    block_size as int,
                    num_kv_heads as int,
                    head_dim as int,
                );
            }
            0
        } else {
            proof {
                lemma_products_fit(
                    num_layers as int,
                    num_blocks as int,
                    block_size as int,
                    num_kv_heads as int,
                    head_dim as int,
                );
            }
            num_layers * num_blocks * 2 * block_size * num_kv_heads * head_dim
        };
        let mut data: Vec<T> = Vec::new();
        let mut i: usize = 0;
        while i < total
            invariant
                i <= total,
                data@.len() == i,
                forall|k: int| 0 <= k < i ==> #[trigger] data@[k] == fill,
            decreases total - i,
        {
            data.push(fill);
            i += 1;
        }
        KvStore { data, num_layers, num_blocks, block_size, num_kv_heads, head_dim }
    }

    /// Total elements held.
    pub fn len(&self) -> (r: usize)
        ensures
            r == self@.data.len(),
    {
        self.data.len()
    }

    pub fn is_empty(&self) -> (r: bool)
        ensures
            r == (self@.data.len() == 0),
    {
        self.data.len() == 0
    }

    pub fn block_size(&self) -> (r: usize)
        ensures
            r == self@.shape.slots,
    {
        self.block_size
    }

    pub fn num_blocks(&self) -> (r: usize)
        ensures
            r == self@.shape.blocks,
    {
        self.num_blocks
    }

    /// Offset of one head's vector at one slot within a block.
    fn slot_offset(
        &self,
        layer: usize,
        block: u32,
        is_value: bool,
        slot: usize,
        head: usize,
    ) -> (r: usize)
        requires
            self.wf(),
            self@.shape.has(
                Place {
                    layer: layer as int,
                    block: block as int,
                    is_value,
                    slot: slot as int,
                    head: head as int,
                },
            ),
            self@.shape.dim > 0,
        ensures
            r == self@.shape.number(
                Place {
                    layer: layer as int,
                    block: block as int,
                    is_value,
                    slot: slot as int,
                    head: head as int,
                },
            ) * self@.shape.dim,
    {
        let ghost p = Place {
            layer: layer as int,
            block: block as int,
            is_value,
            slot: slot as int,
            head: head as int,
        };
        let ghost s = self@.shape;
        proof {
            lemma_number(s, p);
            lemma_vector_range(s, s.number(p));
            assert(s.number(p) <= s.number(p) * s.dim) by (nonlinear_arith)
                requires
                    0 <= s.number(p),
                    1 <= s.dim,
            ;
        }
        let a: usize = layer * self.num_blocks + block as usize;
        let b: usize = a * 2 + if is_value {
            1
        } else {
            0
        };
        let c: usize = b * self.block_size + slot;
        let n: usize = c * self.num_kv_heads + head;
        n * self.head_dim
    }

    /// Writes one key or value vector into the cache.
    pub fn write(
        &mut self,
        layer: usize,
        block: u32,
        slot: usize,
        head: usize,
        is_value: bool,
        vector: &[T],
    ) -> (r: Result<(), EngineError>)
        requires
            old(self).wf(),
        ensures
            final(self).wf(),
            final(self)@.shape == old(self)@.shape,
            ({
                let p = Place {
                    layer: layer as int,
                    block: block as int,
                    is_value,
                    slot: slot as int,
                    head: head as int,
                };
                let s = old(self)@.shape;
                match r {
                    Ok(()) => {
                        &&& s.complaint(p, vector@.len() as int) is None
                        &&& final(self)@.at(p) == vector@
                        &&& forall|m: int|
                            0 <= m < s.vectors() && m != s.number(p) ==> #[trigger] final(self)@.vector(m) == old(self)@.vector(m)
                    },
                    Err(e) => {
                        &&& s.complaint(p, vector@.len() as int) is Some
                        &&& e.is_internal(s.complaint(p, vector@.len() as int)->0)
                        &&& final(self)@ == old(self)@
                    },
                }
            }),
    {
        let ghost before = self@;
        let ghost s = self@.shape;
        let ghost p = Place {
            layer: layer as int,
            block: block as int,
            is_value,
            slot: slot as int,
            head: head as int,
        };
        match self.check_bounds(layer, block, slot, head, vector.len(), Ghost(is_value)) {
            Ok(()) => {},
            Err(e) => {
                return Err(e);
            },
        }
        if self.head_dim == 0 {
            proof {
                assert(self@.at(p) =~= vector@);
            }
            return Ok(());
        }
        let off: usize = self.slot_offset(layer, block, is_value, slot, head);
        let dim: usize = self.head_dim;
        let len: usize = self.data.len();
        proof {
            lemma_number(s, p);
            lemma_vector_range(s, s.number(p));
        }
        let mut i: usize = 0;
        while i < dim
            invariant
                i <= dim,
                dim == vector@.len(),
                dim == s.dim,
                self@.shape == s,
                before.shape == s,
                self@.data.len() == before.data.len(),
                len == self@.data.len(),
                off + dim <= len,
                forall|k: int| 0 <= k < i ==> #[trigger] self@.data[off + k] == vector@[k],
                forall|k: int|
                    0 <= k < self@.data.len() && !(off <= k < off + dim) ==> #[trigger]
                        self@.data[k] == before.data[k],
            decreases dim - i,
        {
            let ghost was = self@.data;
            self.data.set(off + i, vector[i]);
            proof {
                assert(self@.data == was.update(off + i, vector@[i as int]));
                assert forall|k: int| 0 <= k < i + 1 implies #[trigger] self@.data[off + k]
                    == vector@[k] by {
                    if k < i {
                        assert(was[off + k] == vector@[k]);
                    }
                }
            }
            i += 1;
        }
        proof {
            assert(self@.at(p) =~= vector@) by {
                assert forall|k: int| 0 <= k < dim implies self@.at(p)[k] == vector@[k] by {
                    assert(self@.data[off + k] == vector@[k]);
                }
            }
            assert forall|m: int| 0 <= m < s.vectors() && m != s.number(p) implies #[trigger]
                self@.vector(m) == before.vector(m) by {
                lemma_vector_range(s, m);
                let at = m * s.dim;
                assert(at + s.dim <= off || off + s.dim <= at);
                assert(self@.vector(m) =~= before.vector(m));
            }
        }
        Ok(())
    }

    /// Reads one key or value vector from the cache.
    pub fn read(
        &self,
        layer: usize,
        block: u32,
        slot: usize,
        head: usize,
        is_value: bool,
    ) -> (r: Result<&[T], EngineError>)
        requires
            self.wf(),
        ensures
            ({
                let p = Place {
                    layer: layer as int,
                    block: block as int,
                    is_value,
                    slot: slot as int,
                    head: head as int,
                };
                let s = self@.shape;
                match r {
                    Ok(v) => s.complaint(p, s.dim) is None && v@ == self@.at(p),
                    Err(e) => s.complaint(p, s.dim) is Some && e.is_internal(
                        s.complaint(p, s.dim)->0,
                    ),
                }
            }),
    {
        let ghost p = Place {
            layer: layer as int,
            block: block as int,
            is_value,
            slot: slot as int,
            head: head as int,
        };
        match self.check_bounds(layer, block, slot, head, self.head_dim, Ghost(is_value)) {
            Ok(()) => {},
            Err(e) => {
                return Err(e);
            },
        }
        proof {
            lemma_number(self@.shape, p);
            lemma_vector_range(self@.shape, self@.shape.number(p));
        }
        if self.head_dim == 0 {
            let empty = slice_subrange(self.data.as_slice(), 0, 0);
            proof {
                assert(empty@ =~= self@.at(p));
            }
            return Ok(empty);
        }
        let off: usize = self.slot_offset(layer, block, is_value, slot, head);
        Ok(slice_subrange(self.data.as_slice(), off, off + self.head_dim))
    }

    /// Checks an access.
    fn check_bounds(
        &self,
        layer: usize,
        block: u32,
        slot: usize,
        head: usize,
        vec_len: usize,
        is_value: Ghost<bool>,
    ) -> (r: Result<(), EngineError>)
        ensures
            ({
                let p = Place {
                    layer: layer as int,
                    block: block as int,
                    is_value: is_value@,
                    slot: slot as int,
                    head: head as int,
                };
                match r {
                    Ok(()) => self@.shape.complaint(p, vec_len as int) is None,
                    Err(e) => self@.shape.complaint(p, vec_len as int) is Some && e.is_internal(
                        self@.shape.complaint(p, vec_len as int)->0,
                    ),
                }
            }),
    {
        if layer >= self.num_layers {
            return Err(refuse("layer ", layer, " out of range (have ", self.num_layers, ")"));
        }
        if block as usize >= self.num_blocks {
            return Err(
                refuse("block ", block as usize, " out of range (have ", self.num_blocks, ")"),
            );
        }
        if slot >= self.block_size {
            return Err(
                refuse("slot ", slot, " out of range (block holds ", self.block_size, ")"),
            );
        }
        if head >= self.num_kv_heads {
            return Err(
                refuse("kv head ", head, " out of range (have ", self.num_kv_heads, ")"),
            );
        }
        if vec_len != self.head_dim {
            let mut m = owned("vector length ");
            push_count(&mut m, vec_len);
            m.append(" does not match head_dim ");
            push_count(&mut m, self.head_dim);
            return Err(EngineError::Internal(m));
        }
        Ok(())
    }
}

/// Where a logical position lies: the block that its logical block maps to,
/// and the slot in it.
pub open spec fn located(block_table: Seq<u32>, position: int, block_size: int) -> Option<
    (u32, int),
> {
    if position / block_size < block_table.len() {
        Some((block_table[position / block_size], position % block_size))
    } else {
        None
    }
}

/// Resolves a logical token position to its physical (block, slot).
///
/// The whole indirection of the paged design lives in this one function.
#[inline]
pub fn locate(block_table: &[u32], position: usize, block_size: usize) -> (r: Option<(u32, usize)>)
    requires
        block_size > 0,
    ensures
        match r {
            Some((block, slot)) => located(
                block_table@,
                position as int,
                block_size as int,
            ) == Some((block, slot as int)) && slot < block_size,
            None => located(block_table@, position as int, block_size as int) is None,
        },
{
    let logical_block: usize = position / block_size;
    let slot: usize = position % block_size;
    if logical_block < block_table.len() {
        Some((block_table[logical_block], slot))
    } else {
        None
    }
}

/// Positions that share a slot of a block share the block's place in the
/// table; with different blocks in the table, different positions never meet.
pub proof fn law_positions_do_not_collide(table: Seq<u32>, block_size: int, p: int, q: int)
    requires
        block_size > 0,
        0 <= p,
        0 <= q,
        table.no_duplicates(),
        located(table, p, block_size) is Some,
        located(table, p, block_size) == located(table, q, block_size),
    ensures
        p == q,
{
    vstd::arithmetic::div_mod::lemma_fundamental_div_mod(p, block_size);
    vstd::arithmetic::div_mod::lemma_fundamental_div_mod(q, block_size);
    vstd::arithmetic::div_mod::lemma_div_pos_is_pos(p, block_size);
    vstd::arithmetic::div_mod::lemma_div_pos_is_pos(q, block_size);
}

/// Arguments for one sequence's attention over the paged cache.
#[derive(Debug, Clone, Copy)]
pub struct AttentionArgs<'a> {
    /// Physical blocks backing this sequence, in logical order.
    pub block_table: &'a [u32],
    /// Total context length including the tokens being added this step.
    pub context_len: usize,
    /// Absolute position of the query token.
    pub query_position: usize,
    pub layer: usize,
    pub num_query_heads: usize,
    pub num_kv_heads: usize,
    pub head_dim: usize,
    pub block_size: usize,
}

/// Where one query reads: each position it attends to, and how many query
/// heads share a KV head.
#[derive(Debug)]
pub struct AttentionPlan {
    pub group_size: usize,
    pub slots: Vec<(u32, usize)>,
}

impl AttentionPlan {
    /// The KV head that a query head reads.
    pub fn kv_head(&self, query_head: usize) -> (r: usize)
        requires
            self.group_size > 0,
        ensures
            r == query_head as int / self.group_size as int,
    {
        query_head / self.group_size
    }
}

impl<'a> AttentionArgs<'a> {
    /// What is wrong with the shapes, if anything.
    pub open spec fn shape_complaint(&self, query_len: int, out_len: int) -> Option<Seq<char>> {
        let width = self.num_query_heads * self.head_dim;
        if query_len != width || out_len != query_len {
            Some(
                "attention expected "@ + decimal(width as nat) + " query elements, got "@
                    + decimal(query_len as nat) + " (out "@ + decimal(out_len as nat) + ")"@,
            )
        } else if self.num_kv_heads == 0 || self.num_query_heads as int
            % self.num_kv_heads as int != 0 {
            Some(
                decimal(self.num_query_heads as nat) + " query heads cannot be grouped over "@
                    + decimal(self.num_kv_heads as nat) + " kv heads"@,
            )
        } else {
            None
        }
    }

    /// What is wrong with reading the key of a position, if anything.
    pub open spec fn read_complaint(&self, s: Shape, position: int, head: int) -> Option<Seq<char>> {
        match located(self.block_table@, position, self.block_size as int) {
            None => Some(
                "position "@ + decimal(position as nat) + " is outside the block table of "@
                    + decimal(self.block_table@.len()) + " blocks"@,
            ),
            Some((block, slot)) => s.complaint(
                Place {
                    layer: self.layer as int,
                    block: block as int,
                    is_value: false,
                    slot,
                    head,
                },
                s.dim,
            ),
        }
    }

    /// What is wrong with reading the first key that cannot be read, of the
    /// positions from `from` up to the query's.
    pub open spec fn first_read_complaint(&self, s: Shape, from: int) -> Option<Seq<char>>
        decreases self.query_position + 1 - from,
    {
        if from > self.query_position {
            None
        } else {
            match self.read_complaint(s, from, 0) {
                Some(complaint) => Some(complaint),
                None => self.first_read_complaint(s, from + 1),
            }
        }
    }

    /// Why one query cannot attend to a store of a shape, if it cannot.
    pub open spec fn complaint(&self, s: Shape, query_len: int, out_len: int) -> Option<Seq<char>> {
        match self.shape_complaint(query_len, out_len) {
            Some(complaint) => Some(complaint),
            None => if self.num_query_heads == 0 {
                None
            } else {
                match self.first_read_complaint(s, 0) {
                    Some(complaint) => Some(complaint),
                    None => if self.num_kv_heads > s.heads {
                        Some(
                            "kv head "@ + decimal(s.heads as nat) + " out of range (have "@
                                + decimal(s.heads as nat) + ")"@,
                        )
                    } else {
                        None
                    },
                }
            },
        }
    }
}

/// A read that has a complaint is found from every position before it.
proof fn lemma_first_read_complaint(args: AttentionArgs<'_>, s: Shape, from: int, k: int)
    requires
        from <= k <= args.query_position,
        args.first_read_complaint(s, from) is None,
    ensures
        args.read_complaint(s, k, 0) is None,
    decreases k - from,
{
    if from < k {
        lemma_first_read_complaint(args, s, from + 1, k);
    }
}

/// Checks the shapes of one query's attention and resolves every position it
/// attends to: those up to and including its own. Future positions are not
/// visited, so there is nothing to mask.
///
/// Query head `h` reads KV head `h / group_size`. A plan is made only where
/// each of those reads is in range.
pub fn attention_plan<T: Copy>(
    store: &KvStore<T>,
    query_len: usize,
    out_len: usize,
    args: AttentionArgs<'_>,
) -> (r: Result<AttentionPlan, EngineError>)
    requires
        store.wf(),
        args.block_size > 0,
        args.num_query_heads * args.head_dim <= usize::MAX,
        args.query_position < usize::MAX,
    ensures
        ({
            let s = store@.shape;
            let last = args.query_position as int;
            match r {
                Ok(plan) => {
                    &&& args.complaint(s, query_len as int, out_len as int) is None
                    &&& plan.group_size == args.num_query_heads as int / args.num_kv_heads as int
                    &&& args.num_query_heads > 0 ==> {
                        &&& args.num_kv_heads <= s.heads
                        &&& plan.group_size > 0
                        &&& forall|head: int|
                            0 <= head < args.num_query_heads ==> #[trigger] (head
                                / plan.group_size as int) < args.num_kv_heads
                        &&& plan.slots@.len() == last + 1
                        &&& forall|k: int|
                            0 <= k <= last ==> {
                                &&& args.read_complaint(s, k, 0) is None
                                &&& located(
                                    args.block_table@,
                                    k,
                                    args.block_size as int,
                                ) == Some(
                                    ((#[trigger] plan.slots@[k]).0, plan.slots@[k].1 as int),
                                )
                            }
                    }
                },
                Err(e) => args.complaint(s, query_len as int, out_len as int) matches Some(
                    complaint,
                ) && e.is_internal(complaint),
            }
        }),
{
    let width: usize = args.num_query_heads * args.head_dim;
    if query_len != width || out_len != query_len {
        let mut m = owned("attention expected ");
        push_count(&mut m, width);
        m.append(" query elements, got ");
        push_count(&mut m, query_len);
        m.append(" (out ");
        push_count(&mut m, out_len);
        m.append(")");
        return Err(EngineError::Internal(m));
    }
    if args.num_kv_heads == 0 || args.num_query_heads % args.num_kv_heads != 0 {
        let mut m = String::new();
        push_count(&mut m, args.num_query_heads);
        m.append(" query heads cannot be grouped over ");
        push_count(&mut m, args.num_kv_heads);
        m.append(" kv heads");
        proof {
            assert(Seq::<char>::empty() + decimal(args.num_query_heads as nat) =~= decimal(
                args.num_query_heads as nat,
            ));
        }
        return Err(EngineError::Internal(m));
    }
    let group_size: usize = args.num_query_heads / args.num_kv_heads;
    let mut slots: Vec<(u32, usize)> = Vec::new();
    if args.num_query_heads == 0 {
        return Ok(AttentionPlan { group_size, slots });
    }
    let ghost s = store@.shape;
    let mut position: usize = 0;
    while position <= args.query_position
        invariant
            store.wf(),
            s == store@.shape,
            args.block_size > 0,
            args.query_position < usize::MAX,
            position <= args.query_position + 1,
            slots@.len() == position,
            args.first_read_complaint(s, 0) == args.first_read_complaint(s, position as int),
            forall|k: int|
                0 <= k < position ==> located(args.block_table@, k, args.block_size as int)
                    == Some(((#[trigger] slots@[k]).0, slots@[k].1 as int)),
            args.num_query_heads > 0,
            args.shape_complaint(query_len as int, out_len as int) is None,
        decreases args.query_position + 1 - position,
    {
        match locate(args.block_table, position, args.block_size) {
            None => {
                let mut m = owned("position ");
                push_count(&mut m, position);
                m.append(" is outside the block table of ");
                push_count(&mut m, args.block_table.len());
                m.append(" blocks");
                proof {
                    assert(args.read_complaint(s, position as int, 0) is Some);
                }
                return Err(EngineError::Internal(m));
            },
            Some((block, slot)) => {
                match store.read(args.layer, block, slot, 0, false) {
                    Ok(_) => {},
                    Err(e) => {
                        proof {
                            assert(args.read_complaint(s, position as int, 0) is Some);
                        }
                        return Err(e);
                    },
                }
                proof {
                    assert(args.read_complaint(s, position as int, 0) is None);
                }
                slots.push((block, slot));
            },
        }
        position += 1;
    }
    if args.num_kv_heads > store.num_kv_heads {
        return Err(
            refuse(
                "kv head ",
                store.num_kv_heads,
                " out of range (have ",
                store.num_kv_heads,
                ")",
            ),
        );
    }
    proof {
        assert forall|k: int| 0 <= k <= args.query_position implies (#[trigger] args.read_complaint(
            s,
            k,
            0,
        )) is None by {
            lemma_first_read_complaint(args, s, 0, k);
        }
        let heads = args.num_query_heads as int;
        let kv_heads = args.num_kv_heads as int;
        let group = group_size as int;
        vstd::arithmetic::div_mod::lemma_fundamental_div_mod(heads, kv_heads);
        assert(group > 0) by (nonlinear_arith)
            requires
                heads > 0,
                kv_heads > 0,
                group >= 0,
                heads == kv_heads * group,
        ;
        assert forall|head: int| 0 <= head < args.num_query_heads implies #[trigger] (head
            / group_size as int) < args.num_kv_heads by {
            assert(head / group < kv_heads) by (nonlinear_arith)
                requires
                    0 <= head < heads,
                    group > 0,
                    heads == kv_heads * group,
            ;
        }
    }
    Ok(AttentionPlan { group_size, slots })
}

/// The part of a row that belongs to a head.
pub open spec fn head_span<T>(row: Seq<T>, head: int, dim: int) -> Seq<T> {
    row.subrange(head * dim, head * dim + dim)
}

/// The place of a head's key or value for the row that has a slot.
pub open spec fn row_place(layer: int, slot: (u32, usize), is_value: bool, head: int) -> Place {
    Place { layer, block: slot.0 as int, is_value, slot: slot.1 as int, head }
}

/// Whether a row is the last of the first `n` that has its slot.
pub open spec fn last_with_slot(slots: Seq<(u32, usize)>, row: int, n: int) -> bool {
    forall|later: int| row < later < n ==> #[trigger] slots[later] != slots[row]
}

/// Whether the store holds what the first `n` rows wrote: each row's keys and
/// values at its slot, unless a later row has the same slot.
pub open spec fn holds_rows<T>(
    m: StoreModel<T>,
    layer: int,
    slots: Seq<(u32, usize)>,
    k: MatrixModel<T>,
    v: MatrixModel<T>,
    n: int,
) -> bool {
    forall|row: int, head: int|
        0 <= row < n && 0 <= head < m.shape.heads && last_with_slot(slots, row, n)
            ==> #[trigger] holds_head(m, layer, slots[row], k.row(row), v.row(row), head)
}

/// Whether a place is outside what the rows write: in another layer, or at a
/// slot that none of them has.
pub open spec fn untouched(p: Place, layer: int, slots: Seq<(u32, usize)>) -> bool {
    p.layer != layer || forall|row: int|
        0 <= row < slots.len() ==> !(p.block == (#[trigger] slots[row]).0 && p.slot
            == slots[row].1)
}

/// One write changes no place but its own.
proof fn lemma_write_keeps<T>(before: StoreModel<T>, after: StoreModel<T>, p: Place, q: Place)
    requires
        before.shape == after.shape,
        before.shape.has(p),
        before.shape.has(q),
        p != q,
        forall|m: int|
            0 <= m < before.shape.vectors() && m != before.shape.number(p) ==> #[trigger]
                after.vector(m) == before.vector(m),
    ensures
        after.at(q) == before.at(q),
{
    lemma_number(before.shape, q);
    if before.shape.number(p) == before.shape.number(q) {
        law_places_are_independent(before.shape, p, q);
    }
}

/// Whether the store holds a head's part of a row's key and value.
pub open spec fn holds_head<T>(
    m: StoreModel<T>,
    layer: int,
    slot: (u32, usize),
    krow: Seq<T>,
    vrow: Seq<T>,
    head: int,
) -> bool {
    &&& m.at(row_place(layer, slot, false, head)) == head_span(krow, head, m.shape.dim)
    &&& m.at(row_place(layer, slot, true, head)) == head_span(vrow, head, m.shape.dim)
}

/// Writes one head's part of a row's key and value.
fn write_head<T: Copy>(
    store: &mut KvStore<T>,
    layer: usize,
    slot: (u32, usize),
    krow: &[T],
    vrow: &[T],
    head: usize,
)
    requires
        old(store).wf(),
        layer < old(store)@.shape.layers,
        slot.0 < old(store)@.shape.blocks,
        slot.1 < old(store)@.shape.slots,
        head < old(store)@.shape.heads,
        krow@.len() == old(store)@.shape.heads * old(store)@.shape.dim,
        vrow@.len() == old(store)@.shape.heads * old(store)@.shape.dim,
    ensures
        final(store).wf(),
        final(store)@.shape == old(store)@.shape,
        holds_head(final(store)@, layer as int, slot, krow@, vrow@, head as int),
        forall|q: Place|
            old(store)@.shape.has(q) && q != row_place(layer as int, slot, false, head as int) && q
                != row_place(layer as int, slot, true, head as int) ==> #[trigger] final(store)@.at(q)
                == old(store)@.at(q),
{
    let ghost s = store@.shape;
    let ghost was = store@;
    let ghost kp = row_place(layer as int, slot, false, head as int);
    let ghost vp = row_place(layer as int, slot, true, head as int);
    let dim: usize = store.head_dim;
    proof {
        assert(krow.len() == krow@.len());
        lemma_row_range(head as int, s.heads, s.dim);
    }
    let from: usize = head * dim;
    let keys = slice_subrange(krow, from, from + dim);
    let values = slice_subrange(vrow, from, from + dim);
    let _ = store.write(layer, slot.0, slot.1, head, false, keys);
    let ghost between = store@;
    let _ = store.write(layer, slot.0, slot.1, head, true, values);
    proof {
        assert(s.has(kp) && s.has(vp) && kp != vp);
        assert(between.at(kp) == keys@);
        assert(store@.at(vp) == values@);
        lemma_write_keeps(between, store@, vp, kp);
        assert forall|q: Place| s.has(q) && q != kp && q != vp implies #[trigger] store@.at(q)
            == was.at(q) by {
            lemma_write_keeps(was, between, kp, q);
            lemma_write_keeps(between, store@, vp, q);
        }
    }
}

/// Writes one row's keys and values, head by head.
fn write_row<T: Copy>(
    store: &mut KvStore<T>,
    layer: usize,
    slot: (u32, usize),
    krow: &[T],
    vrow: &[T],
)
    requires
        old(store).wf(),
        layer < old(store)@.shape.layers,
        slot.0 < old(store)@.shape.blocks,
        slot.1 < old(store)@.shape.slots,
        krow@.len() == old(store)@.shape.heads * old(store)@.shape.dim,
        vrow@.len() == old(store)@.shape.heads * old(store)@.shape.dim,
    ensures
        final(store).wf(),
        final(store)@.shape == old(store)@.shape,
        forall|head: int|
            0 <= head < old(store)@.shape.heads ==> #[trigger] holds_head(
                final(store)@,
                layer as int,
                slot,
                krow@,
                vrow@,
                head,
            ),
        forall|q: Place|
            old(store)@.shape.has(q) && !(q.layer == layer && q.block == slot.0 && q.slot == slot.1)
                ==> #[trigger] final(store)@.at(q) == old(store)@.at(q),
{
    let heads: usize = store.num_kv_heads;
    let ghost begin = store@;
    let ghost s = store@.shape;
    let mut head: usize = 0;
    while head < heads
        invariant
            head <= heads,
            store.wf(),
            store@.shape == s,
            begin.shape == s,
            heads == s.heads,
            layer < s.layers,
            slot.0 < s.blocks,
            slot.1 < s.slots,
            krow@.len() == s.heads * s.dim,
            vrow@.len() == s.heads * s.dim,
            forall|h: int|
                0 <= h < head ==> #[trigger] holds_head(
                    store@,
                    layer as int,
                    slot,
                    krow@,
                    vrow@,
                    h,
                ),
            forall|q: Place|
                s.has(q) && !(q.layer == layer && q.block == slot.0 && q.slot == slot.1)
                    ==> #[trigger] store@.at(q) == begin.at(q),
        decreases heads - head,
    {
        let ghost was = store@;
        write_head(store, layer, slot, krow, vrow, head);
        proof {
            assert forall|h: int| 0 <= h < head + 1 implies #[trigger] holds_head(
                store@,
                layer as int,
                slot,
                krow@,
                vrow@,
                h,
            ) by {
                if h < head {
                    let a = row_place(layer as int, slot, false, h);
                    let b = row_place(layer as int, slot, true, h);
                    assert(holds_head(was, layer as int, slot, krow@, vrow@, h));
                    assert(s.has(a) && s.has(b));
                    assert(store@.at(a) == was.at(a));
                    assert(store@.at(b) == was.at(b));
                }
            }
            assert forall|q: Place|
                s.has(q) && !(q.layer == layer && q.block == slot.0 && q.slot
                    == slot.1) implies #[trigger] store@.at(q) == begin.at(q) by {
                assert(store@.at(q) == was.at(q));
            }
        }
        head += 1;
    }
}

/// What is wrong with a row's slot, if anything.
pub open spec fn slot_complaint(s: Shape, layer: int, slot: (u32, usize)) -> Option<Seq<char>> {
    s.complaint(row_place(layer, slot, false, 0), s.dim)
}

/// Writes the keys and values of a batch's rows into the cache, each row at its
/// slot, before anything attends: so a token can attend to itself.
///
/// A row whose slot is not one of the store's ends it with an error; the rows
/// before it have been written.
pub fn write_rows<T: Copy>(
    store: &mut KvStore<T>,
    layer: usize,
    slots: &Vec<(u32, usize)>,
    k: &Matrix<T>,
    v: &Matrix<T>,
) -> (r: Result<(), EngineError>)
    requires
        old(store).wf(),
        k.wf(),
        v.wf(),
        k@.rows == slots@.len(),
        v@.rows == slots@.len(),
        k@.cols == old(store)@.shape.heads * old(store)@.shape.dim,
        v@.cols == old(store)@.shape.heads * old(store)@.shape.dim,
    ensures
        final(store).wf(),
        final(store)@.shape == old(store)@.shape,
        forall|q: Place|
            old(store)@.shape.has(q) && untouched(q, layer as int, slots@) ==> #[trigger] final(store)@.at(q) == old(store)@.at(q),
        ({
            let s = old(store)@.shape;
            match r {
                Ok(()) => {
                    &&& s.heads == 0 || forall|row: int|
                        0 <= row < slots@.len() ==> slot_complaint(
                            s,
                            layer as int,
                            #[trigger] slots@[row],
                        ) is None
                    &&& holds_rows(
                        final(store)@,
                        layer as int,
                        slots@,
                        k@,
                        v@,
                        slots@.len() as int,
                    )
                },
                Err(e) => s.heads > 0 && exists|row: int|
                    {
                        &&& 0 <= row < slots@.len()
                        &&& slot_complaint(s, layer as int, #[trigger] slots@[row]) is Some
                        &&& e.is_internal(slot_complaint(s, layer as int, slots@[row])->0)
                        &&& forall|j: int|
                            0 <= j < row ==> slot_complaint(
                                s,
                                layer as int,
                                #[trigger] slots@[j],
                            ) is None
                        &&& holds_rows(final(store)@, layer as int, slots@, k@, v@, row)
                    },
            }
        }),
{
    let ghost begin = store@;
    let ghost s = store@.shape;
    if store.num_kv_heads == 0 {
        return Ok(());
    }
    let mut row: usize = 0;
    while row < slots.len()
        invariant
            row <= slots@.len(),
            store.wf(),
            begin.wf(),
            store@.shape == s,
            begin == old(store)@,
            begin.shape == s,
            s.heads > 0,
            k.wf(),
            v.wf(),
            k@.rows == slots@.len(),
            v@.rows == slots@.len(),
            k@.cols == s.heads * s.dim,
            v@.cols == s.heads * s.dim,
            forall|j: int|
                0 <= j < row ==> slot_complaint(s, layer as int, #[trigger] slots@[j]) is None,
            holds_rows(store@, layer as int, slots@, k@, v@, row as int),
            forall|q: Place|
                s.has(q) && untouched(q, layer as int, slots@) ==> #[trigger] store@.at(q)
                    == begin.at(q),
        decreases slots@.len() - row,
    {
        let ghost was = store@;
        let slot: (u32, usize) = slots[row];
        match store.check_bounds(layer, slot.0, slot.1, 0, store.head_dim, Ghost(false)) {
            Ok(()) => {},
            Err(e) => {
                return Err(e);
            },
        }
        proof {
            lemma_row_range(row as int, k@.rows, k@.cols);
            assert(slot_complaint(s, layer as int, slots@[row as int]) is None);
        }
        match (k.row(row), v.row(row)) {
            (Some(krow), Some(vrow)) => {
                write_row(store, layer, slot, krow, vrow);
            },
            _ => {},
        }
        proof {
            let n = row + 1;
            assert forall|r: int, head: int|
                0 <= r < n && 0 <= head < s.heads && last_with_slot(slots@, r, n)
                implies #[trigger] holds_head(
                store@,
                layer as int,
                slots@[r],
                k@.row(r),
                v@.row(r),
                head,
            ) by {
                assert(slot_complaint(s, layer as int, slots@[r]) is None);
                if r < row {
                    let a = row_place(layer as int, slots@[r], false, head);
                    let b = row_place(layer as int, slots@[r], true, head);
                    assert(s.has(a) && s.has(b));
                    assert(slots@[row as int] != slots@[r]);
                    assert(last_with_slot(slots@, r, row as int));
                    assert(holds_head(was, layer as int, slots@[r], k@.row(r), v@.row(r), head));
                    assert(store@.at(a) == was.at(a));
                    assert(store@.at(b) == was.at(b));
                }
            }
            assert forall|q: Place| s.has(q) && untouched(q, layer as int, slots@) implies
                #[trigger] store@.at(q) == begin.at(q) by {
                assert(slots@[row as int] == slot);
                assert(store@.at(q) == was.at(q));
            }
        }
        row += 1;
    }
    Ok(())
}

/// What was written is read back, and what was written elsewhere stays.
pub proof fn law_reads_give_back_writes<T>(
    before: StoreModel<T>,
    after: StoreModel<T>,
    p: Place,
    q: Place,
    vector: Seq<T>,
)
    requires
        before.wf(),
        after.wf(),
        after.shape == before.shape,
        before.shape.has(p),
        before.shape.has(q),
        after.at(p) == vector,
        forall|m: int|
            0 <= m < before.shape.vectors() && m != before.shape.number(p) ==> #[trigger]
                after.vector(m) == before.vector(m),
    ensures
        after.at(q) == if q == p {
            vector
        } else {
            before.at(q)
        },
{
    lemma_number(before.shape, q);
    if before.shape.number(q) == before.shape.number(p) {
        law_places_are_independent(before.shape, p, q);
    }
}

/// The vector that attention reads for a position: the key or the value of one
/// KV head, where the block table puts that position.
pub open spec fn read_at<T>(
    store: StoreModel<T>,
    table: Seq<u32>,
    layer: int,
    position: int,
    head: int,
    is_value: bool,
) -> Seq<T> {
    let (block, slot) = located(table, position, store.shape.slots)->0;
    store.at(Place { layer, block: block as int, is_value, slot, head })
}

/// Whether a query can attend, and why not, is settled by its own position and
/// those before it: by the blocks that they lie in, and not by the length of the
/// context or the blocks of later positions.
pub proof fn law_plans_see_the_past_alone(
    a: AttentionArgs<'_>,
    b: AttentionArgs<'_>,
    s: Shape,
    query_len: int,
    out_len: int,
)
    requires
        a.query_position == b.query_position,
        a.layer == b.layer,
        a.num_query_heads == b.num_query_heads,
        a.num_kv_heads == b.num_kv_heads,
        a.head_dim == b.head_dim,
        a.block_size == b.block_size,
        forall|k: int|
            0 <= k <= a.query_position ==> {
                &&& (#[trigger] located(a.block_table@, k, a.block_size as int)) is Some
                &&& located(a.block_table@, k, a.block_size as int) == located(
                    b.block_table@,
                    k,
                    b.block_size as int,
                )
            },
    ensures
        a.complaint(s, query_len, out_len) == b.complaint(s, query_len, out_len),
{
    lemma_same_read_complaints(a, b, s, 0);
}

/// The first read that has a complaint is the same where the positions lie in
/// the same blocks.
proof fn lemma_same_read_complaints(a: AttentionArgs<'_>, b: AttentionArgs<'_>, s: Shape, from: int)
    requires
        0 <= from,
        a.query_position == b.query_position,
        a.layer == b.layer,
        a.block_size == b.block_size,
        forall|k: int|
            0 <= k <= a.query_position ==> {
                &&& (#[trigger] located(a.block_table@, k, a.block_size as int)) is Some
                &&& located(a.block_table@, k, a.block_size as int) == located(
                    b.block_table@,
                    k,
                    b.block_size as int,
                )
            },
    ensures
        a.first_read_complaint(s, from) == b.first_read_complaint(s, from),
    decreases a.query_position + 1 - from,
{
    if from <= a.query_position {
        assert(a.read_complaint(s, from, 0) == b.read_complaint(s, from, 0));
        lemma_same_read_complaints(a, b, s, from + 1);
    }
}

/// Attention sees the past alone: two stores that hold the same keys and values
/// at every position up to the query's give the same reads through its plan,
/// whatever else they hold.
pub proof fn law_attention_reads_up_to_the_query<T>(
    a: StoreModel<T>,
    b: StoreModel<T>,
    args: AttentionArgs<'_>,
    slots: Seq<(u32, usize)>,
    k: int,
    head: int,
    is_value: bool,
)
    requires
        a.shape == b.shape,
        a.shape.slots == args.block_size,
        slots.len() == args.query_position + 1,
        forall|j: int|
            0 <= j <= args.query_position ==> located(
                args.block_table@,
                j,
                args.block_size as int,
            ) == Some(((#[trigger] slots[j]).0, slots[j].1 as int)),
        forall|j: int, h: int, v: bool|
            0 <= j <= args.query_position && 0 <= h < args.num_kv_heads ==> #[trigger] read_at(
                a,
                args.block_table@,
                args.layer as int,
                j,
                h,
                v,
            ) == read_at(b, args.block_table@, args.layer as int, j, h, v),
        0 <= k < slots.len(),
        0 <= head < args.num_kv_heads,
    ensures
        ({
            let place = row_place(args.layer as int, slots[k], is_value, head);
            a.at(place) == b.at(place)
        }),
{
    let table = args.block_table@;
    let layer = args.layer as int;
    assert(located(table, k, args.block_size as int) == Some((slots[k].0, slots[k].1 as int)));
    assert(read_at(a, table, layer, k, head, is_value) == read_at(
        b,
        table,
        layer,
        k,
        head,
        is_value,
    ));
}

/// What is written for a later position does not change what attention reads
/// for an earlier one, where no block stands twice in the table.
pub proof fn law_later_positions_are_not_read<T>(
    before: StoreModel<T>,
    after: StoreModel<T>,
    table: Seq<u32>,
    layer: int,
    earlier: int,
    later: int,
    block: u32,
    slot: int,
    head: int,
    is_value: bool,
)
    requires
        before.shape == after.shape,
        before.shape.slots > 0,
        table.no_duplicates(),
        0 <= earlier < later,
        located(table, earlier, before.shape.slots) is Some,
        located(table, later, before.shape.slots) == Some((block, slot)),
        forall|q: Place|
            #![trigger after.at(q)]
            q.block != block || q.slot != slot ==> after.at(q) == before.at(q),
    ensures
        read_at(after, table, layer, earlier, head, is_value) == read_at(
            before,
            table,
            layer,
            earlier,
            head,
            is_value,
        ),
{
    let unit = before.shape.slots;
    let (own, at) = located(table, earlier, unit)->0;
    if own == block && at == slot {
        law_positions_do_not_collide(table, unit, earlier, later);
    }
    let q = Place { layer, block: own as int, is_value, slot: at, head };
    assert(after.at(q) == before.at(q));
}

} // verus!
