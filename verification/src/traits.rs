//! The vocabulary shared by models, backends and the engine.

use crate::error::EngineError;
use crate::float::Float32;
use crate::id::{SequenceId, TokenId};
use crate::kv_cache::table::blocks_for;
use crate::text::{decimal, owned, push_count};
use vstd::prelude::*;
use vstd::slice::slice_subrange;
use vstd::string::*;

verus! {

/// Numeric type of a tensor: those the engine can store.
#[derive(Debug, Clone, Copy, PartialEq, Eq, Hash, Structural)]
pub enum DType {
    F32,
    F16,
    BF16,
    /// 8-bit integer, used by quantized weight formats.
    I8,
    /// 4-bit integer, packed two per byte.
    I4,
}

impl DType {
    pub open spec fn width(self) -> int {
        match self {
            DType::F32 => 32,
            DType::F16 | DType::BF16 => 16,
            DType::I8 => 8,
            DType::I4 => 4,
        }
    }

    /// Bits per element. `I4` is the reason this returns bits and not bytes.
    pub fn bits(self) -> (r: usize)
        ensures
            r == self.width(),
    {
        match self {
            DType::F32 => 32,
            DType::F16 | DType::BF16 => 16,
            DType::I8 => 8,
            DType::I4 => 4,
        }
    }

    /// Size in bytes of `n` elements of this dtype, rounding up for sub-byte
    /// types.
    pub fn size_in_bytes(self, n: usize) -> (r: usize)
        requires
            n * self.width() <= usize::MAX,
        ensures
            r == blocks_for(n * self.width(), 8),
    {
        let bits: usize = n * self.bits();
        if bits % 8 == 0 {
            bits / 8
        } else {
            bits / 8 + 1
        }
    }

    pub open spec fn label(self) -> Seq<char> {
        match self {
            DType::F32 => "f32"@,
            DType::F16 => "f16"@,
            DType::BF16 => "bf16"@,
            DType::I8 => "i8"@,
            DType::I4 => "i4"@,
        }
    }

    pub fn as_str(self) -> (r: &'static str)
        ensures
            r@ == self.label(),
    {
        match self {
            DType::F32 => "f32",
            DType::F16 => "f16",
            DType::BF16 => "bf16",
            DType::I8 => "i8",
            DType::I4 => "i4",
        }
    }
}

/// Which device a computation runs on.
#[derive(Debug, Clone, Copy, PartialEq, Eq, Hash, Structural)]
pub enum Device {
    Cpu,
    /// CUDA device with the given ordinal.
    Cuda(usize),
}

impl Device {
    pub fn is_cpu(self) -> (r: bool)
        ensures
            r == (self is Cpu),
    {
        matches!(self, Device::Cpu)
    }

    pub open spec fn label(self) -> Seq<char> {
        match self {
            Device::Cpu => "cpu"@,
            Device::Cuda(_) => "cuda"@,
        }
    }

    pub fn as_str(self) -> (r: &'static str)
        ensures
            r@ == self.label(),
    {
        match self {
            Device::Cpu => "cpu",
            Device::Cuda(_) => "cuda",
        }
    }

    /// The device with its ordinal, such as `cuda:1`.
    pub fn to_text(self) -> (r: String)
        ensures
            r@ == match self {
                Device::Cpu => "cpu"@,
                Device::Cuda(i) => "cuda:"@ + decimal(i as nat),
            },
    {
        match self {
            Device::Cpu => owned("cpu"),
            Device::Cuda(i) => {
                let mut r = owned("cuda:");
                push_count(&mut r, i);
                r
            },
        }
    }
}

/// Static description of a loaded model, read from `config.json` and validated
/// at load time.
#[derive(Debug, Clone, PartialEq, Eq)]
pub struct ModelMetadata {
    /// Architecture name.
    pub architecture: String,
    /// Human-readable name reported by the API.
    pub name: String,
    pub hidden_size: usize,
    pub num_layers: usize,
    /// Number of query heads.
    pub num_attention_heads: usize,
    /// Number of key/value heads. The KV cache is sized from this.
    pub num_kv_heads: usize,
    /// Dimension per head.
    pub head_dim: usize,
    pub vocab_size: usize,
    /// Maximum positions the model was trained to handle.
    pub max_position_embeddings: usize,
    /// RoPE base frequency (`theta`).
    pub rope_theta: Float32,
    /// RMSNorm epsilon.
    pub rms_norm_eps: Float32,
    /// Weight dtype as stored.
    pub dtype: DType,
    /// EOS token ids. Several chat models define more than one.
    pub eos_token_ids: Vec<TokenId>,
    pub bos_token_id: Option<TokenId>,
}

impl ModelMetadata {
    /// Elements of keys and values per token, across all layers.
    pub open spec fn kv_elements(&self) -> int {
        2 * self.num_layers * self.num_kv_heads * self.head_dim
    }

    /// Bytes of KV cache required for a single token, across all layers.
    pub fn kv_bytes_per_token(&self) -> (r: usize)
        requires
            2 * self.num_layers <= usize::MAX,
            2 * self.num_layers * self.num_kv_heads <= usize::MAX,
            self.kv_elements() * self.dtype.width() <= usize::MAX,
        ensures
            r == blocks_for(self.kv_elements() * self.dtype.width(), 8),
    {
        proof {
            lemma_factor_fits(
                2int,
                self.num_layers as int,
                self.num_kv_heads as int,
                self.head_dim as int,
                self.dtype.width(),
            );
        }
        let elems: usize = 2 * self.num_layers * self.num_kv_heads * self.head_dim;
        self.dtype.size_in_bytes(elems)
    }

    /// Whether the model uses grouped-query attention.
    pub fn uses_gqa(&self) -> (r: bool)
        ensures
            r == (self.num_kv_heads < self.num_attention_heads),
    {
        self.num_kv_heads < self.num_attention_heads
    }

    /// How many query heads share each KV head, or `0` without KV heads.
    pub fn gqa_group_size(&self) -> (r: usize)
        ensures
            r == if self.num_kv_heads == 0 {
                0
            } else {
                self.num_attention_heads as int / self.num_kv_heads as int
            },
    {
        if self.num_kv_heads == 0 {
            0
        } else {
            self.num_attention_heads / self.num_kv_heads
        }
    }
}

/// The partial products of a product that fits also fit.
pub proof fn lemma_factor_fits(two: int, a: int, b: int, c: int, w: int)
    requires
        two == 2,
        a >= 0,
        b >= 0,
        c >= 0,
        w >= 1,
        two * a * b <= usize::MAX,
        two * a * b * c * w <= usize::MAX,
    ensures
        0 <= two * a * b * c <= usize::MAX,
{
    assert(0 <= two * a * b) by (nonlinear_arith)
        requires
            two == 2,
            a >= 0,
            b >= 0,
    ;
    let p = two * a * b;
    assert(0 <= p * c) by (nonlinear_arith)
        requires
            p >= 0,
            c >= 0,
    ;
    assert(p * c <= p * c * w) by (nonlinear_arith)
        requires
            p * c >= 0,
            w >= 1,
    ;
}

/// A compute backend: where tensors live and where kernels run.
///
/// It describes the device, not the operations, which belong to the model
/// implementation.
pub trait Backend {
    /// What [`Backend::name`] returns.
    spec fn label(&self) -> Seq<char>;

    /// What [`Backend::device`] returns.
    spec fn place(&self) -> Device;

    /// What [`Backend::total_memory`] returns.
    spec fn memory(&self) -> Option<u64>;

    /// What [`Backend::available_memory`] may return.
    spec fn reports_available(&self, bytes: Option<u64>) -> bool;

    /// What [`Backend::synchronize`] may return.
    spec fn settles(&self, outcome: Result<(), EngineError>) -> bool;

    /// Whether a dtype is executed natively.
    spec fn executes(&self, dtype: DType) -> bool;

    /// Stable name for logs and metrics labels.
    fn name(&self) -> (r: &'static str)
        ensures
            r@ == self.label(),
    ;

    /// The device this backend executes on.
    fn device(&self) -> (r: Device)
        ensures
            r == self.place(),
    ;

    /// Total device memory in bytes, if the backend can report it.
    fn total_memory(&self) -> (r: Option<u64>)
        ensures
            r == self.memory(),
    ;

    /// Currently free device memory in bytes, if the backend can report it.
    fn available_memory(&self) -> (r: Option<u64>)
        ensures
            self.reports_available(r),
    ;

    /// Blocks until all queued work on the device has completed.
    fn synchronize(&self) -> (r: Result<(), EngineError>)
        ensures
            self.settles(r),
    ;

    /// Whether this backend can execute the given dtype natively.
    fn supports_dtype(&self, dtype: DType) -> (r: bool)
        ensures
            r == self.executes(dtype),
    ;
}

/// A batch of sequences submitted to the model for one forward pass: token
/// streams of different sequences concatenated end to end, with offsets
/// describing the boundaries, and no padding.
#[derive(Debug, Clone)]
pub struct ForwardBatch {
    /// Concatenated input token ids for every sequence in the batch.
    pub tokens: Vec<TokenId>,
    /// Absolute position of each entry in `tokens`.
    pub positions: Vec<u32>,
    /// Sequence id for each slot, parallel to `slot_token_counts`.
    pub sequence_ids: Vec<SequenceId>,
    /// Number of tokens contributed by each sequence. Sums to `tokens.len()`.
    pub slot_token_counts: Vec<usize>,
    /// Context length of each sequence including its new tokens.
    pub context_lens: Vec<usize>,
    /// Physical KV block ids per sequence, in logical order.
    pub block_tables: Vec<Vec<u32>>,
    /// True when the batch contains at least one sequence still prefilling.
    pub has_prefill: bool,
}

/// The sum of `counts`.
pub open spec fn total(counts: Seq<usize>) -> int
    decreases counts.len(),
{
    if counts.len() == 0 {
        0
    } else {
        total(counts.drop_last()) + counts.last()
    }
}

/// Sums are not negative and grow with every element.
pub proof fn lemma_total(counts: Seq<usize>, i: int)
    requires
        0 <= i <= counts.len(),
    ensures
        0 <= total(counts.take(i)) <= total(counts),
    decreases counts.len(),
{
    if i < counts.len() {
        lemma_total(counts.drop_last(), i);
        assert(counts.drop_last().take(i) =~= counts.take(i));
    } else {
        assert(counts.take(i) =~= counts);
        if counts.len() > 0 {
            lemma_total(counts.drop_last(), counts.len() - 1);
            assert(counts.drop_last().take(counts.len() - 1) =~= counts.drop_last());
        }
    }
}

impl ForwardBatch {
    /// Number of sequences in the batch.
    pub fn num_sequences(&self) -> (r: usize)
        ensures
            r == self.sequence_ids@.len(),
    {
        self.sequence_ids.len()
    }

    /// Total tokens in the batch: the quantity the scheduler budgets against.
    pub fn num_tokens(&self) -> (r: usize)
        ensures
            r == self.tokens@.len(),
    {
        self.tokens.len()
    }

    pub fn is_empty(&self) -> (r: bool)
        ensures
            r == (self.tokens@.len() == 0),
    {
        self.tokens.len() == 0
    }

    /// Whether the per-sequence arrays have one entry per sequence.
    pub open spec fn arrays_agree(&self) -> bool {
        let n = self.sequence_ids@.len();
        &&& self.slot_token_counts@.len() == n
        &&& self.context_lens@.len() == n
        &&& self.block_tables@.len() == n
    }

    /// The parallel-array invariants of a batch.
    pub open spec fn consistent(&self) -> bool {
        &&& self.arrays_agree()
        &&& self.positions@.len() == self.tokens@.len()
        &&& total(self.slot_token_counts@) == self.tokens@.len()
    }

    /// The text of the first invariant that fails.
    pub open spec fn complaint(&self) -> Seq<char> {
        if !self.arrays_agree() {
            "ForwardBatch arrays disagree: "@ + decimal(self.sequence_ids@.len())
                + " sequence ids, "@ + decimal(self.slot_token_counts@.len())
                + " token counts, "@ + decimal(self.context_lens@.len()) + " context lens, "@
                + decimal(self.block_tables@.len()) + " block tables"@
        } else if self.positions@.len() != self.tokens@.len() {
            "ForwardBatch has "@ + decimal(self.tokens@.len()) + " tokens but "@ + decimal(
                self.positions@.len(),
            ) + " positions"@
        } else {
            "ForwardBatch slot token counts sum to "@ + decimal(
                total(self.slot_token_counts@) as nat,
            ) + " but there are "@ + decimal(self.tokens@.len()) + " tokens"@
        }
    }

    /// Checks the parallel-array invariants this struct relies on. A violation
    /// would otherwise show up as silent numerical garbage deep inside a
    /// kernel.
    pub fn validate(&self) -> (r: Result<(), EngineError>)
        requires
            self.arrays_agree() && self.positions@.len() == self.tokens@.len() ==> total(
                self.slot_token_counts@,
            ) <= usize::MAX,
        ensures
            match r {
                Ok(()) => self.consistent(),
                Err(e) => !self.consistent() && e.is_internal(self.complaint()),
            },
    {
        let n: usize = self.sequence_ids.len();
        if self.slot_token_counts.len() != n || self.context_lens.len() != n
            || self.block_tables.len() != n {
            let mut m = owned("ForwardBatch arrays disagree: ");
            push_count(&mut m, n);
            m.append(" sequence ids, ");
            push_count(&mut m, self.slot_token_counts.len());
            m.append(" token counts, ");
            push_count(&mut m, self.context_lens.len());
            m.append(" context lens, ");
            push_count(&mut m, self.block_tables.len());
            m.append(" block tables");
            return Err(EngineError::Internal(m));
        }
        if self.positions.len() != self.tokens.len() {
            let mut m = owned("ForwardBatch has ");
            push_count(&mut m, self.tokens.len());
            m.append(" tokens but ");
            push_count(&mut m, self.positions.len());
            m.append(" positions");
            return Err(EngineError::Internal(m));
        }
        let summed: usize = sum(&self.slot_token_counts);
        if summed != self.tokens.len() {
            let mut m = owned("ForwardBatch slot token counts sum to ");
            push_count(&mut m, summed);
            m.append(" but there are ");
            push_count(&mut m, self.tokens.len());
            m.append(" tokens");
            return Err(EngineError::Internal(m));
        }
        Ok(())
    }
}

/// The sum of `counts`.
pub fn sum(counts: &Vec<usize>) -> (r: usize)
    requires
        total(counts@) <= usize::MAX,
    ensures
        r == total(counts@),
{
    let mut acc: usize = 0;
    let mut i: usize = 0;
    proof {
        assert(counts@.take(0) =~= seq![]);
    }
    while i < counts.len()
        invariant
            i <= counts@.len(),
            total(counts@) <= usize::MAX,
            acc == total(counts@.take(i as int)),
        decreases counts@.len() - i,
    {
        proof {
            lemma_total(counts@, i + 1);
            assert(counts@.take(i + 1).drop_last() =~= counts@.take(i as int));
        }
        acc += counts[i];
        i += 1;
    }
    proof {
        assert(counts@.take(counts@.len() as int) =~= counts@);
    }
    acc
}

/// Logits produced by one forward pass: one row per sequence, for its last
/// position.
#[derive(Debug, Clone)]
pub struct ForwardOutput<T> {
    /// Row-major `[num_sequences, vocab_size]` logits.
    pub logits: Vec<T>,
    pub vocab_size: usize,
    /// Sequence ids, parallel to the rows of `logits`.
    pub sequence_ids: Vec<SequenceId>,
}

impl<T> ForwardOutput<T> {
    /// Borrows the logits row belonging to the `i`-th sequence.
    pub fn row(&self, i: usize) -> (r: Option<&[T]>)
        ensures
            match r {
                Some(row) => {
                    &&& (i + 1) * self.vocab_size <= self.logits@.len()
                    &&& row@ == self.logits@.subrange(
                        i * self.vocab_size,
                        (i + 1) * self.vocab_size,
                    )
                },
                None => (i + 1) * self.vocab_size > self.logits@.len(),
            },
    {
        let len: usize = self.logits.len();
        proof {
            assert((i + 1) * self.vocab_size == i * self.vocab_size + self.vocab_size)
                by (nonlinear_arith);
            assert(0 <= i * self.vocab_size) by (nonlinear_arith);
        }
        let start: usize = match i.checked_mul(self.vocab_size) {
            Some(v) => v,
            None => {
                return None;
            },
        };
        let end: usize = match start.checked_add(self.vocab_size) {
            Some(v) => v,
            None => {
                return None;
            },
        };
        if end <= len {
            Some(slice_subrange(self.logits.as_slice(), start, end))
        } else {
            None
        }
    }

    pub fn num_sequences(&self) -> (r: usize)
        ensures
            r == self.sequence_ids@.len(),
    {
        self.sequence_ids.len()
    }
}

} // verus!
