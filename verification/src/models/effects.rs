//! What a checkpoint's bytes, a configuration and the paged store come to, said in
//! bytes, names and places.

use crate::float::Float32;
use crate::error::ModelError;
use crate::models::attention::{
    holds_head, holds_rows, last_with_slot, located, untouched, AttentionArgs, Place, Shape,
    StoreModel,
};
use crate::models::config::{
    by_class, by_type, dtype_of, first_known, Architecture, HfConfig,
};
use crate::models::loader::{
    before, brain_widened, found_in, half_widened, inside, is_shard, lemma_shard_of, loaded, met,
    need_failure, normalised, numbers, shard_of, Need, Shard,
};
use crate::models::quantization::{
    carried, packed, unpacked, written, Element, QuantBits, QuantizedTensor,
};
use crate::models::tensor::{linear_complaint, size_complaint, MatrixModel};
use crate::models::transformer::{
    all_met, fails_at, fails_first, layer_needs, layers_need, matrix_need, model_needs, owner, row_slot,
    tail_needs, Dimensions,
};
use crate::text::decimal;
use crate::traits::{total, DType, ForwardBatch, ModelMetadata};
use vstd::arithmetic::power2::pow2;
use vstd::prelude::*;

verus! {

// ----- numbers in a checkpoint ----------------------------------------------------

/// Single-precision tensors are read four bytes at a time, the lowest first.
pub proof fn law_single_precision_is_read_bytewise(b: Seq<u8>, i: int)
    requires
        0 <= i,
        4 * i + 4 <= b.len(),
    ensures
        numbers("F32"@, b) matches Some(v) && v.len() == b.len() / 4 && v[i].bits == b[4 * i] + 256
            * b[4 * i + 1] + 65536 * b[4 * i + 2] + 16777216 * b[4 * i + 3],
{
}

/// Half-precision tensors are read two bytes at a time, the lower first, and each
/// number is widened.
pub proof fn law_half_precision_is_read_bytewise(b: Seq<u8>, i: int)
    requires
        0 <= i,
        2 * i + 2 <= b.len(),
    ensures
        numbers("F16"@, b) matches Some(v) && v.len() == b.len() / 2 && v[i].bits == half_widened(
            (b[2 * i] + 256 * b[2 * i + 1]) as u16,
        ) as u32,
        numbers("BF16"@, b) matches Some(v) && v.len() == b.len() / 2 && v[i].bits
            == brain_widened((b[2 * i] + 256 * b[2 * i + 1]) as u16),
{
    reveal_strlit("F32");
    reveal_strlit("F16");
    reveal_strlit("BF16");
    assert("F16"@[1] != "F32"@[1]);
    assert("BF16"@.len() != "F32"@.len());
    assert("BF16"@.len() != "F16"@.len());
}

/// No other dtype is read.
pub proof fn law_other_dtypes_are_not_read(dtype: Seq<char>, b: Seq<u8>)
    ensures
        numbers(dtype, b) is Some <==> dtype == "F32"@ || dtype == "F16"@ || dtype == "BF16"@,
{
}

proof fn lemma_normalised(m: int, e: int) -> (j: nat)
    requires
        0 < m < 2048,
    ensures
        m * pow2(j) < 2048,
        m >= 1024 ==> j == 0,
        1024 <= m * pow2(j),
        normalised(m, e) == (e - j) * 0x80_0000 + (m * pow2(j) - 1024) * 0x2000,
    decreases 2048 - m,
{
    vstd::arithmetic::power2::lemma2_to64();
    if m < 1024 {
        let k = lemma_normalised(2 * m, e - 1);
        vstd::arithmetic::power2::lemma_pow2_unfold((k + 1) as nat);
        assert(m * pow2((k + 1) as nat) == 2 * m * pow2(k)) by (nonlinear_arith)
            requires
                pow2((k + 1) as nat) == 2 * pow2(k),
        ;
        (k + 1) as nat
    } else {
        0
    }
}

/// A widened number has the same sign and the same value: the exponent is moved by
/// the difference of the two biases and the fraction gets zeros behind it; a number
/// below the smallest normal one, of which half precision stores the multiple of its
/// last place, is the same multiple of two to the minus 24.
pub proof fn law_widening_keeps_the_value(bits: u16)
    ensures
        ({
            let sign = bits >= 0x8000;
            let e = (bits as int / 1024) % 32;
            let m = bits as int % 1024;
            let r = half_widened(bits);
            let s = if sign {
                r - 0x8000_0000
            } else {
                r
            };
            let exponent = s / 0x80_0000;
            let fraction = s % 0x80_0000;
            &&& 0 <= s < 0x8000_0000
            &&& 0 < e < 31 ==> exponent == e + 112 && fraction == m * 8192
            &&& e == 0 && m == 0 ==> s == 0
            &&& e == 0 && m > 0 ==> 103 <= exponent <= 112 && 0x80_0000 + fraction == m * pow2(
                (126 - exponent) as nat,
            )
            &&& e == 31 && m == 0 ==> s == 0x7f80_0000
            &&& e == 31 && m > 0 ==> exponent == 255 && fraction >= 0x40_0000
        }),
{
    let e = (bits as int / 1024) % 32;
    let m = bits as int % 1024;
    if e == 0 && m > 0 {
        let j = lemma_normalised(m, 113);
        lemma_subnormal(m, j);
    }
}

proof fn lemma_subnormal(m: int, j: nat)
    requires
        0 < m < 1024,
        1024 <= m * pow2(j) < 2048,
    ensures
        1 <= j <= 10,
        ({
            let s = (113 - j) * 0x80_0000 + (m * pow2(j) - 1024) * 0x2000;
            &&& s / 0x80_0000 == 113 - j
            &&& s % 0x80_0000 == (m * pow2(j) - 1024) * 0x2000
            &&& 0x80_0000 + s % 0x80_0000 == m * pow2((13 + j) as nat)
            &&& 0 <= s < 0x8000_0000
        }),
{
    vstd::arithmetic::power2::lemma2_to64();
    if j > 10 {
        vstd::arithmetic::power2::lemma_pow2_strictly_increases(10, j);
        assert(pow2(j) > 1024);
        vstd::arithmetic::power2::lemma_pow2_unfold(j);
        if j > 11 {
            vstd::arithmetic::power2::lemma_pow2_strictly_increases(11, j);
        }
        assert(pow2(j) >= 2048);
        assert(m * pow2(j) >= 2048) by (nonlinear_arith)
            requires
                m >= 1,
                pow2(j) >= 2048,
        ;
    }
    if j == 0 {
        assert(pow2(0) == 1);
    }
    vstd::arithmetic::power2::lemma_pow2_adds(13, j);
    let x = m * pow2(j);
    assert(m * pow2((13 + j) as nat) == x * 8192) by (nonlinear_arith)
        requires
            pow2((13 + j) as nat) == 8192 * pow2(j),
            x == m * pow2(j),
    ;
}

/// A brain-float number, unless it is none, is the upper half of the number that it
/// is widened to.
pub proof fn law_brain_floats_are_upper_halves(bits: u16)
    requires
        bits <= 0x7f80 || 0x8000 <= bits <= 0xff80,
    ensures
        brain_widened(bits) == bits * 65536,
{
    assert((bits & 0x7FFFu16) <= 0x7F80u16 && ((bits as u32) << 16u32) == bits * 65536)
        by (bit_vector)
        requires
            bits <= 0x7f80u16 || (0x8000u16 <= bits && bits <= 0xff80u16),
    ;
}

// ----- tensors by name ------------------------------------------------------------

/// A tensor is read from the first file that has its name, with the shape and the
/// numbers that it has there.
pub proof fn law_a_tensor_is_read_from_the_first_file(
    shards: Seq<Shard<'_>>,
    name: Seq<char>,
    i: int,
)
    requires
        0 <= i < shards.len(),
        found_in(shards[i].bytes@) is Some,
        found_in(shards[i].bytes@)->0.dom().contains(name),
        forall|j: int|
            0 <= j < i ==> found_in((#[trigger] shards[j]).bytes@) is None || !found_in(
                shards[j].bytes@,
            )->0.dom().contains(name),
    ensures
        shard_of(shards, name) == Some(i),
        ({
            let t = found_in(shards[i].bytes@)->0[name];
            &&& loaded(shards, name) is Some <==> t.0 == "F32"@ || t.0 == "F16"@ || t.0 == "BF16"@
            &&& loaded(shards, name) matches Some(c) ==> c.shape == t.1 && Some(c.values)
                == numbers(t.0, t.2)
        }),
{
    lemma_shard_of(shards, name);
    match shard_of(shards, name) {
        Some(k) => {
            if k < i {
                assert(found_in(shards[k].bytes@) is None || !found_in(
                    shards[k].bytes@,
                )->0.dom().contains(name));
            }
        },
        None => {},
    }
    law_other_dtypes_are_not_read(
        found_in(shards[i].bytes@)->0[name].0,
        found_in(shards[i].bytes@)->0[name].2,
    );
}

/// A need is met by a tensor of its name with exactly its shape; only an optional
/// one is met by none.
pub proof fn law_needs_are_met_by_name_and_shape(shards: Seq<Shard<'_>>, need: Need)
    ensures
        need.optional && shard_of(shards, need.name) is None ==> met(shards, need),
        !need.optional && shard_of(shards, need.name) is None ==> !met(shards, need),
        met(shards, need) && shard_of(shards, need.name) is Some ==> loaded(
            shards,
            need.name,
        ) is Some && (loaded(shards, need.name)->0).shape == need.shape,
        loaded(shards, need.name) matches Some(c) ==> c.shape == need.shape && need.shape.len() == 1
            ==> met(shards, need),
        loaded(shards, need.name) matches Some(c) ==> c.shape == need.shape && need.shape.len() == 2
            && c.values.len() == need.shape[0] * need.shape[1] ==> met(shards, need),
{
}

/// A need that is not met is reported by its name: as not found, as one of a dtype
/// that is not read, or with the shape that was expected and the one that is there.
pub proof fn law_unmet_needs_are_reported(shards: Seq<Shard<'_>>, need: Need, e: ModelError)
    requires
        need_failure(shards, need, e),
    ensures
        shard_of(shards, need.name) is None ==> (e matches ModelError::TensorNotFound(n) && n@
            == need.name),
        shard_of(shards, need.name) is Some && loaded(shards, need.name) is None
            ==> e is UnsupportedDtype,
        loaded(shards, need.name) matches Some(c) ==> c.shape != need.shape
            ==> (e matches ModelError::ShapeMismatch { name, expected, actual } && name@ == need.name
            && expected@ == need.shape && actual@ == c.shape),
{
}

/// Of two texts the one comes first that has the smaller character where they
/// first differ, or that the other only continues.
pub proof fn law_texts_are_ordered_by_their_first_difference(a: Seq<char>, b: Seq<char>, k: int)
    requires
        0 <= k <= a.len(),
        k < b.len(),
        forall|i: int| 0 <= i < k ==> a[i] == b[i],
    ensures
        k == a.len() ==> before(a, b),
        k < a.len() && (a[k] as u32) < (b[k] as u32) ==> before(a, b),
        k < a.len() && (a[k] as u32) > (b[k] as u32) ==> !before(a, b),
    decreases a.len(),
{
    if k > 0 {
        let c = a.drop_first();
        let d = b.drop_first();
        assert forall|i: int| 0 <= i < k - 1 implies c[i] == d[i] by {
            assert(a[i + 1] == b[i + 1]);
        }
        law_texts_are_ordered_by_their_first_difference(c, d, k - 1);
        assert(a[0] == b[0]);
    }
}

/// A file is a shard by its extension, and a path puts the file behind its
/// directory with one slash between them.
pub proof fn law_shards_are_named_by_their_extension(dir: Seq<char>, stem: Seq<char>)
    ensures
        stem.len() > 0 ==> is_shard(stem + ".safetensors"@),
        !is_shard(".safetensors"@),
        dir.len() == 0 ==> inside(dir, stem) == stem,
        dir.len() > 0 && dir.last() == '/' ==> inside(dir, stem) == dir + stem,
        dir.len() > 0 && dir.last() != '/' ==> inside(dir, stem) == dir + "/"@ + stem,
{
    reveal_strlit(".safetensors");
    let name = stem + ".safetensors"@;
    assert(name.skip(name.len() - 12) =~= ".safetensors"@);
    assert(dir.len() == 0 ==> dir + stem =~= stem);
}

// ----- configurations -------------------------------------------------------------

/// Which names stand for which architecture, and no other name for any.
pub proof fn law_architectures_by_name(name: Seq<char>)
    ensures
        by_class(name) == Some(Architecture::Llama) <==> name == "LlamaForCausalLM"@ || name
            == "MistralForCausalLM"@,
        by_class(name) == Some(Architecture::Qwen2) <==> name == "Qwen2ForCausalLM"@,
        by_type(name) == Some(Architecture::Llama) <==> name == "llama"@ || name == "mistral"@,
        by_type(name) == Some(Architecture::Qwen2) <==> name == "qwen2"@,
        Architecture::Llama.label() == "llama"@,
        Architecture::Qwen2.label() == "qwen2"@,
{
    reveal_strlit("LlamaForCausalLM");
    reveal_strlit("MistralForCausalLM");
    reveal_strlit("Qwen2ForCausalLM");
    reveal_strlit("llama");
    reveal_strlit("mistral");
    reveal_strlit("qwen2");
    assert("LlamaForCausalLM"@[0] != "Qwen2ForCausalLM"@[0]);
    assert("MistralForCausalLM"@[0] != "Qwen2ForCausalLM"@[0]);
    assert("llama"@[0] != "qwen2"@[0]);
    assert("mistral"@[0] != "qwen2"@[0]);
}

/// The first known class name decides, and the model type where none is known.
pub proof fn law_the_first_known_class_decides(config: HfConfig, i: int)
    ensures
        0 <= i < config.architectures@.len() && by_class(config.architectures@[i]@) is Some && (
        forall|j: int|
            0 <= j < i ==> by_class((#[trigger] config.architectures@[j])@) is None)
            ==> Architecture::of(config) == by_class(config.architectures@[i]@),
        (forall|j: int|
            0 <= j < config.architectures@.len() ==> by_class(
                (#[trigger] config.architectures@[j])@,
            ) is None) ==> (config.model_type matches Some(t) ==> Architecture::of(config)
            == by_type(t@)),
        (forall|j: int|
            0 <= j < config.architectures@.len() ==> by_class(
                (#[trigger] config.architectures@[j])@,
            ) is None) && config.model_type is None ==> Architecture::of(config) is None,
        config.architectures@.len() > 0 ==> Architecture::unknown_name(config)
            == config.architectures@[0]@,
        config.architectures@.len() == 0 ==> (config.model_type matches Some(t)
            ==> Architecture::unknown_name(config) == t@),
{
    lemma_first_known(config.architectures@, i);
}

proof fn lemma_first_known(names: Seq<String>, i: int)
    ensures
        0 <= i < names.len() && by_class(names[i]@) is Some && (forall|j: int|
            0 <= j < i ==> by_class((#[trigger] names[j])@) is None) ==> first_known(names)
            == by_class(names[i]@),
        (forall|j: int| 0 <= j < names.len() ==> by_class((#[trigger] names[j])@) is None)
            ==> first_known(names) is None,
    decreases names.len(),
{
    if names.len() > 0 {
        let rest = names.drop_first();
        lemma_first_known(rest, i - 1);
        if forall|j: int| 0 <= j < names.len() ==> by_class((#[trigger] names[j])@) is None {
            assert forall|j: int| 0 <= j < rest.len() implies by_class(
                (#[trigger] rest[j])@,
            ) is None by {
                assert(rest[j] == names[j + 1]);
            }
            assert(by_class(names[0]@) is None);
        }
        if 0 < i < names.len() && by_class(names[i]@) is Some && (forall|j: int|
            0 <= j < i ==> by_class((#[trigger] names[j])@) is None) {
            assert forall|j: int| 0 <= j < i - 1 implies by_class(
                (#[trigger] rest[j])@,
            ) is None by {
                assert(rest[j] == names[j + 1]);
            }
            assert(rest[i - 1] == names[i]);
            assert(by_class(names[0]@) is None);
        }
    }
}

/// The names of dtypes, and full precision where none is given.
pub proof fn law_dtypes_by_name(name: String)
    ensures
        dtype_of(None) == Some(DType::F32),
        dtype_of(Some(name)) == Some(DType::F32) <==> name@ == "float32"@ || name@ == "float"@,
        dtype_of(Some(name)) == Some(DType::F16) <==> name@ == "float16"@ || name@ == "half"@,
        dtype_of(Some(name)) == Some(DType::BF16) <==> name@ == "bfloat16"@,
        dtype_of(Some(name)) matches Some(d) ==> !(d is I8) && !(d is I4),
{
    reveal_strlit("float32");
    reveal_strlit("float");
    reveal_strlit("float16");
    reveal_strlit("half");
    reveal_strlit("bfloat16");
    assert("float32"@[5] != "float16"@[5]);
    assert("float"@.len() != "float16"@.len());
    assert("half"@.len() != "float32"@.len());
    assert("half"@.len() != "float"@.len());
    assert("bfloat16"@.len() != "float32"@.len());
    assert("bfloat16"@.len() != "float"@.len());
    assert("bfloat16"@.len() != "float16"@.len());
    assert("bfloat16"@.len() != "half"@.len());
}

/// A configuration is consistent exactly where it has heads and layers, its heads
/// group evenly over its KV heads, a head has some width, and there is a vocabulary.
pub proof fn law_consistent_configurations_are_accepted(c: HfConfig)
    ensures
        c.num_key_value_heads matches Some(n) ==> c.kv_heads() == n,
        c.num_key_value_heads is None ==> c.kv_heads() == c.num_attention_heads,
        c.head_dim matches Some(n) ==> c.head_width() == n,
        c.head_dim is None && c.num_attention_heads > 0 ==> c.head_width()
            * c.num_attention_heads <= c.hidden_size < (c.head_width() + 1) * c.num_attention_heads,
        c.complaint() is None <==> {
            &&& c.num_attention_heads > 0
            &&& c.num_hidden_layers > 0
            &&& c.kv_heads() > 0
            &&& c.num_attention_heads as int % c.kv_heads() as int == 0
            &&& c.head_width() != 0
            &&& c.vocab_size > 0
        },
        c.num_attention_heads == 0 || c.num_hidden_layers == 0 ==> c.complaint() == Some(
            "num_attention_heads and num_hidden_layers must be non-zero"@,
        ),
        c.num_attention_heads > 0 && c.num_hidden_layers > 0 && c.num_key_value_heads == Some(
            0usize,
        ) ==> c.complaint() == Some("num_key_value_heads must be non-zero"@),
        c.complaint() is Some && c.num_attention_heads > 0 && c.num_hidden_layers > 0
            && c.kv_heads() > 0 && c.num_attention_heads as int % c.kv_heads() as int == 0
            && c.head_width() == 0 ==> c.complaint() == Some("head_dim resolved to zero"@),
        c.complaint() is Some && c.num_attention_heads > 0 && c.num_hidden_layers > 0
            && c.kv_heads() > 0 && c.num_attention_heads as int % c.kv_heads() as int == 0
            && c.head_width() != 0 ==> c.complaint() == Some("vocab_size must be non-zero"@),
{
    if c.head_dim is None && c.num_attention_heads > 0 {
        let h = c.hidden_size as int;
        let n = c.num_attention_heads as int;
        let w = h / n;
        vstd::arithmetic::div_mod::lemma_fundamental_div_mod(h, n);
        vstd::arithmetic::div_mod::lemma_mod_bound(h, n);
        assert(w * n <= h && h < (w + 1) * n) by (nonlinear_arith)
            requires
                h == n * w + h % n,
                0 <= h % n < n,
        ;
    }
}

// ----- places in the store --------------------------------------------------------

/// A position lies in the block that its logical block maps to, at its distance
/// from that block's first position; one behind the table lies nowhere.
pub proof fn law_positions_are_located(table: Seq<u32>, unit: int, i: int, slot: int)
    requires
        unit > 0,
        0 <= i,
        0 <= slot < unit,
    ensures
        i < table.len() ==> located(table, i * unit + slot, unit) == Some((table[i], slot)),
        i >= table.len() ==> located(table, i * unit + slot, unit) is None,
{
    assert((i * unit + slot) / unit == i && (i * unit + slot) % unit == slot) by {
        vstd::arithmetic::div_mod::lemma_fundamental_div_mod_converse(
            i * unit + slot,
            unit,
            i,
            slot,
        );
    }
}

/// The keys of a row go where keys are read, and its values where values are, each
/// head's part of the row to that head.
pub proof fn law_keys_and_values_go_to_their_places<T>(
    m: StoreModel<T>,
    layer: int,
    slots: Seq<(u32, usize)>,
    k: MatrixModel<T>,
    v: MatrixModel<T>,
    row: int,
    head: int,
)
    requires
        holds_rows(m, layer, slots, k, v, slots.len() as int),
        0 <= row < slots.len(),
        0 <= head < m.shape.heads,
        forall|later: int| row < later < slots.len() ==> #[trigger] slots[later] != slots[row],
    ensures
        m.at(
            (Place {
                layer,
                block: slots[row].0 as int,
                is_value: false,
                slot: slots[row].1 as int,
                head,
            }),
        ) == k.row(row).subrange(head * m.shape.dim, head * m.shape.dim + m.shape.dim),
        m.at(
            (Place {
                layer,
                block: slots[row].0 as int,
                is_value: true,
                slot: slots[row].1 as int,
                head,
            }),
        ) == v.row(row).subrange(head * m.shape.dim, head * m.shape.dim + m.shape.dim),
{
    assert(last_with_slot(slots, row, slots.len() as int));
    assert(holds_head(m, layer, slots[row], k.row(row), v.row(row), head));
}

/// An access is refused exactly where a coordinate is out of range or the vector has
/// another length than a head.
pub proof fn law_accesses_in_range_are_allowed(s: Shape, p: Place, len: int)
    ensures
        s.complaint(p, len) is None <==> {
            &&& p.layer < s.layers
            &&& p.block < s.blocks
            &&& p.slot < s.slots
            &&& p.head < s.heads
            &&& len == s.dim
        },
        p.layer >= s.layers ==> s.complaint(p, len) == Some(
            "layer "@ + decimal(p.layer as nat) + " out of range (have "@ + decimal(
                s.layers as nat,
            ) + ")"@,
        ),
        p.layer < s.layers && p.block >= s.blocks ==> s.complaint(p, len) == Some(
            "block "@ + decimal(p.block as nat) + " out of range (have "@ + decimal(
                s.blocks as nat,
            ) + ")"@,
        ),
        p.layer < s.layers && p.block < s.blocks && p.slot >= s.slots ==> s.complaint(p, len)
            == Some(
            "slot "@ + decimal(p.slot as nat) + " out of range (block holds "@ + decimal(
                s.slots as nat,
            ) + ")"@,
        ),
{
}

/// A query's shapes fit exactly where query and output are as wide as all query
/// heads and those share the KV heads evenly.
pub proof fn law_fitting_shapes_are_allowed(args: AttentionArgs<'_>, query_len: int, out_len: int)
    ensures
        args.shape_complaint(query_len, out_len) is None <==> {
            &&& query_len == args.num_query_heads * args.head_dim
            &&& out_len == query_len
            &&& args.num_kv_heads > 0
            &&& args.num_query_heads as int % args.num_kv_heads as int == 0
        },
{
}

/// A place that is in another layer, or at a slot that no row has, is not written.
pub proof fn law_other_places_are_untouched(p: Place, layer: int, slots: Seq<(u32, usize)>)
    ensures
        p.layer != layer ==> untouched(p, layer, slots),
        untouched(p, layer, slots) && p.layer == layer ==> forall|row: int|
            0 <= row < slots.len() ==> p.block != (#[trigger] slots[row]).0 || p.slot
                != slots[row].1,
{
}

/// A row's slot is that of its position in its own sequence's block table.
pub proof fn law_rows_use_their_sequences_table(
    batch: ForwardBatch,
    row: int,
    unit: int,
    i: int,
    slot: int,
)
    requires
        unit > 0,
        0 <= i,
        0 <= slot < unit,
        batch.positions@[row] == i * unit + slot,
        i < batch.block_tables@[owner(batch.slot_token_counts@, row)]@.len(),
    ensures
        row_slot(batch, row, unit) == Some(
            (batch.block_tables@[owner(batch.slot_token_counts@, row)]@[i], slot),
        ),
{
    law_positions_are_located(
        batch.block_tables@[owner(batch.slot_token_counts@, row)]@,
        unit,
        i,
        slot,
    );
}

// ----- matrices -------------------------------------------------------------------

/// A matrix is stored row by row.
pub proof fn law_matrices_are_row_major<T>(m: MatrixModel<T>, i: int, j: int)
    requires
        m.wf(),
        0 <= i < m.rows,
        0 <= j < m.cols,
    ensures
        m.row(i).len() == m.cols,
        m.row(i)[j] == m.data[i * m.cols + j],
{
    crate::models::tensor::lemma_row_range(i, m.rows, m.cols);
}

/// A linear layer applies exactly where the input has as many features as the weight
/// takes, and a bias as many as it gives.
pub proof fn law_fitting_layers_apply(k: int, out_features: int, in_features: int, b: int)
    ensures
        linear_complaint(k, out_features, in_features, None) is None <==> k == in_features,
        linear_complaint(k, out_features, in_features, Some(b)) is None <==> k == in_features && b
            == out_features,
        k != in_features ==> linear_complaint(k, out_features, in_features, Some(b)) == Some(
            "linear shape mismatch: input has "@ + decimal(k as nat) + " features, weight expects "@
                + decimal(in_features as nat),
        ),
        size_complaint(k, out_features, in_features) == "matrix data has "@ + decimal(k as nat)
            + " elements, expected "@ + decimal(out_features as nat) + "x"@ + decimal(
            in_features as nat,
        ) + " = "@ + decimal((out_features * in_features) as nat),
{
}

// ----- quantized codes ------------------------------------------------------------

/// Four-bit codes stand two to a byte, the first in the lower half; eight-bit codes
/// one to a byte.
pub proof fn law_codes_have_their_place_in_a_byte(values: Seq<i32>, k: int)
    requires
        0 <= k,
    ensures
        2 * k + 1 < values.len() && 0 <= values[2 * k] < 16 && 0 <= values[2 * k + 1] < 16
            ==> packed(values, QuantBits::Int4)[k] == values[2 * k] + 16 * values[2 * k + 1],
        2 * k + 1 == values.len() && 0 <= values[2 * k] < 16 ==> packed(
            values,
            QuantBits::Int4,
        )[k] == values[2 * k],
        k < values.len() && 0 <= values[k] < 256 ==> packed(values, QuantBits::Int8)[k]
            == values[k],
        QuantBits::Int4.width() == 4 && QuantBits::Int4.top() == 15,
        QuantBits::Int8.width() == 8 && QuantBits::Int8.top() == 255,
        QuantBits::Int4.label() == "int4"@ && QuantBits::Int8.label() == "int8"@,
{
    if 2 * k + 1 < values.len() && 0 <= values[2 * k] < 16 && 0 <= values[2 * k + 1] < 16 {
        lemma_paired(values[2 * k] as u8, values[2 * k + 1] as u8);
    }
    if 2 * k + 1 == values.len() && 0 <= values[2 * k] < 16 {
        lemma_paired(values[2 * k] as u8, 0);
    }
}

proof fn lemma_paired(low: u8, high: u8)
    requires
        low < 16,
        high < 16,
    ensures
        ((low & 0x0Fu8) | ((high & 0x0Fu8) << 4u8)) == low + 16 * high,
{
    assert(((low & 0x0Fu8) | ((high & 0x0Fu8) << 4u8)) == low + 16 * high) by (bit_vector)
        requires
            low < 16u8,
            high < 16u8,
    ;
}

/// How numbers that are not finite are written.
pub proof fn law_non_finite_numbers_are_written(v: Float32)
    ensures
        v.bits == 0x7f80_0000 ==> written(v) == "inf"@,
        v.bits == 0xff80_0000 ==> written(v) == "-inf"@,
        0x7f80_0000 < v.bits < 0x8000_0000 || 0xff80_0000 < v.bits ==> written(v) == "NaN"@,
{
}

// ----- sizes ----------------------------------------------------------------------

/// The widths and names of dtypes, and what a token takes in the cache: a key and a
/// value of each KV head in each layer.
pub proof fn law_dtypes_and_cache_sizes(m: ModelMetadata)
    ensures
        DType::F32.width() == 32 && DType::F16.width() == 16 && DType::BF16.width() == 16,
        DType::I8.width() == 8 && DType::I4.width() == 4,
        DType::F32.label() == "f32"@ && DType::BF16.label() == "bf16"@,
        DType::I8.label() == "i8"@ && DType::I4.label() == "i4"@,
        m.kv_elements() == m.num_layers * (m.num_kv_heads * m.head_dim + m.num_kv_heads
            * m.head_dim),
{
    let a = m.num_layers as int;
    let b = m.num_kv_heads as int;
    let c = m.head_dim as int;
    assert(2 * a * b * c == a * (b * c + b * c)) by (nonlinear_arith);
}

/// A batch is consistent exactly where each sequence has a count, a context length
/// and a table, each token a position, and the counts add up to the tokens.
pub proof fn law_consistent_batches(b: ForwardBatch)
    ensures
        b.consistent() <==> {
            &&& b.slot_token_counts@.len() == b.sequence_ids@.len()
            &&& b.context_lens@.len() == b.sequence_ids@.len()
            &&& b.block_tables@.len() == b.sequence_ids@.len()
            &&& b.positions@.len() == b.tokens@.len()
            &&& total(b.slot_token_counts@) == b.tokens@.len()
        },
{
}

/// A sum grows by what is added to it.
pub proof fn law_totals_add_up(counts: Seq<usize>, n: usize)
    ensures
        total(counts.push(n)) == total(counts) + n,
        counts.len() == 0 ==> total(counts) == 0,
{
    assert(counts.push(n).drop_last() =~= counts);
}

/// A tensor takes the bytes of its codes and four for each scale and zero point.
pub proof fn law_quantized_tensors_count_their_metadata(t: QuantizedTensor)
    ensures
        t.occupied() == t.data@.len() + 4 * (t.scales@.len() + t.zero_points@.len()),
{
}

/// What a code stands for is told by its own group: the constant of a group without
/// a scale, and else its distance from the group's zero point in steps of the scale.
pub proof fn law_codes_are_read_by_their_group(t: QuantizedTensor, at: int, code: i32)
    requires
        0 <= at,
        at / 128 < t.scales@.len(),
        at / 128 < t.zero_points@.len(),
    ensures
        t.scales@[at / 128].bits == 0 ==> t.element(at, code) == Element::Constant(
            carried(t.zero_points@[at / 128]),
        ),
        0 < t.scales@[at / 128].bits <= 0x7f80_0000 ==> (t.element(at, code) matches Element::Steps {
            steps,
            scale,
        } && steps == code - t.zero_points@[at / 128] && scale == t.scales@[at / 128]),
{
}

/// As many codes are read as were asked for, where the bytes hold so many.
pub proof fn law_as_many_codes_are_read_as_asked_for(data: Seq<u8>, count: int, k: int)
    requires
        0 < count <= 2 * data.len(),
    ensures
        unpacked(data, QuantBits::Int4, count).len() == count,
        count <= data.len() ==> unpacked(data, QuantBits::Int8, count).len() == count,
        0 <= k < count <= data.len() ==> unpacked(data, QuantBits::Int8, count)[k] == data[k],
        0 <= k && 2 * k < count ==> unpacked(data, QuantBits::Int4, count)[2 * k] == data[k] % 16,
        0 <= k && 2 * k + 1 < count ==> unpacked(data, QuantBits::Int4, count)[2 * k + 1] == data[k]
            / 16,
{
    if 0 <= k < data.len() {
        let b = data[k];
        assert((b & 0x0Fu8) == b % 16 && (b >> 4u8) == b / 16) by (bit_vector);
    }
}

/// Where a whole model's needs are met, the checkpoint has its embedding, its norm,
/// the needs of every layer, and its head where it has one of its own.
pub proof fn law_a_model_needs_every_layer(
    shards: Seq<Shard<'_>>,
    d: Dimensions,
    arch: Architecture,
    head: bool,
    i: int,
)
    requires
        all_met(shards, model_needs(d, arch, head)),
    ensures
        met(
            shards,
            (Need {
                name: "model.embed_tokens.weight"@,
                shape: seq![d.vocab, d.hidden],
                optional: false,
            }),
        ),
        met(
            shards,
            (Need { name: "model.norm.weight"@, shape: seq![d.hidden], optional: false }),
        ),
        head ==> met(
            shards,
            (Need { name: "lm_head.weight"@, shape: seq![d.vocab, d.hidden], optional: false }),
        ),
        0 <= i < d.layers ==> all_met(shards, layer_needs(i, d, arch)),
{
    let first = seq![matrix_need("model.embed_tokens.weight"@, d.vocab, d.hidden)];
    let middle = layers_need(d.layers as int, d, arch);
    let tail = tail_needs(d, head);
    let needs = model_needs(d, arch, head);
    assert(needs[0] == first[0]);
    assert(met(shards, needs[0]));
    assert forall|k: int| 0 <= k < tail.len() implies met(shards, #[trigger] tail[k]) by {
        assert(needs[first.len() + middle.len() + k] == tail[k]);
    }
    assert(met(shards, tail[tail.len() - 1]));
    assert(met(shards, tail[0]));
    assert forall|k: int| 0 <= k < middle.len() implies met(shards, #[trigger] middle[k]) by {
        assert(needs[first.len() + k] == middle[k]);
    }
    if 0 <= i < d.layers {
        lemma_layer_met(shards, d, arch, d.layers as int, i);
    }
}

proof fn lemma_layer_met(
    shards: Seq<Shard<'_>>,
    d: Dimensions,
    arch: Architecture,
    n: int,
    i: int,
)
    requires
        all_met(shards, layers_need(n, d, arch)),
        0 <= i < n,
    ensures
        all_met(shards, layer_needs(i, d, arch)),
    decreases n,
{
    let front = layers_need(n - 1, d, arch);
    let last = layer_needs(n - 1, d, arch);
    let all = layers_need(n, d, arch);
    if i == n - 1 {
        assert forall|k: int| 0 <= k < last.len() implies met(shards, #[trigger] last[k]) by {
            assert(all[front.len() + k] == last[k]);
        }
    } else {
        assert forall|k: int| 0 <= k < front.len() implies met(shards, #[trigger] front[k]) by {
            assert(all[k] == front[k]);
        }
        lemma_layer_met(shards, d, arch, n - 1, i);
    }
}

/// A failed load is that of a need which the checkpoint does not meet, all needs
/// before it being met.
pub proof fn law_the_first_unmet_need_fails(
    shards: Seq<Shard<'_>>,
    needs: Seq<Need>,
    e: ModelError,
) -> (at: int)
    requires
        fails_first(shards, needs, e),
    ensures
        0 <= at < needs.len(),
        !met(shards, needs[at]),
        forall|i: int| 0 <= i < at ==> met(shards, #[trigger] needs[i]),
        need_failure(shards, needs[at], e),
        !all_met(shards, needs),
{
    let at = choose|at: int| fails_at(shards, needs, at, e);
    assert(!met(shards, needs[at]));
    at
}

/// The sizes of a model's weights: as wide as its hidden size, with the rows of all
/// query heads, of all KV heads, and of the feed-forward part.
pub proof fn law_sizes_of_weights(d: Dimensions, config: HfConfig, meta: ModelMetadata)
    requires
        d.of(config, meta),
    ensures
        d.vocab == meta.vocab_size,
        d.hidden == meta.hidden_size,
        d.layers == meta.num_layers,
        d.query == meta.num_attention_heads * meta.head_dim,
        d.key_value == meta.num_kv_heads * meta.head_dim,
        config.intermediate_size matches Some(n) ==> d.ffn == n,
        config.intermediate_size is None ==> d.ffn == 4 * config.hidden_size,
{
}

/// Reading a position is refused exactly where the table does not reach it or its
/// place is not one of the store's.
pub proof fn law_reads_in_range_are_allowed(
    args: AttentionArgs<'_>,
    s: Shape,
    i: int,
    slot: int,
    head: int,
)
    requires
        args.block_size > 0,
        0 <= i,
        0 <= slot < args.block_size,
    ensures
        i < args.block_table@.len() ==> (args.read_complaint(
            s,
            i * args.block_size + slot,
            head,
        ) is None <==> args.layer < s.layers && args.block_table@[i] < s.blocks && slot < s.slots
            && head < s.heads),
        i >= args.block_table@.len() ==> args.read_complaint(
            s,
            i * args.block_size + slot,
            head,
        ) is Some,
{
    law_positions_are_located(args.block_table@, args.block_size as int, i, slot);
}

/// A query attends exactly where its shapes fit and, if it has heads, every position
/// up to its own can be read and the store has its KV heads.
pub proof fn law_queries_that_can_attend(
    args: AttentionArgs<'_>,
    s: Shape,
    query_len: int,
    out_len: int,
    k: int,
)
    requires
        args.complaint(s, query_len, out_len) is None,
        args.num_query_heads > 0,
        0 <= k <= args.query_position,
    ensures
        args.shape_complaint(query_len, out_len) is None,
        args.num_kv_heads <= s.heads,
        args.read_complaint(s, k, 0) is None,
{
    lemma_reads(args, s, 0, k);
}

proof fn lemma_reads(args: AttentionArgs<'_>, s: Shape, from: int, k: int)
    requires
        args.first_read_complaint(s, from) is None,
        from <= k <= args.query_position,
    ensures
        args.read_complaint(s, k, 0) is None,
    decreases k - from,
{
    if from < k {
        lemma_reads(args, s, from + 1, k);
    }
}

/// A store has a key and a value of every head for every slot of every block in every
/// layer.
pub proof fn law_stores_hold_keys_and_values(s: Shape)
    ensures
        s.total() == s.layers * s.blocks * s.slots * s.heads * s.dim + s.layers * s.blocks * s.slots
            * s.heads * s.dim,
        s.vectors() * s.dim == s.total(),
{
    let a = s.layers * s.blocks;
    let (b, c, d) = (s.slots, s.heads, s.dim);
    assert(a * 2 * b * c * d == a * b * c * d + a * b * c * d) by (nonlinear_arith);
}

} // verus!
