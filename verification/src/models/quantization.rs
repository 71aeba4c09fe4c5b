//! Group-wise weight quantization: packing, groups, and their bookkeeping.
//!
//! A single scale for an entire weight matrix is too coarse: one outlier
//! forces a scale that crushes everything else to a handful of levels. Scales
//! are therefore per group. The arithmetic of scaling is the caller's; which
//! values are refused, which groups are constant, and how codes are packed into
//! bytes and read back is decided here.

use crate::error::EngineError;
use crate::float::Float32;
use crate::ratio::Ratio;
use crate::text::join3;
use vstd::prelude::*;
use vstd::string::*;

verus! {

/// Elements sharing one scale factor.
///
/// Smaller groups track outliers better but add metadata and more per-group
/// work.
pub const GROUP_SIZE: usize = 128;

/// Quantization width.
#[derive(Debug, Clone, Copy, PartialEq, Eq, Structural)]
pub enum QuantBits {
    Int8,
    Int4,
}

impl QuantBits {
    pub open spec fn width(self) -> int {
        match self {
            QuantBits::Int8 => 8,
            QuantBits::Int4 => 4,
        }
    }

    pub open spec fn top(self) -> int {
        match self {
            QuantBits::Int8 => 255,
            QuantBits::Int4 => 15,
        }
    }

    pub fn bits(self) -> (r: usize)
        ensures
            r == self.width(),
    {
        match self {
            QuantBits::Int8 => 8,
            QuantBits::Int4 => 4,
        }
    }

    /// Number of representable levels: two to the power of the width.
    pub fn levels(self) -> (r: i32)
        ensures
            r == self.top() + 1,
            r == vstd::arithmetic::power2::pow2(self.width() as nat),
    {
        proof {
            vstd::arithmetic::power2::lemma2_to64();
        }
        match self {
            QuantBits::Int8 => 256,
            QuantBits::Int4 => 16,
        }
    }

    /// Highest representable unsigned value.
    pub fn max_value(self) -> (r: i32)
        ensures
            r == self.top(),
    {
        self.levels() - 1
    }

    pub open spec fn label(self) -> Seq<char> {
        match self {
            QuantBits::Int8 => "int8"@,
            QuantBits::Int4 => "int4"@,
        }
    }

    pub fn as_str(self) -> (r: &'static str)
        ensures
            r@ == self.label(),
    {
        match self {
            QuantBits::Int8 => "int8",
            QuantBits::Int4 => "int4",
        }
    }
}

/// A group-wise quantized tensor.
#[derive(Debug)]
pub struct QuantizedTensor {
    /// Packed quantized values. For INT4, two values per byte.
    pub data: Vec<u8>,
    /// One scale per group.
    pub scales: Vec<Float32>,
    /// One zero-point per group, for asymmetric quantization. For a constant
    /// group, whose scale is zero, the bit pattern of the constant.
    pub zero_points: Vec<i32>,
    pub num_elements: usize,
    pub bits: QuantBits,
}

impl QuantizedTensor {
    pub open spec fn occupied(&self) -> nat {
        self.data@.len() + 4 * self.scales@.len() + 4 * self.zero_points@.len()
    }

    /// Bytes occupied, scales and zero-points counted.
    pub fn size_in_bytes(&self) -> (r: usize)
        requires
            self.occupied() <= usize::MAX,
        ensures
            r == self.occupied(),
    {
        self.data.len() + self.scales.len() * 4 + self.zero_points.len() * 4
    }

    /// Compression ratio against the same tensor in single precision, with the
    /// metadata counted, so it is always below `32 / bits`.
    pub fn compression_ratio(&self) -> (r: Ratio)
        requires
            self.occupied() <= usize::MAX,
            4 * self.num_elements <= usize::MAX,
        ensures
            r == Ratio::spec_of((4 * self.num_elements) as u64, self.occupied() as u64),
    {
        let original: usize = self.num_elements * 4;
        Ratio::of(original as u64, self.size_in_bytes() as u64)
    }

    pub fn num_groups(&self) -> (r: usize)
        ensures
            r == self.scales@.len(),
    {
        self.scales.len()
    }
}

/// How a number that is not finite is written.
pub open spec fn written(v: Float32) -> Seq<char> {
    if v.nan() {
        "NaN"@
    } else if v.place() > 0 {
        "inf"@
    } else {
        "-inf"@
    }
}

/// The smallest and the largest value of a group.
#[derive(Debug, Clone, Copy)]
pub struct GroupBounds {
    pub min: Float32,
    pub max: Float32,
}

impl GroupBounds {
    /// Whether the group has no range: all of its values are one number.
    pub fn is_constant(self) -> (r: bool)
        ensures
            r == !self.min.below(self.max),
    {
        !self.min.lt(self.max)
    }
}

/// Whether the spans are the groups of that many values: they follow one
/// another from the first value to the last, each of a full group but the last.
pub open spec fn spans_of(len: int, spans: Seq<(usize, usize)>) -> bool {
    &&& spans.len() == (len + GROUP_SIZE - 1) / GROUP_SIZE as int
    &&& forall|i: int|
        #![trigger spans[i]]
        0 <= i < spans.len() ==> {
            &&& spans[i].0 == i * GROUP_SIZE
            &&& spans[i].0 < spans[i].1
            &&& spans[i].1 == if i == spans.len() - 1 {
                len
            } else {
                (i + 1) * GROUP_SIZE
            }
        }
}

/// The groups that values are quantized in: where each begins, and where it
/// ends.
pub fn group_spans(len: usize) -> (r: Vec<(usize, usize)>)
    ensures
        spans_of(len as int, r@),
{
    let mut out: Vec<(usize, usize)> = Vec::new();
    let mut at: usize = 0;
    while at < len
        invariant
            at <= len,
            at == out@.len() * GROUP_SIZE || at == len,
            at == len ==> out@.len() == (len + GROUP_SIZE - 1) / GROUP_SIZE as int,
            at < len ==> at == out@.len() * GROUP_SIZE,
            forall|i: int|
                #![trigger out@[i]]
                0 <= i < out@.len() ==> {
                    &&& out@[i].0 == i * GROUP_SIZE
                    &&& out@[i].0 < out@[i].1
                    &&& out@[i].1 == if i == out@.len() - 1 {
                        at as int
                    } else {
                        (i + 1) * GROUP_SIZE
                    }
                },
        decreases len - at,
    {
        let end: usize = if len - at > GROUP_SIZE {
            at + GROUP_SIZE
        } else {
            len
        };
        out.push((at, end));
        at = end;
    }
    out
}

/// Every value is in one group: the one that its place tells.
pub proof fn law_groups_partition_the_values(len: int, spans: Seq<(usize, usize)>, at: int)
    requires
        spans_of(len, spans),
        0 <= at < len,
    ensures
        0 <= at / (GROUP_SIZE as int) < spans.len(),
        forall|i: int|
            0 <= i < spans.len() ==> ((#[trigger] spans[i]).0 <= at < spans[i].1 <==> i == at
                / GROUP_SIZE as int),
{
}

/// The bounds of a group of values.
///
/// A value that is not finite means that the checkpoint is corrupt. It is
/// refused, rather than encoded as a plausible-looking integer.
pub fn group_bounds(group: &[Float32]) -> (r: Result<GroupBounds, EngineError>)
    requires
        group@.len() > 0,
    ensures
        match r {
            Ok(b) => {
                &&& forall|i: int| 0 <= i < group@.len() ==> (#[trigger] group@[i]).finite()
                &&& group@.contains(b.min)
                &&& group@.contains(b.max)
                &&& forall|i: int|
                    0 <= i < group@.len() ==> b.min.place() <= (#[trigger] group@[i]).place()
                        <= b.max.place()
            },
            Err(e) => exists|i: int|
                {
                    &&& 0 <= i < group@.len()
                    &&& !(#[trigger] group@[i]).finite()
                    &&& forall|k: int| 0 <= k < i ==> (#[trigger] group@[k]).finite()
                    &&& e.is_internal(
                        "cannot quantize a group containing a non-finite value ("@ + written(
                            group@[i],
                        ) + ")"@,
                    )
                },
        },
{
    let mut i: usize = 0;
    let mut min: Float32 = group[0];
    let mut max: Float32 = group[0];
    while i < group.len()
        invariant
            0 < group@.len(),
            i <= group@.len(),
            forall|k: int| 0 <= k < i ==> (#[trigger] group@[k]).finite(),
            group@.contains(min),
            group@.contains(max),
            i == 0 ==> min == group@[0] && max == group@[0],
            i > 0 ==> min.finite() && max.finite(),
            forall|k: int|
                0 <= k < i ==> min.place() <= (#[trigger] group@[k]).place() <= max.place(),
        decreases group@.len() - i,
    {
        let v: Float32 = group[i];
        if !v.is_finite() {
            let text = if v.is_nan() {
                "NaN"
            } else if Float32::zero().lt(v) {
                "inf"
            } else {
                "-inf"
            };
            return Err(
                EngineError::Internal(
                    join3("cannot quantize a group containing a non-finite value (", text, ")"),
                ),
            );
        }
        proof {
            assert(group@.contains(v));
        }
        if v.lt(min) {
            min = v;
        }
        if max.lt(v) {
            max = v;
        }
        i += 1;
    }
    Ok(GroupBounds { min, max })
}

/// Four bits in each of two places of a byte, the low one first.
pub open spec fn paired(low: i32, high: i32) -> u8 {
    ((low as u8) & 0x0Fu8) | (((high as u8) & 0x0Fu8) << 4u8)
}

/// Codes as bytes. For INT4 two codes share a byte, low nibble first, and an
/// odd code at the end has zero for company.
pub open spec fn packed(values: Seq<i32>, bits: QuantBits) -> Seq<u8> {
    match bits {
        QuantBits::Int8 => Seq::new(values.len(), |k: int| values[k] as u8),
        QuantBits::Int4 => Seq::new(
            (values.len() + 1) / 2,
            |k: int|
                paired(
                    values[2 * k],
                    if 2 * k + 1 < values.len() {
                        values[2 * k + 1]
                    } else {
                        0
                    },
                ),
        ),
    }
}

/// Packs quantized integers into bytes.
pub fn pack(values: &[i32], bits: QuantBits) -> (r: Vec<u8>)
    ensures
        r@ == packed(values@, bits),
{
    let mut out: Vec<u8> = Vec::new();
    let len: usize = values.len();
    let mut i: usize = 0;
    match bits {
        QuantBits::Int8 => {
            while i < len
                invariant
                    i <= len,
                    len == values@.len(),
                    out@.len() == i,
                    forall|k: int| 0 <= k < i ==> #[trigger] out@[k] == values@[k] as u8,
                decreases len - i,
            {
                out.push(
                    #[verifier::truncate]
                    (values[i] as u8),
                );
                i += 1;
            }
        },
        QuantBits::Int4 => {
            while i < len
                invariant
                    i <= len + 1,
                    i % 2 == 0,
                    bits == QuantBits::Int4,
                    len == values@.len(),
                    out@.len() == i / 2,
                    forall|k: int|
                        0 <= k < i / 2 ==> #[trigger] out@[k] == packed(values@, QuantBits::Int4)[k],
                decreases len + 1 - i,
            {
                let low: i32 = values[i];
                let high: i32 = if len - i > 1 {
                    values[i + 1]
                } else {
                    0
                };
                let byte: u8 = (
                #[verifier::truncate]
                (low as u8) & 0x0Fu8) | ((
                #[verifier::truncate]
                (high as u8) & 0x0Fu8) << 4u8);
                proof {
                    assert(byte == paired(low, high));
                    assert(packed(values@, QuantBits::Int4)[i as int / 2] == paired(low, high));
                }
                out.push(byte);
                if len - i > 1 {
                    i += 2;
                } else {
                    proof {
                        assert(out@ =~= packed(values@, QuantBits::Int4));
                    }
                    return out;
                }
            }
        },
    }
    proof {
        assert(out@ =~= packed(values@, bits));
    }
    out
}

/// How many codes are read out of `len` bytes where `count` are asked for. A
/// byte of four-bit codes always gives its first.
pub open spec fn unpacked_len(len: int, bits: QuantBits, count: int) -> int {
    match bits {
        QuantBits::Int8 => if count < len {
            count
        } else {
            len
        },
        QuantBits::Int4 => if len == 0 {
            0
        } else if count == 0 {
            1
        } else if count < 2 * len {
            count
        } else {
            2 * len
        },
    }
}

/// The codes in packed bytes.
pub open spec fn unpacked(data: Seq<u8>, bits: QuantBits, count: int) -> Seq<i32> {
    Seq::new(
        unpacked_len(data.len() as int, bits, count) as nat,
        |k: int|
            match bits {
                QuantBits::Int8 => data[k] as i32,
                QuantBits::Int4 => if k % 2 == 0 {
                    (data[k / 2] & 0x0Fu8) as i32
                } else {
                    (data[k / 2] >> 4u8) as i32
                },
            },
    )
}

/// Unpacks bytes back into quantized integers.
pub fn unpack(data: &[u8], bits: QuantBits, count: usize) -> (r: Vec<i32>)
    ensures
        r@ == unpacked(data@, bits, count as int),
{
    let mut out: Vec<i32> = Vec::new();
    let ghost whole = unpacked(data@, bits, count as int);
    let mut i: usize = 0;
    match bits {
        QuantBits::Int8 => {
            while i < data.len() && i < count
                invariant
                    i <= data@.len(),
                    i <= count,
                    bits == QuantBits::Int8,
                    whole == unpacked(data@, bits, count as int),
                    out@.len() == i,
                    forall|k: int| 0 <= k < i ==> #[trigger] out@[k] == whole[k],
                decreases data@.len() - i,
            {
                out.push(data[i] as i32);
                i += 1;
            }
        },
        QuantBits::Int4 => {
            while i < data.len()
                invariant
                    i <= data@.len(),
                    bits == QuantBits::Int4,
                    whole == unpacked(data@, bits, count as int),
                    out@.len() == 2 * i,
                    i > 0 ==> out@.len() < count,
                    out@.len() <= whole.len(),
                    forall|k: int| 0 <= k < out@.len() ==> #[trigger] out@[k] == whole[k],
                decreases data@.len() - i,
            {
                let byte: u8 = data[i];
                proof {
                    assert((byte & 0x0Fu8) <= 15) by (bit_vector);
                    assert((byte >> 4u8) <= 15) by (bit_vector);
                    assert((2 * i + 1) / 2 == i);
                    assert(2 * i / 2 == i);
                }
                out.push((byte & 0x0Fu8) as i32);
                if out.len() < count {
                    out.push((byte >> 4u8) as i32);
                }
                if out.len() >= count {
                    proof {
                        assert(out@ =~= whole);
                    }
                    return out;
                }
                i += 1;
            }
        },
    }
    proof {
        assert(out@ =~= whole);
    }
    out
}

/// Codes that fit the width come back from their bytes as they went in.
pub proof fn law_packing_round_trips(values: Seq<i32>, bits: QuantBits)
    requires
        forall|i: int| 0 <= i < values.len() ==> 0 <= #[trigger] values[i] <= bits.top(),
    ensures
        unpacked(packed(values, bits), bits, values.len() as int) == values,
{
    let bytes = packed(values, bits);
    let back = unpacked(bytes, bits, values.len() as int);
    assert(back.len() == values.len());
    assert forall|k: int| 0 <= k < values.len() implies back[k] == values[k] by {
        let v = values[k];
        match bits {
            QuantBits::Int8 => {
                assert(bytes[k] == v as u8);
                assert((v as u8) as i32 == v) by (bit_vector)
                    requires
                        0 <= v <= 255,
                ;
            },
            QuantBits::Int4 => {
                let at = k / 2;
                let low = values[2 * at];
                let high = if 2 * at + 1 < values.len() {
                    values[2 * at + 1]
                } else {
                    0
                };
                assert(bytes[at] == paired(low, high));
                let byte = paired(low, high);
                assert((byte & 0x0Fu8) as i32 == low && (byte >> 4u8) as i32 == high) by (bit_vector)
                    requires
                        byte == ((low as u8) & 0x0Fu8) | (((high as u8) & 0x0Fu8) << 4u8),
                        0 <= low <= 15,
                        0 <= high <= 15,
                ;
            },
        }
    }
    assert(back =~= values);
}

/// Four-bit codes take half the bytes, an odd one rounded up.
pub proof fn law_int4_halves_the_bytes(values: Seq<i32>)
    ensures
        packed(values, QuantBits::Int4).len() == (values.len() + 1) / 2,
        packed(values, QuantBits::Int8).len() == values.len(),
{
}

/// Puts a quantized tensor together from its codes and its groups' scales.
pub fn assemble(
    codes: &[i32],
    scales: Vec<Float32>,
    zero_points: Vec<i32>,
    bits: QuantBits,
) -> (r: QuantizedTensor)
    ensures
        r.data@ == packed(codes@, bits),
        r.scales@ == scales@,
        r.zero_points@ == zero_points@,
        r.num_elements == codes@.len(),
        r.bits == bits,
{
    QuantizedTensor {
        data: pack(codes, bits),
        scales,
        zero_points,
        num_elements: codes.len(),
        bits,
    }
}

/// What one element of a quantized tensor stands for.
#[derive(Debug, Clone, Copy, PartialEq, Eq, Structural)]
pub enum Element {
    /// The value of a constant group.
    Constant(Float32),
    /// So many steps of a scale.
    Steps { steps: i64, scale: Float32 },
}

/// The bit pattern that a zero-point field carries for a constant group.
pub open spec fn carried(zero_point: i32) -> Float32 {
    Float32 { bits: zero_point as u32 }
}

/// A constant's bit pattern survives being carried as a zero-point.
pub proof fn law_constants_are_reproduced_exactly(v: Float32)
    ensures
        carried(v.bits as i32) == v,
{
    let bits = v.bits;
    assert((bits as i32) as u32 == bits) by (bit_vector);
}

impl QuantizedTensor {
    /// The scale of a group, one where it has none.
    pub open spec fn scale(&self, group: int) -> Float32 {
        if group < self.scales@.len() {
            self.scales@[group]
        } else {
            Float32::spec_one()
        }
    }

    /// The zero-point of a group, zero where it has none.
    pub open spec fn zero_point(&self, group: int) -> i32 {
        if group < self.zero_points@.len() {
            self.zero_points@[group]
        } else {
            0
        }
    }

    /// What a code stands for.
    pub open spec fn element(&self, at: int, code: i32) -> Element {
        let group = at / GROUP_SIZE as int;
        if self.scale(group).same(Float32::spec_zero()) {
            Element::Constant(carried(self.zero_point(group)))
        } else {
            Element::Steps {
                steps: (code - self.zero_point(group)) as i64,
                scale: self.scale(group),
            }
        }
    }

    /// What each element of the tensor stands for. The value of a scaled one
    /// is its number of steps times the scale.
    pub fn elements(&self) -> (r: Vec<Element>)
        ensures
            ({
                let codes = unpacked(self.data@, self.bits, self.num_elements as int);
                &&& r@.len() == codes.len()
                &&& forall|k: int|
                    0 <= k < codes.len() ==> #[trigger] r@[k] == self.element(k, codes[k])
            }),
    {
        let codes = unpack(self.data.as_slice(), self.bits, self.num_elements);
        let mut out: Vec<Element> = Vec::new();
        let mut i: usize = 0;
        while i < codes.len()
            invariant
                i <= codes@.len(),
                out@.len() == i,
                forall|k: int| 0 <= k < i ==> #[trigger] out@[k] == self.element(k, codes@[k]),
            decreases codes@.len() - i,
        {
            let group: usize = i / GROUP_SIZE;
            let scale: Float32 = if group < self.scales.len() {
                self.scales[group]
            } else {
                Float32::one()
            };
            let zero_point: i32 = if group < self.zero_points.len() {
                self.zero_points[group]
            } else {
                0
            };
            if scale.equals(Float32::zero()) {
                out.push(
                    Element::Constant(
                        Float32 {
                            bits:
                                #[verifier::truncate]
                                (zero_point as u32),
                        },
                    ),
                );
            } else {
                out.push(Element::Steps { steps: codes[i] as i64 - zero_point as i64, scale });
            }
            i += 1;
        }
        out
    }
}

} // verus!
