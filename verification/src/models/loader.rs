//! Checkpoint loading: which shard holds a tensor, what shape it must have, and
//! how its stored numbers are widened.
//!
//! The bytes of the shards are borrowed from the caller, who maps or reads the
//! files; parsing a shard's header is the safetensors crate's work. Numbers are
//! handed out as single-precision bit patterns.

use crate::error::ModelError;
use crate::float::Float32;
use crate::models::tensor::{size_complaint, Matrix, MatrixModel};
use crate::text::{join2, join3, owned};
use crate::tokenizer::chars::{char_vec, occurs_at, stands_at};
use crate::tokenizer::template::same_text;
use safetensors::SafeTensors;
use vstd::prelude::*;
use vstd::string::*;

verus! {

/// What the safetensors crate finds in a file's bytes: nothing, where it
/// refuses them, or for each tensor name the name of its dtype, its shape and
/// its bytes.
pub uninterp spec fn checkpoint(bytes: Seq<u8>) -> Option<
    Map<Seq<char>, (Seq<char>, Seq<usize>, Seq<u8>)>,
>;

/// What some strings say.
pub open spec fn texts(strings: Seq<String>) -> Seq<Seq<char>> {
    strings.map_values(|s: String| s@)
}

/// The length of a file's header, which its first eight bytes state.
pub open spec fn header_len(b: Seq<u8>) -> int {
    b[0] + 256 * (b[1] + 256 * (b[2] + 256 * (b[3] + 256 * (b[4] + 256 * (b[5] + 256 * (b[6]
        + 256 * b[7]))))))
}

/// The header of a file, or nothing where it is not all there.
pub open spec fn header(b: Seq<u8>) -> Seq<u8> {
    if b.len() < 8 || header_len(b) > b.len() - 8 {
        Seq::empty()
    } else {
        b.subrange(8, 8 + header_len(b))
    }
}

/// Whether a number in a header can be added to the length of the file, or is
/// too large to be a size at all.
pub open spec fn addable(v: int, len: int) -> bool {
    v + len <= usize::MAX || v > usize::MAX
}

/// Where in its JSON a header is read: outside of strings, in one, or after a
/// backslash in one.
#[derive(Debug, Clone, Copy, PartialEq, Eq, Structural)]
pub enum Within {
    Plain,
    Quoted,
    Escaped,
}

/// Where a header is read after one more byte.
pub open spec fn moved(within: Within, c: u8) -> Within {
    match within {
        Within::Plain => if c == 34 {
            Within::Quoted
        } else {
            Within::Plain
        },
        Within::Quoted => if c == 34 {
            Within::Plain
        } else if c == 92 {
            Within::Escaped
        } else {
            Within::Quoted
        },
        Within::Escaped => Within::Quoted,
    }
}

/// Whether every number from place `at` on, outside of strings, can be added to
/// the length of the file; `v` is the number whose digits come to an end there.
pub open spec fn numbers_addable(
    text: Seq<u8>,
    at: int,
    v: int,
    len: int,
    within: Within,
) -> bool
    decreases text.len() - at,
{
    if at >= text.len() {
        addable(v, len)
    } else if within is Plain && 48 <= text[at] <= 57 {
        numbers_addable(text, at + 1, 10 * v + (text[at] - 48), len, within)
    } else {
        addable(v, len) && numbers_addable(text, at + 1, 0, len, moved(within, text[at]))
    }
}

/// Whether the ends of tensors that a file declares can be added to its length.
/// A file with one that cannot is no checkpoint, and checking it overflows.
pub open spec fn ends_fit(b: Seq<u8>) -> bool {
    numbers_addable(header(b), 0, 0, b.len() as int, Within::Plain)
}

/// What a checkpoint holds, if its bytes are one.
pub open spec fn found_in(bytes: Seq<u8>) -> Option<
    Map<Seq<char>, (Seq<char>, Seq<usize>, Seq<u8>)>,
> {
    if ends_fit(bytes) {
        checkpoint(bytes)
    } else {
        None
    }
}

/// Whether the ends of tensors that a file declares can be added to its length.
fn has_fitting_ends(bytes: &[u8]) -> (r: bool)
    ensures
        r == ends_fit(bytes@),
{
    let len: usize = bytes.len();
    if len < 8 {
        return true;
    }
    let n: u64 = bytes[0] as u64 + 256 * (bytes[1] as u64 + 256 * (bytes[2] as u64 + 256 * (
    bytes[3] as u64 + 256 * (bytes[4] as u64 + 256 * (bytes[5] as u64 + 256 * (bytes[6] as u64
        + 256 * bytes[7] as u64))))));
    if n > (len - 8) as u64 {
        return true;
    }
    let end: usize = 8 + n as usize;
    let most: u128 = usize::MAX as u128;
    let ghost text = header(bytes@);
    let ghost mut whole: int = 0;
    let mut v: u128 = 0;
    let mut within = Within::Plain;
    let mut at: usize = 8;
    while at < end
        invariant
            len == bytes@.len(),
            end <= len,
            8 <= at <= end,
            most == usize::MAX,
            text == header(bytes@),
            text == bytes@.subrange(8, end as int),
            v <= 10 * most + 9,
            v == whole || v > most && whole > most,
            whole >= 0,
            numbers_addable(text, 0, 0, len as int, Within::Plain) == numbers_addable(
                text,
                at - 8,
                whole,
                len as int,
                within,
            ),
        decreases end - at,
    {
        let c: u8 = bytes[at];
        assert(c == text[at - 8]);
        if within == Within::Plain && 48 <= c && c <= 57 {
            if v <= most {
                v = 10 * v + (c - 48) as u128;
            }
            proof {
                whole = 10 * whole + (c - 48);
            }
        } else {
            if v <= most && v + len as u128 > most {
                return false;
            }
            v = 0;
            proof {
                whole = 0;
            }
            within = match within {
                Within::Plain => if c == 34 {
                    Within::Quoted
                } else {
                    Within::Plain
                },
                Within::Quoted => if c == 34 {
                    Within::Plain
                } else if c == 92 {
                    Within::Escaped
                } else {
                    Within::Quoted
                },
                Within::Escaped => Within::Quoted,
            };
        }
        at += 1;
    }
    v > most || v + len as u128 <= most
}

/// Calls `safetensors::SafeTensors::deserialize` and `SafeTensors::names`.
///
/// Trusted: it succeeds exactly where the bytes parse, and then the names are
/// those of the tensors found, each once. In which order they come is left
/// open, because the crate walks a hash map; so is the text of a refusal.
#[verifier::external_body]
fn stored_names(bytes: &[u8]) -> (r: Result<Vec<String>, String>)
    requires
        ends_fit(bytes@),
    ensures
        match r {
            Ok(names) => {
                &&& checkpoint(bytes@) is Some
                &&& forall|n: Seq<char>|
                    checkpoint(bytes@)->0.dom().contains(n) <==> #[trigger] texts(names@).contains(
                        n,
                    )
                &&& texts(names@).no_duplicates()
            },
            Err(_) => checkpoint(bytes@) is None,
        },
{
    match SafeTensors::deserialize(bytes) {
        Ok(st) => Ok(st.names().into_iter().map(String::from).collect()),
        Err(e) => Err(e.to_string()),
    }
}

/// Calls `safetensors::SafeTensors::deserialize` and `SafeTensors::tensor`, and
/// hands out the view's dtype under its variant's name, its shape and a copy of
/// its bytes.
///
/// Trusted: it fails exactly where the bytes do not parse, finds a tensor
/// exactly where its name is among those found, and hands out that tensor. The
/// text of a refusal is left open.
#[verifier::external_body]
fn stored_tensor(bytes: &[u8], name: &str) -> (r: Result<
    Option<(String, Vec<usize>, Vec<u8>)>,
    String,
>)
    requires
        ends_fit(bytes@),
    ensures
        match r {
            Ok(Some(t)) => {
                &&& checkpoint(bytes@) is Some
                &&& checkpoint(bytes@)->0.dom().contains(name@)
                &&& checkpoint(bytes@)->0[name@] == (t.0@, t.1@, t.2@)
            },
            Ok(None) => checkpoint(bytes@) is Some && !checkpoint(bytes@)->0.dom().contains(name@),
            Err(_) => checkpoint(bytes@) is None,
        },
{
    let st = match SafeTensors::deserialize(bytes) {
        Ok(st) => st,
        Err(e) => return Err(e.to_string()),
    };
    match st.tensor(name) {
        Ok(v) => Ok(Some((format!("{:?}", v.dtype()), v.shape().to_vec(), v.data().to_vec()))),
        Err(_) => Ok(None),
    }
}

/// A subnormal half-precision number, `m` in units of its last place, brought
/// to the form that single precision stores: doubled until the leading bit is
/// in place, the exponent `e` falling by one each time.
pub open spec fn normalised(m: int, e: int) -> int
    decreases 2048 - m,
{
    if 0 < m < 1024 {
        normalised(2 * m, e - 1)
    } else {
        e * 0x80_0000 + (m - 1024) * 0x2000
    }
}

/// The single-precision bit pattern of a half-precision number. A NaN comes out
/// with its quiet bit set.
pub open spec fn half_widened(bits: u16) -> int {
    let sign = (bits as int / 0x8000) * 0x8000_0000;
    let e = (bits as int / 0x400) % 32;
    let m = bits as int % 0x400;
    if e == 31 {
        sign + 0x7F80_0000 + if m == 0 {
            0
        } else if m < 0x200 {
            (m + 0x200) * 0x2000
        } else {
            m * 0x2000
        }
    } else if e > 0 {
        sign + (e + 112) * 0x80_0000 + m * 0x2000
    } else if m == 0 {
        sign
    } else {
        sign + normalised(m, 113)
    }
}

/// The exponent falls by one whenever the number doubles.
spec fn doubled(m: int, e: int) -> bool {
    ||| e == 113 && m >= 1
    ||| e == 112 && m >= 2
    ||| e == 111 && m >= 4
    ||| e == 110 && m >= 8
    ||| e == 109 && m >= 16
    ||| e == 108 && m >= 32
    ||| e == 107 && m >= 64
    ||| e == 106 && m >= 128
    ||| e == 105 && m >= 256
    ||| e == 104 && m >= 512
    ||| e == 103 && m >= 1024
}

/// Widens a half-precision bit pattern.
pub fn widen_half(bits: u16) -> (r: u32)
    ensures
        r == half_widened(bits),
{
    let sign: u32 = (bits as u32 / 0x8000) * 0x8000_0000;
    let mut e: u32 = (bits as u32 / 0x400) % 32;
    let mut m: u32 = bits as u32 % 0x400;
    if e == 31 {
        if m == 0 {
            return sign + 0x7F80_0000;
        }
        if m < 0x200 {
            return sign + 0x7F80_0000 + (m + 0x200) * 0x2000;
        }
        return sign + 0x7F80_0000 + m * 0x2000;
    }
    if e > 0 {
        return sign + (e + 112) * 0x80_0000 + m * 0x2000;
    }
    if m == 0 {
        return sign;
    }
    e = 113;
    let ghost first = m;
    while m < 1024
        invariant
            m < 2048,
            doubled(m as int, e as int),
            normalised(m as int, e as int) == normalised(first as int, 113),
        decreases e,
    {
        m = 2 * m;
        e = e - 1;
    }
    sign + e * 0x80_0000 + (m - 1024) * 0x2000
}

/// The single-precision bit pattern of a brain-float number: the same pattern
/// with sixteen zero bits behind it, and for a NaN the quiet bit set.
pub open spec fn brain_widened(bits: u16) -> u32 {
    if (bits & 0x7FFF) > 0x7F80 {
        ((bits | 0x0040) as u32) << 16u32
    } else {
        (bits as u32) << 16u32
    }
}

/// Calls `half::bf16::to_f32` on a bit pattern and gives the bit pattern of the
/// result.
///
/// Trusted: the upper half of the result is the pattern, with the quiet bit set
/// where it is a NaN, and the lower half is zero.
#[verifier::external_body]
fn widen_brain(bits: u16) -> (r: u32)
    ensures
        r == brain_widened(bits),
{
    half::bf16::from_bits(bits).to_f32().to_bits()
}

/// Two bytes as a number, the low one first.
pub open spec fn little16(b: Seq<u8>, at: int) -> u16 {
    (b[at] + b[at + 1] * 256) as u16
}

/// Four bytes as a number, the lowest first.
pub open spec fn little32(b: Seq<u8>, at: int) -> u32 {
    (b[at] + b[at + 1] * 0x100 + b[at + 2] * 0x1_0000 + b[at + 3] * 0x100_0000) as u32
}

/// The numbers that bytes of a dtype stand for, if the dtype is supported.
/// Bytes left over at the end are dropped.
pub open spec fn numbers(dtype: Seq<char>, b: Seq<u8>) -> Option<Seq<Float32>> {
    if dtype == "F32"@ {
        Some(Seq::new(b.len() / 4, |i: int| Float32 { bits: little32(b, 4 * i) }))
    } else if dtype == "F16"@ {
        Some(Seq::new(b.len() / 2, |i: int| Float32 { bits: half_widened(little16(b, 2 * i)) as u32 }))
    } else if dtype == "BF16"@ {
        Some(Seq::new(b.len() / 2, |i: int| Float32 { bits: brain_widened(little16(b, 2 * i)) }))
    } else {
        None
    }
}

fn read_single(b: &Vec<u8>) -> (r: Vec<Float32>)
    ensures
        r@ == Seq::new(b@.len() / 4, |i: int| Float32 { bits: little32(b@, 4 * i) }),
{
    let mut out: Vec<Float32> = Vec::new();
    let len: usize = b.len();
    let n: usize = len / 4;
    let mut i: usize = 0;
    while i < n
        invariant
            i <= n,
            len == b@.len(),
            n == len / 4,
            out@ == Seq::new(i as nat, |k: int| Float32 { bits: little32(b@, 4 * k) }),
        decreases n - i,
    {
        let bits: u32 = b[4 * i] as u32 + b[4 * i + 1] as u32 * 0x100 + b[4 * i + 2] as u32
            * 0x1_0000 + b[4 * i + 3] as u32 * 0x100_0000;
        out.push(Float32 { bits });
        proof {
            assert(bits == little32(b@, 4 * i));
            assert(out@ =~= Seq::new((i + 1) as nat, |k: int| Float32 { bits: little32(b@, 4 * k) }));
        }
        i += 1;
    }
    out
}

fn read_half(b: &Vec<u8>) -> (r: Vec<Float32>)
    ensures
        r@ == Seq::new(
            b@.len() / 2,
            |i: int| Float32 { bits: half_widened(little16(b@, 2 * i)) as u32 },
        ),
{
    let mut out: Vec<Float32> = Vec::new();
    let len: usize = b.len();
    let n: usize = len / 2;
    let mut i: usize = 0;
    while i < n
        invariant
            i <= n,
            len == b@.len(),
            n == len / 2,
            out@ == Seq::new(
                i as nat,
                |k: int| Float32 { bits: half_widened(little16(b@, 2 * k)) as u32 },
            ),
        decreases n - i,
    {
        let bits: u16 = b[2 * i] as u16 + b[2 * i + 1] as u16 * 256;
        out.push(Float32 { bits: widen_half(bits) });
        proof {
            assert(bits == little16(b@, 2 * i));
            assert(out@ =~= Seq::new(
                (i + 1) as nat,
                |k: int| Float32 { bits: half_widened(little16(b@, 2 * k)) as u32 },
            ));
        }
        i += 1;
    }
    out
}

fn read_brain(b: &Vec<u8>) -> (r: Vec<Float32>)
    ensures
        r@ == Seq::new(
            b@.len() / 2,
            |i: int| Float32 { bits: brain_widened(little16(b@, 2 * i)) },
        ),
{
    let mut out: Vec<Float32> = Vec::new();
    let len: usize = b.len();
    let n: usize = len / 2;
    let mut i: usize = 0;
    while i < n
        invariant
            i <= n,
            len == b@.len(),
            n == len / 2,
            out@ == Seq::new(
                i as nat,
                |k: int| Float32 { bits: brain_widened(little16(b@, 2 * k)) },
            ),
        decreases n - i,
    {
        let bits: u16 = b[2 * i] as u16 + b[2 * i + 1] as u16 * 256;
        out.push(Float32 { bits: widen_brain(bits) });
        proof {
            assert(bits == little16(b@, 2 * i));
            assert(out@ =~= Seq::new(
                (i + 1) as nat,
                |k: int| Float32 { bits: brain_widened(little16(b@, 2 * k)) },
            ));
        }
        i += 1;
    }
    out
}

/// Widens a stored tensor's bytes to single precision.
pub fn view_to_f32(name: &str, dtype: &str, bytes: &Vec<u8>) -> (r: Result<
    Vec<Float32>,
    ModelError,
>)
    ensures
        match r {
            Ok(v) => numbers(dtype@, bytes@) == Some(v@),
            Err(e) => {
                &&& numbers(dtype@, bytes@) is None
                &&& e matches ModelError::UnsupportedDtype(t)
                &&& t@ == dtype@ + " (tensor `"@ + name@ + "`)"@
            },
        },
{
    if same_text(dtype, "F32") {
        Ok(read_single(bytes))
    } else if same_text(dtype, "F16") {
        proof {
            reveal_strlit("F32");
            reveal_strlit("F16");
            assert("F32"@[1] != "F16"@[1]);
        }
        Ok(read_half(bytes))
    } else if same_text(dtype, "BF16") {
        proof {
            reveal_strlit("F32");
            reveal_strlit("F16");
            reveal_strlit("BF16");
        }
        Ok(read_brain(bytes))
    } else {
        let mut t = join3(dtype, " (tensor `", name);
        t.append("`)");
        Err(ModelError::UnsupportedDtype(t))
    }
}

/// One file of a checkpoint.
#[derive(Debug)]
pub struct Shard<'a> {
    pub path: String,
    pub bytes: &'a [u8],
}

/// Whether a file holds a tensor of that name.
pub open spec fn holds(bytes: Seq<u8>, name: Seq<char>) -> bool {
    found_in(bytes) is Some && found_in(bytes)->0.dom().contains(name)
}

/// The first of the shards that holds a tensor of that name.
pub open spec fn shard_of(shards: Seq<Shard<'_>>, name: Seq<char>) -> Option<int>
    decreases shards.len(),
{
    if shards.len() == 0 {
        None
    } else {
        match shard_of(shards.drop_last(), name) {
            Some(i) => Some(i),
            None => if holds(shards.last().bytes@, name) {
                Some(shards.len() - 1)
            } else {
                None
            },
        }
    }
}

/// What `shard_of` finds is a shard that holds the name, and no earlier one
/// does; where it finds none, none does.
pub proof fn lemma_shard_of(shards: Seq<Shard<'_>>, name: Seq<char>)
    ensures
        match shard_of(shards, name) {
            Some(i) => {
                &&& 0 <= i < shards.len()
                &&& holds(shards[i].bytes@, name)
                &&& forall|j: int| 0 <= j < i ==> !holds((#[trigger] shards[j]).bytes@, name)
            },
            None => forall|j: int|
                0 <= j < shards.len() ==> !holds((#[trigger] shards[j]).bytes@, name),
        },
    decreases shards.len(),
{
    if shards.len() > 0 {
        lemma_shard_of(shards.drop_last(), name);
        assert forall|j: int| 0 <= j < shards.len() - 1 implies #[trigger] shards[j]
            == shards.drop_last()[j] by {}
    }
}

/// Text order, by characters.
pub open spec fn before(a: Seq<char>, b: Seq<char>) -> bool
    decreases a.len(),
{
    if b.len() == 0 {
        false
    } else if a.len() == 0 {
        true
    } else if a[0] != b[0] {
        (a[0] as u32) < (b[0] as u32)
    } else {
        before(a.drop_first(), b.drop_first())
    }
}

/// Different characters have different codes.
proof fn lemma_char_codes_differ(a: char, b: char)
    requires
        a as u32 == b as u32,
    ensures
        a == b,
{
    vstd::utf8::char_u32_cast(a, a as u32);
    vstd::utf8::char_u32_cast(b, b as u32);
}

/// Of two different texts exactly one comes before the other.
pub proof fn law_text_order_is_total(a: Seq<char>, b: Seq<char>)
    ensures
        a != b ==> before(a, b) != before(b, a),
        a == b ==> !before(a, b),
    decreases a.len(),
{
    if a.len() > 0 && b.len() > 0 && a[0] == b[0] {
        law_text_order_is_total(a.drop_first(), b.drop_first());
        if a.drop_first() == b.drop_first() {
            assert(a =~= seq![a[0]] + a.drop_first());
            assert(b =~= seq![b[0]] + b.drop_first());
        }
    }
    if a.len() > 0 && b.len() > 0 && a[0] as u32 == b[0] as u32 {
        lemma_char_codes_differ(a[0], b[0]);
    }
    if a.len() == 0 && b.len() == 0 {
        assert(a =~= b);
    }
}

/// What comes before something comes before all that follows it.
pub proof fn lemma_before_transitive(a: Seq<char>, b: Seq<char>, c: Seq<char>)
    requires
        before(a, b),
        before(b, c),
    ensures
        before(a, c),
    decreases a.len(),
{
    if a.len() > 0 && b.len() > 0 && c.len() > 0 && a[0] == b[0] && b[0] == c[0] {
        lemma_before_transitive(a.drop_first(), b.drop_first(), c.drop_first());
    }
}

/// Whether one text comes before another.
fn comes_before(x: &Vec<char>, y: &Vec<char>) -> (r: bool)
    ensures
        r == before(x@, y@),
{
    let mut i: usize = 0;
    proof {
        assert(x@.skip(0) =~= x@);
        assert(y@.skip(0) =~= y@);
    }
    while i < x.len() && i < y.len()
        invariant
            i <= x@.len(),
            i <= y@.len(),
            before(x@, y@) == before(x@.skip(i as int), y@.skip(i as int)),
        decreases x@.len() - i,
    {
        if x[i] != y[i] {
            proof {
                assert(x@.skip(i as int)[0] == x@[i as int]);
                assert(y@.skip(i as int)[0] == y@[i as int]);
            }
            return (x[i] as u32) < (y[i] as u32);
        }
        proof {
            assert(x@.skip(i as int).drop_first() =~= x@.skip(i + 1));
            assert(y@.skip(i as int).drop_first() =~= y@.skip(i + 1));
        }
        i += 1;
    }
    y.len() > i
}

/// Whether a file is a shard by its name: something, and the extension
/// `safetensors`.
pub open spec fn is_shard(name: Seq<char>) -> bool {
    &&& name.len() > 12
    &&& name.skip(name.len() - 12) == ".safetensors"@
}

/// Whether a file is a shard by its name.
fn names_shard(name: &str) -> (r: bool)
    ensures
        r == is_shard(name@),
{
    let text = char_vec(name);
    let suffix = char_vec(".safetensors");
    proof {
        reveal_strlit(".safetensors");
    }
    if text.len() <= 12 {
        return false;
    }
    proof {
        assert(name@.skip(name@.len() - 12) =~= name@.subrange(
            name@.len() - 12,
            name@.len() as int,
        ));
        assert(suffix@.len() == 12);
        assert(occurs_at(name@, suffix@, name@.len() - 12) == is_shard(name@));
    }
    stands_at(&text, &suffix, text.len() - 12)
}

/// Whether no name comes before one ahead of it.
pub open spec fn in_text_order(names: Seq<Seq<char>>) -> bool {
    forall|i: int, j: int|
        #![trigger names[i], names[j]]
        0 <= i < j < names.len() ==> !before(names[j], names[i])
}

/// Putting an element into a sequence adds it to what the sequence holds.
proof fn lemma_inserted(s: Seq<Seq<char>>, at: int, x: Seq<char>)
    requires
        0 <= at <= s.len(),
    ensures
        s.insert(at, x).to_multiset() == s.to_multiset().insert(x),
{
    let more = s.insert(at, x);
    more.to_multiset_ensures();
    assert(more.remove(at) =~= s);
    assert(more[at] == x);
    assert(more.contains(x));
    assert(more.to_multiset().count(x) > 0);
    assert(more.to_multiset() =~= s.to_multiset().insert(x));
}

/// Puts a name at its place in the order.
fn insert_in_order(names: &mut Vec<String>, name: &str)
    requires
        in_text_order(texts(old(names)@)),
    ensures
        in_text_order(texts(final(names)@)),
        texts(final(names)@).to_multiset() == texts(old(names)@).to_multiset().insert(name@),
{
    let wanted = char_vec(name);
    let ghost was = texts(names@);
    let mut at: usize = 0;
    while at < names.len()
        invariant
            at <= names@.len(),
            texts(names@) == was,
            wanted@ == name@,
            forall|k: int| 0 <= k < at ==> before(#[trigger] was[k], name@),
        ensures
            at <= names@.len(),
            texts(names@) == was,
            forall|k: int| 0 <= k < at ==> before(#[trigger] was[k], name@),
            at < was.len() ==> !before(was[at as int], name@),
        decreases names@.len() - at,
    {
        let here = char_vec(names[at].as_str());
        proof {
            assert(was[at as int] == names@[at as int]@);
        }
        if !comes_before(&here, &wanted) {
            break;
        }
        at += 1;
    }
    names.insert(at, owned(name));
    proof {
        let now = texts(names@);
        assert(now =~= was.insert(at as int, name@));
        lemma_inserted(was, at as int, name@);
        assert forall|i: int, j: int|
            #![trigger now[i], now[j]]
            0 <= i < j < now.len() implies !before(now[j], now[i]) by {
            if j < at {
                assert(now[i] == was[i] && now[j] == was[j]);
            } else if j == at {
                assert(now[i] == was[i]);
                law_text_order_is_total(was[i], name@);
            } else if i > at {
                assert(now[i] == was[i - 1] && now[j] == was[j - 1]);
            } else if i == at {
                assert(now[j] == was[j - 1]);
                if j - 1 > at && before(was[j - 1], name@) {
                    law_text_order_is_total(was[at as int], name@);
                    if was[at as int] != name@ {
                        lemma_before_transitive(was[j - 1], name@, was[at as int]);
                    }
                    assert(!before(was[j - 1], was[at as int]));
                }
            } else {
                assert(now[i] == was[i] && now[j] == was[j - 1]);
            }
        }
    }
}

/// The shards among the files of a directory, in text order, so that a
/// duplicated tensor name always resolves the same way.
pub fn shard_names(files: &Vec<String>) -> (r: Vec<String>)
    ensures
        in_text_order(texts(r@)),
        texts(r@).to_multiset() == texts(files@).filter(
            |n: Seq<char>| is_shard(n),
        ).to_multiset(),
{
    let mut out: Vec<String> = Vec::new();
    let ghost keep = |n: Seq<char>| is_shard(n);
    let ghost all = texts(files@);
    let mut i: usize = 0;
    proof {
        reveal(Seq::filter);
        assert(texts(out@) =~= Seq::empty());
        assert(all.take(0) =~= Seq::empty());
    }
    while i < files.len()
        invariant
            i <= files@.len(),
            all == texts(files@),
            keep == (|n: Seq<char>| is_shard(n)),
            in_text_order(texts(out@)),
            texts(out@).to_multiset() == all.take(i as int).filter(keep).to_multiset(),
        decreases files@.len() - i,
    {
        let name = files[i].as_str();
        let kept = names_shard(name);
        proof {
            reveal(Seq::filter);
            let now = all.take(i + 1);
            assert(now.drop_last() =~= all.take(i as int));
            assert(now.last() == name@);
            all.take(i as int).filter(keep).to_multiset_ensures();
        }
        if kept {
            insert_in_order(&mut out, name);
        }
        i += 1;
    }
    proof {
        assert(all.take(all.len() as int) =~= all);
    }
    out
}

/// The path of a file in a directory: a slash parts the two, unless the
/// directory is empty or ends in one.
pub open spec fn inside(dir: Seq<char>, file: Seq<char>) -> Seq<char> {
    if dir.len() == 0 || dir.last() == '/' {
        dir + file
    } else {
        dir + "/"@ + file
    }
}

/// The path of a file in a directory.
fn path_inside(dir: &str, file: &str) -> (r: String)
    ensures
        r@ == inside(dir@, file@),
{
    let text = char_vec(dir);
    if text.len() == 0 || text[text.len() - 1] == '/' {
        join2(dir, file)
    } else {
        join3(dir, "/", file)
    }
}

/// Loads tensors by name from one or more shards.
#[derive(Debug)]
pub struct CheckpointLoader<'a> {
    shards: Vec<Shard<'a>>,
    /// Tensor names, in text order, each with the shard that holds it.
    index: Vec<(String, usize)>,
}

/// A tensor's numbers and its shape.
pub ghost struct Contents {
    pub values: Seq<Float32>,
    pub shape: Seq<usize>,
}

/// What reading a named tensor from a checkpoint gives.
pub open spec fn loaded(shards: Seq<Shard<'_>>, name: Seq<char>) -> Option<Contents> {
    match shard_of(shards, name) {
        None => None,
        Some(i) => {
            let t = found_in(shards[i].bytes@)->0[name];
            match numbers(t.0, t.2) {
                Some(values) => Some(Contents { values, shape: t.1 }),
                None => None,
            }
        },
    }
}

/// The failure of reading a named tensor from a checkpoint that lacks it or
/// holds it in a dtype that is not supported.
pub open spec fn load_failure(shards: Seq<Shard<'_>>, name: Seq<char>, e: ModelError) -> bool {
    match shard_of(shards, name) {
        None => e matches ModelError::TensorNotFound(n) && n@ == name,
        Some(i) => {
            &&& e matches ModelError::UnsupportedDtype(t)
            &&& t@ == found_in(shards[i].bytes@)->0[name].0 + " (tensor `"@ + name + "`)"@
        },
    }
}

/// The failure of a tensor that has another shape than it should.
pub open spec fn shape_failure(
    name: Seq<char>,
    expected: Seq<usize>,
    actual: Seq<usize>,
    e: ModelError,
) -> bool {
    match e {
        ModelError::ShapeMismatch { name: n, expected: x, actual: a } => n@ == name && x@
            == expected && a@ == actual,
        _ => false,
    }
}

/// A tensor that a model needs.
pub ghost struct Need {
    pub name: Seq<char>,
    pub shape: Seq<usize>,
    /// Whether it may be absent.
    pub optional: bool,
}

/// Whether a checkpoint meets a need.
pub open spec fn met(shards: Seq<Shard<'_>>, need: Need) -> bool {
    if need.optional && shard_of(shards, need.name) is None {
        true
    } else {
        match loaded(shards, need.name) {
            None => false,
            Some(Contents { values, shape }) => shape == need.shape && (need.shape.len() == 2 ==> values.len()
                == need.shape[0] * need.shape[1]),
        }
    }
}

/// The failure of a need that is not met.
pub open spec fn need_failure(shards: Seq<Shard<'_>>, need: Need, e: ModelError) -> bool {
    match loaded(shards, need.name) {
        None => load_failure(shards, need.name, e),
        Some(Contents { values, shape }) => if shape != need.shape {
            shape_failure(need.name, need.shape, shape, e)
        } else {
            match e {
                ModelError::Malformed { file, reason } => file@ == need.name && reason@
                    == "internal invariant violated: "@ + size_complaint(
                    values.len() as int,
                    need.shape[0] as int,
                    need.shape[1] as int,
                ),
                _ => false,
            }
        },
    }
}

impl<'a> CheckpointLoader<'a> {
    /// The shards, in the order in which they are searched.
    pub closed spec fn files(&self) -> Seq<Shard<'a>> {
        self.shards@
    }

    /// The indexed names, in order.
    pub closed spec fn listed(&self) -> Seq<Seq<char>> {
        self.index@.map_values(|e: (String, usize)| e.0@)
    }

    closed spec fn entries_sound(&self) -> bool {
        forall|k: int|
            #![trigger self.index@[k]]
            0 <= k < self.index@.len() ==> shard_of(self.shards@, self.index@[k].0@) == Some(
                self.index@[k].1 as int,
            )
    }

    /// The index lists, in text order and each once, the names that some
    /// shard holds.
    pub closed spec fn wf(&self) -> bool {
        &&& forall|k: int|
            0 <= k < self.shards@.len() ==> found_in(
                (#[trigger] self.shards@[k]).bytes@,
            ) is Some
        &&& forall|i: int, j: int|
            #![trigger self.index@[i], self.index@[j]]
            0 <= i < j < self.index@.len() ==> before(self.index@[i].0@, self.index@[j].0@)
        &&& self.entries_sound()
        &&& forall|n: Seq<char>| (#[trigger] shard_of(self.shards@, n)) is Some ==> lists(
            self.index@,
            n,
        )
    }

    /// Indexes the contents of the shards of a model directory.
    ///
    /// A name that several shards hold resolves to the first of them.
    pub fn open(dir: &str, shards: Vec<Shard<'a>>) -> (r: Result<Self, ModelError>)
        ensures
            match r {
                Ok(l) => {
                    &&& shards@.len() > 0
                    &&& l.wf()
                    &&& l.files() == shards@
                    &&& forall|k: int|
                        0 <= k < shards@.len() ==> found_in(
                            (#[trigger] shards@[k]).bytes@,
                        ) is Some
                },
                Err(ModelError::MissingFile(path)) => shards@.len() == 0 && path@ == inside(
                    dir@,
                    "*.safetensors"@,
                ),
                Err(ModelError::Malformed { file, .. }) => exists|k: int|
                    {
                        &&& 0 <= k < shards@.len()
                        &&& found_in((#[trigger] shards@[k]).bytes@) is None
                        &&& file@ == shards@[k].path@
                        &&& forall|j: int|
                            0 <= j < k ==> found_in((#[trigger] shards@[j]).bytes@) is Some
                    },
                Err(_) => false,
            },
    {
        if shards.len() == 0 {
            return Err(ModelError::MissingFile(path_inside(dir, "*.safetensors")));
        }
        let mut index: Vec<(String, usize)> = Vec::new();
        let mut i: usize = 0;
        while i < shards.len()
            invariant
                i <= shards@.len(),
                forall|k: int|
                    0 <= k < i ==> found_in((#[trigger] shards@[k]).bytes@) is Some,
                indexed(index@, shards@.take(i as int)),
                shards@.len() > 0,
            decreases shards@.len() - i,
        {
            if !has_fitting_ends(shards[i].bytes) {
                return Err(
                    ModelError::Malformed {
                        file: owned(shards[i].path.as_str()),
                        reason: owned("a tensor ends beyond the file"),
                    },
                );
            }
            let names = match stored_names(shards[i].bytes) {
                Ok(names) => names,
                Err(reason) => {
                    return Err(
                        ModelError::Malformed { file: owned(shards[i].path.as_str()), reason },
                    );
                },
            };
            let ghost earlier = shards@.take(i as int);
            let ghost later = shards@.take(i + 1);
            proof {
                assert(later.drop_last() =~= earlier);
                assert(later.last() == shards@[i as int]);
            }
            let mut j: usize = 0;
            let ghost all = texts(names@);
            while j < names.len()
                invariant
                    j <= names@.len(),
                    i < shards@.len(),
                    earlier == shards@.take(i as int),
                    all == texts(names@),
                    later.len() == i + 1,
                    later.drop_last() == earlier,
                    found_in(later.last().bytes@) is Some,
                    forall|n: Seq<char>|
                        found_in(later.last().bytes@)->0.dom().contains(n) <==> #[trigger]
                            all.contains(n),
                    strictly_ordered(index@),
                    forall|k: int|
                        #![trigger index@[k]]
                        0 <= k < index@.len() ==> shard_of(later, index@[k].0@) == Some(
                            index@[k].1 as int,
                        ),
                    forall|n: Seq<char>|
                        (#[trigger] shard_of(earlier, n)) is Some ==> lists(index@, n),
                    forall|k: int|
                        0 <= k < j ==> lists(index@, (#[trigger] names@[k])@),
                decreases names@.len() - j,
            {
                proof {
                    assert(all[j as int] == names@[j as int]@);
                    assert(all.contains(names@[j as int]@));
                    lemma_shard_of(earlier, names@[j as int]@);
                }
                insert_name(&mut index, names[j].as_str(), i, Ghost(later));
                j += 1;
            }
            proof {
                assert forall|n: Seq<char>| (#[trigger] shard_of(later, n)) is Some implies lists(
                    index@,
                    n,
                ) by {
                    if shard_of(earlier, n) is None {
                        assert(all.contains(n));
                        let k = choose|k: int| 0 <= k < all.len() && all[k] == n;
                        assert(names@[k]@ == n);
                    }
                }
            }
            i += 1;
        }
        proof {
            assert(shards@.take(shards@.len() as int) =~= shards@);
        }
        Ok(CheckpointLoader { shards, index })
    }

    /// Number of distinct tensors available.
    pub fn len(&self) -> (r: usize)
        ensures
            r == self.listed().len(),
    {
        self.index.len()
    }

    pub fn is_empty(&self) -> (r: bool)
        ensures
            r == (self.listed().len() == 0),
    {
        self.index.len() == 0
    }

    /// Where a name stands in the index.
    fn find(&self, name: &str) -> (r: Option<usize>)
        requires
            self.wf(),
        ensures
            match r {
                Some(i) => shard_of(self.files(), name@) == Some(i as int) && i
                    < self.files().len(),
                None => shard_of(self.files(), name@) is None,
            },
    {
        let mut k: usize = 0;
        while k < self.index.len()
            invariant
                k <= self.index@.len(),
                self.wf(),
                forall|j: int| 0 <= j < k ==> (#[trigger] self.index@[j]).0@ != name@,
            decreases self.index@.len() - k,
        {
            if same_text(self.index[k].0.as_str(), name) {
                proof {
                    lemma_shard_of(self.shards@, name@);
                }
                return Some(self.index[k].1);
            }
            k += 1;
        }
        None
    }

    /// Whether a tensor is present.
    pub fn contains(&self, name: &str) -> (r: bool)
        requires
            self.wf(),
        ensures
            r == (shard_of(self.files(), name@) is Some),
    {
        self.find(name).is_some()
    }

    /// Every tensor name, sorted.
    pub fn names(&self) -> (r: Vec<String>)
        requires
            self.wf(),
        ensures
            texts(r@) == self.listed(),
            forall|n: Seq<char>| self.listed().contains(n) <==> (#[trigger] shard_of(
                self.files(),
                n,
            )) is Some,
            forall|i: int, j: int|
                #![trigger r@[i], r@[j]]
                0 <= i < j < r@.len() ==> before(r@[i]@, r@[j]@),
    {
        let mut out: Vec<String> = Vec::new();
        let mut k: usize = 0;
        while k < self.index.len()
            invariant
                k <= self.index@.len(),
                out@.len() == k,
                forall|j: int| 0 <= j < k ==> (#[trigger] out@[j])@ == self.index@[j].0@,
            decreases self.index@.len() - k,
        {
            out.push(owned(self.index[k].0.as_str()));
            k += 1;
        }
        proof {
            assert(texts(out@) =~= self.listed());
            assert forall|n: Seq<char>| self.listed().contains(n) <==> (#[trigger] shard_of(
                self.files(),
                n,
            )) is Some by {
                if self.listed().contains(n) {
                    let j = choose|j: int| 0 <= j < self.listed().len() && self.listed()[j] == n;
                    assert(self.index@[j].0@ == n);
                }
                if shard_of(self.files(), n) is Some {
                    let j = choose|j: int|
                        0 <= j < self.index@.len() && (#[trigger] self.index@[j]).0@ == n;
                    assert(self.listed()[j] == n);
                }
            }
            assert forall|i: int, j: int|
                #![trigger out@[i], out@[j]]
                0 <= i < j < out@.len() implies before(out@[i]@, out@[j]@) by {
                assert(before(self.index@[i].0@, self.index@[j].0@));
            }
        }
        out
    }

    /// Loads a tensor as a flat vector with its shape.
    pub fn tensor(&self, name: &str) -> (r: Result<(Vec<Float32>, Vec<usize>), ModelError>)
        requires
            self.wf(),
        ensures
            match r {
                Ok((values, shape)) => loaded(self.files(), name@) == Some(
                    Contents { values: values@, shape: shape@ },
                ),
                Err(e) => loaded(self.files(), name@) is None && load_failure(
                    self.files(),
                    name@,
                    e,
                ),
            },
    {
        let at: usize = match self.find(name) {
            Some(at) => at,
            None => {
                return Err(ModelError::TensorNotFound(owned(name)));
            },
        };
        proof {
            lemma_shard_of(self.files(), name@);
        }
        match stored_tensor(self.shards[at].bytes, name) {
            Ok(Some((dtype, shape, bytes))) => {
                match view_to_f32(name, dtype.as_str(), &bytes) {
                    Ok(values) => Ok((values, shape)),
                    Err(e) => Err(e),
                }
            },
            Ok(None) => Err(ModelError::TensorNotFound(owned(name))),
            Err(reason) => Err(
                ModelError::Malformed { file: owned(self.shards[at].path.as_str()), reason },
            ),
        }
    }

    /// Loads a 2-D tensor as a [`Matrix`], checking its shape.
    pub fn matrix(&self, name: &str, rows: usize, cols: usize) -> (r: Result<
        Matrix<Float32>,
        ModelError,
    >)
        requires
            self.wf(),
            rows * cols <= usize::MAX,
        ensures
            ({
                let need = Need { name: name@, shape: seq![rows, cols], optional: false };
                match r {
                    Ok(m) => {
                        &&& met(self.files(), need)
                        &&& m.wf()
                        &&& m@ == (MatrixModel {
                            data: loaded(self.files(), name@)->0.values,
                            rows: rows as int,
                            cols: cols as int,
                        })
                    },
                    Err(e) => !met(self.files(), need) && need_failure(self.files(), need, e),
                }
            }),
    {
        let (data, shape) = match self.tensor(name) {
            Ok(t) => t,
            Err(e) => {
                return Err(e);
            },
        };
        let mut expected: Vec<usize> = Vec::new();
        expected.push(rows);
        expected.push(cols);
        proof {
            assert(expected@ =~= seq![rows, cols]);
        }
        if !same_shape(&shape, &expected) {
            return Err(ModelError::ShapeMismatch { name: owned(name), expected, actual: shape });
        }
        match Matrix::new(data, rows, cols) {
            Ok(m) => Ok(m),
            Err(e) => Err(ModelError::Malformed { file: owned(name), reason: e.message() }),
        }
    }

    /// Loads a 1-D tensor, checking its length.
    pub fn vector(&self, name: &str, len: usize) -> (r: Result<Vec<Float32>, ModelError>)
        requires
            self.wf(),
        ensures
            ({
                let need = Need { name: name@, shape: seq![len], optional: false };
                match r {
                    Ok(v) => met(self.files(), need) && v@ == loaded(self.files(), name@)->0.values,
                    Err(e) => !met(self.files(), need) && need_failure(self.files(), need, e),
                }
            }),
    {
        let (data, shape) = match self.tensor(name) {
            Ok(t) => t,
            Err(e) => {
                return Err(e);
            },
        };
        let mut expected: Vec<usize> = Vec::new();
        expected.push(len);
        proof {
            assert(expected@ =~= seq![len]);
        }
        if !same_shape(&shape, &expected) {
            return Err(ModelError::ShapeMismatch { name: owned(name), expected, actual: shape });
        }
        Ok(data)
    }

    /// Loads a 1-D tensor if present, returning `None` when absent.
    ///
    /// Used for optional biases, which distinguish Qwen2 from Llama.
    pub fn optional_vector(&self, name: &str, len: usize) -> (r: Result<
        Option<Vec<Float32>>,
        ModelError,
    >)
        requires
            self.wf(),
        ensures
            ({
                let need = Need { name: name@, shape: seq![len], optional: true };
                match r {
                    Ok(None) => shard_of(self.files(), name@) is None,
                    Ok(Some(v)) => {
                        &&& shard_of(self.files(), name@) is Some
                        &&& met(self.files(), need)
                        &&& v@ == loaded(self.files(), name@)->0.values
                    },
                    Err(e) => !met(self.files(), need) && need_failure(self.files(), need, e),
                }
            }),
    {
        if !self.contains(name) {
            return Ok(None);
        }
        match self.vector(name, len) {
            Ok(v) => Ok(Some(v)),
            Err(e) => Err(e),
        }
    }
}

/// Whether two shapes are the same.
fn same_shape(a: &Vec<usize>, b: &Vec<usize>) -> (r: bool)
    ensures
        r == (a@ == b@),
{
    if a.len() != b.len() {
        return false;
    }
    let mut i: usize = 0;
    while i < a.len()
        invariant
            i <= a@.len(),
            a@.len() == b@.len(),
            forall|k: int| 0 <= k < i ==> a@[k] == b@[k],
        decreases a@.len() - i,
    {
        if a[i] != b[i] {
            return false;
        }
        i += 1;
    }
    proof {
        assert(a@ =~= b@);
    }
    true
}

/// Whether an index has an entry for a name.
pub open spec fn lists(index: Seq<(String, usize)>, name: Seq<char>) -> bool {
    exists|k: int| 0 <= k < index.len() && (#[trigger] index[k]).0@ == name
}

spec fn strictly_ordered(index: Seq<(String, usize)>) -> bool {
    forall|i: int, j: int|
        #![trigger index[i], index[j]]
        0 <= i < j < index.len() ==> before(index[i].0@, index[j].0@)
}

/// Whether an index lists, in order, what some shards hold.
spec fn indexed(index: Seq<(String, usize)>, shards: Seq<Shard<'_>>) -> bool {
    &&& strictly_ordered(index)
    &&& forall|k: int|
        #![trigger index[k]]
        0 <= k < index.len() ==> shard_of(shards, index[k].0@) == Some(index[k].1 as int)
    &&& forall|n: Seq<char>| (#[trigger] shard_of(shards, n)) is Some ==> lists(index, n)
}

/// Puts a name into the index at its place in the order, unless it is there.
fn insert_name(
    index: &mut Vec<(String, usize)>,
    name: &str,
    shard: usize,
    shards: Ghost<Seq<Shard<'_>>>,
)
    requires
        strictly_ordered(old(index)@),
        forall|k: int|
            #![trigger old(index)@[k]]
            0 <= k < old(index)@.len() ==> shard_of(shards@, old(index)@[k].0@) == Some(
                old(index)@[k].1 as int,
            ),
        lists(old(index)@, name@) || shard_of(shards@, name@) == Some(shard as int),
    ensures
        strictly_ordered(final(index)@),
        forall|k: int|
            #![trigger final(index)@[k]]
            0 <= k < final(index)@.len() ==> shard_of(shards@, final(index)@[k].0@) == Some(
                final(index)@[k].1 as int,
            ),
        lists(final(index)@, name@),
        forall|n: Seq<char>| lists(old(index)@, n) ==> #[trigger] lists(final(index)@, n),
{
    let wanted = char_vec(name);
    let ghost was = index@;
    let mut at: usize = 0;
    while at < index.len()
        invariant
            at <= index@.len(),
            index@ == was,
            wanted@ == name@,
            strictly_ordered(was),
            forall|k: int| 0 <= k < at ==> before((#[trigger] was[k]).0@, name@),
        ensures
            at <= index@.len(),
            index@ == was,
            forall|k: int| 0 <= k < at ==> before((#[trigger] was[k]).0@, name@),
            at < was.len() ==> !before(was[at as int].0@, name@),
        decreases index@.len() - at,
    {
        let here = char_vec(index[at].0.as_str());
        if !comes_before(&here, &wanted) {
            break;
        }
        at += 1;
    }
    if at < index.len() {
        if same_text(index[at].0.as_str(), name) {
            return;
        }
        proof {
            law_text_order_is_total(was[at as int].0@, name@);
        }
    }
    proof {
        assert(!lists(was, name@)) by {
            if lists(was, name@) {
                let k = choose|k: int| 0 <= k < was.len() && (#[trigger] was[k]).0@ == name@;
                law_text_order_is_total(name@, name@);
                if k > at {
                    lemma_before_transitive(name@, was[at as int].0@, was[k].0@);
                }
            }
        }
    }
    index.insert(at, (owned(name), shard));
    proof {
        assert(index@[at as int].0@ == name@);
        assert forall|i: int, j: int|
            #![trigger index@[i], index@[j]]
            0 <= i < j < index@.len() implies before(index@[i].0@, index@[j].0@) by {
            if j < at {
                assert(index@[i] == was[i] && index@[j] == was[j]);
            } else if j == at {
                assert(index@[i] == was[i]);
            } else if i > at {
                assert(index@[i] == was[i - 1] && index@[j] == was[j - 1]);
            } else if i == at {
                assert(index@[j] == was[j - 1]);
                if j - 1 > at {
                    assert(before(was[at as int].0@, was[j - 1].0@));
                    lemma_before_transitive(name@, was[at as int].0@, was[j - 1].0@);
                }
            } else {
                assert(index@[i] == was[i] && index@[j] == was[j - 1]);
            }
        }
        assert forall|k: int|
            #![trigger index@[k]]
            0 <= k < index@.len() implies shard_of(shards@, index@[k].0@) == Some(
            index@[k].1 as int,
        ) by {
            if k < at {
                assert(index@[k] == was[k]);
            } else if k > at {
                assert(index@[k] == was[k - 1]);
            }
        }
        assert forall|n: Seq<char>| lists(was, n) implies #[trigger] lists(index@, n) by {
            let k = choose|k: int| 0 <= k < was.len() && (#[trigger] was[k]).0@ == n;
            if k < at {
                assert(index@[k] == was[k]);
            } else {
                assert(index@[k + 1] == was[k]);
            }
        }
    }
}

/// A name that several shards hold is read from the first of them, so later
/// shards change nothing of what earlier ones give.
pub proof fn law_first_shard_wins(shards: Seq<Shard<'_>>, more: Shard<'_>, name: Seq<char>)
    requires
        shard_of(shards, name) is Some,
    ensures
        shard_of(shards.push(more), name) == shard_of(shards, name),
        loaded(shards.push(more), name) == loaded(shards, name),
{
    assert(shards.push(more).drop_last() =~= shards);
    lemma_shard_of(shards, name);
    let i = shard_of(shards, name)->0;
    assert(shards.push(more)[i] == shards[i]);
}

} // verus!
