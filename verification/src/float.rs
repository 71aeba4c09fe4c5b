//! Single-precision numbers by their bit pattern.
//!
//! The rules of the server compare such numbers and pass them on; they never
//! compute with them. A number is therefore held as the 32 bits of its IEEE
//! 754 encoding, on which the comparisons are exact integer arithmetic.

use vstd::prelude::*;

verus! {

/// The sign bit.
pub const SIGN: u32 = 0x8000_0000;

/// The encoding of positive infinity: larger magnitudes are no numbers.
pub const INFINITY: u32 = 0x7f80_0000;

/// A single-precision number, by its IEEE 754 binary32 encoding.
#[derive(Debug, Clone, Copy, PartialEq, Eq, Structural)]
pub struct Float32 {
    pub bits: u32,
}

impl Float32 {
    pub open spec fn magnitude(self) -> int {
        if self.bits >= SIGN {
            self.bits - SIGN
        } else {
            self.bits as int
        }
    }

    /// Whether the encoding stands for no number at all.
    pub open spec fn nan(self) -> bool {
        self.magnitude() > INFINITY
    }

    /// The place of a number in the order of all numbers: the magnitude bits,
    /// negated under the sign bit, so that both zeros are at place 0.
    pub open spec fn place(self) -> int {
        if self.bits >= SIGN {
            -self.magnitude()
        } else {
            self.magnitude()
        }
    }

    /// Whether the number is neither infinite nor undefined.
    pub open spec fn finite(self) -> bool {
        self.magnitude() < INFINITY
    }

    /// `self < other`, which is false where either side is no number.
    pub open spec fn below(self, other: Float32) -> bool {
        !self.nan() && !other.nan() && self.place() < other.place()
    }

    /// `self == other` as numbers: the two zeros are equal, and what is no
    /// number equals nothing.
    pub open spec fn same(self, other: Float32) -> bool {
        !self.nan() && !other.nan() && self.place() == other.place()
    }

    pub open spec fn spec_zero() -> Float32 {
        Float32 { bits: 0 }
    }

    pub open spec fn spec_one() -> Float32 {
        Float32 { bits: 0x3f80_0000 }
    }

    /// The number `0.0`.
    pub fn zero() -> (r: Float32)
        ensures
            r == Self::spec_zero(),
    {
        Float32 { bits: 0 }
    }

    /// The number `1.0`.
    pub fn one() -> (r: Float32)
        ensures
            r == Self::spec_one(),
    {
        Float32 { bits: 0x3f80_0000 }
    }

    /// Whether the encoding stands for no number at all.
    pub fn is_nan(self) -> (r: bool)
        ensures
            r == self.nan(),
    {
        if self.bits >= SIGN {
            self.bits - SIGN > INFINITY
        } else {
            self.bits > INFINITY
        }
    }

    /// Whether the number is neither infinite nor undefined.
    pub fn is_finite(self) -> (r: bool)
        ensures
            r == self.finite(),
    {
        if self.bits >= SIGN {
            self.bits - SIGN < INFINITY
        } else {
            self.bits < INFINITY
        }
    }

    /// The place of the number in the order of all numbers.
    pub fn order(self) -> (r: i64)
        ensures
            r == self.place(),
    {
        if self.bits >= SIGN {
            -((self.bits - SIGN) as i64)
        } else {
            self.bits as i64
        }
    }

    /// `self < other`.
    pub fn lt(self, other: Float32) -> (r: bool)
        ensures
            r == self.below(other),
    {
        !self.is_nan() && !other.is_nan() && self.order() < other.order()
    }

    /// `self == other` as numbers.
    pub fn equals(self, other: Float32) -> (r: bool)
        ensures
            r == self.same(other),
    {
        !self.is_nan() && !other.is_nan() && self.order() == other.order()
    }
}

/// A number that may have to be shown: its value and how it is written.
#[derive(Debug, Clone, PartialEq, Eq)]
pub struct WrittenFloat {
    pub value: Float32,
    pub text: String,
}

impl WrittenFloat {
    pub fn new(bits: u32, text: String) -> (r: WrittenFloat)
        ensures
            r.value.bits == bits,
            r.text@ == text@,
    {
        WrittenFloat { value: Float32 { bits }, text }
    }
}

/// Every two numbers are comparable, in exactly one way; what is no number is
/// comparable with nothing.
pub proof fn law_numbers_are_totally_ordered(a: Float32, b: Float32)
    ensures
        !(a.below(b) && b.below(a)),
        !(a.below(b) && a.same(b)),
        !a.nan() && !b.nan() ==> a.below(b) || a.same(b) || b.below(a),
        a.nan() || b.nan() ==> !a.below(b) && !a.same(b),
{
}

/// Numbers are ordered as their encodings say: two without a sign by their
/// encodings, two with one the other way round, and one with a sign is below one
/// without, unless both are zero.
pub proof fn law_encodings_are_ordered(a: Float32, b: Float32)
    ensures
        a.nan() <==> 0x7f80_0000 < a.bits < 0x8000_0000 || 0xff80_0000 < a.bits,
        a.finite() <==> a.bits < 0x7f80_0000 || 0x8000_0000 <= a.bits < 0xff80_0000,
        a.bits <= 0x7f80_0000 && b.bits <= 0x7f80_0000 ==> {
            &&& a.below(b) <==> a.bits < b.bits
            &&& a.same(b) <==> a.bits == b.bits
        },
        0x8000_0000 <= a.bits <= 0xff80_0000 && 0x8000_0000 <= b.bits <= 0xff80_0000 ==> {
            &&& a.below(b) <==> a.bits > b.bits
            &&& a.same(b) <==> a.bits == b.bits
        },
        0x8000_0000 <= a.bits <= 0xff80_0000 && b.bits <= 0x7f80_0000 ==> {
            &&& !b.below(a)
            &&& a.same(b) <==> a.bits == 0x8000_0000 && b.bits == 0
        },
        Float32::spec_zero().bits == 0,
        Float32::spec_one().bits == 0x3f80_0000,
        crate::sampling::spec_masked().bits == 0xf149_f2ca,
{
}

} // verus!
