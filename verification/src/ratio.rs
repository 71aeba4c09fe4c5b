//! Exact fractions, for figures that are shown as a rate.

use vstd::prelude::*;

verus! {

/// A non-negative fraction whose denominator is never zero.
#[derive(Debug, Clone, Copy, PartialEq, Eq, Structural)]
pub struct Ratio {
    pub numerator: u64,
    pub denominator: u64,
}

impl Ratio {
    /// `part / whole`, or zero where `whole` is zero.
    pub open spec fn spec_of(part: u64, whole: u64) -> Ratio {
        if whole == 0 {
            Ratio { numerator: 0, denominator: 1 }
        } else {
            Ratio { numerator: part, denominator: whole }
        }
    }

    /// `part / whole`, or zero where `whole` is zero.
    pub fn of(part: u64, whole: u64) -> (r: Ratio)
        ensures
            r == Ratio::spec_of(part, whole),
            r.denominator > 0,
    {
        if whole == 0 {
            Ratio { numerator: 0, denominator: 1 }
        } else {
            Ratio { numerator: part, denominator: whole }
        }
    }
}

/// A ratio is the part over the whole: the cross products agree; and it is zero
/// where there is no whole.
pub proof fn law_ratios_are_part_over_whole(part: u64, whole: u64)
    ensures
        Ratio::spec_of(part, whole).denominator > 0,
        whole > 0 ==> Ratio::spec_of(part, whole).numerator * whole == part * Ratio::spec_of(
            part,
            whole,
        ).denominator,
        whole == 0 ==> Ratio::spec_of(part, whole).numerator == 0,
{
}

} // verus!
