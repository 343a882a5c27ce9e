//! A load-factor threshold, held as the exact fraction `numerator /
//! denominator`.
//!
//! Growth compares `count / size` with the threshold exactly, by
//! cross-multiplication.  A comparison of an `f32` threshold with the `f32`
//! quotient of the two counts can differ from it: above `2^24` the counts
//! themselves are rounded, and the quotient is rounded too, so a load just
//! above the threshold may compare as equal (for instance 53687093 items in
//! `2^26` slots against `0.8f32`, which is exactly 13421773 / 16777216).
use vstd::prelude::*;

verus! {

/// The fraction of occupied slots above which a table grows.
#[derive(Clone, Copy)]
pub struct LoadFactor {
    pub numerator: u32,
    pub denominator: u32,
}

impl LoadFactor {
    /// A usable threshold has a non-zero denominator.
    pub open spec fn valid(&self) -> bool {
        self.denominator != 0
    }

    /// The threshold is strictly below `count / size`.
    pub open spec fn is_exceeded_by(&self, count: nat, size: nat) -> bool {
        self.numerator * size < count * self.denominator
    }

    /// Whether `count / size` is strictly above the threshold, compared
    /// exactly by cross-multiplication.
    pub fn exceeded_by(&self, count: u32, size: u32) -> (r: bool)
        ensures
            r == self.is_exceeded_by(count as nat, size as nat),
            r == (self.numerator * size < count * self.denominator),
    {
        let a: u64 = self.numerator as u64;
        let b: u64 = size as u64;
        let c: u64 = count as u64;
        let d: u64 = self.denominator as u64;
        assert(a * b <= 0xffff_ffff * 0xffff_ffff && c * d <= 0xffff_ffff * 0xffff_ffff) by (nonlinear_arith)
            requires
                a <= 0xffff_ffff,
                b <= 0xffff_ffff,
                c <= 0xffff_ffff,
                d <= 0xffff_ffff,
        ;
        let lhs: u64 = a * b;
        let rhs: u64 = c * d;
        lhs < rhs
    }
}

/// The threshold is exceeded exactly when `count / size` is above
/// `numerator / denominator`, compared by cross-multiplication, for every
/// fraction, whether below, equal to or above one.
pub proof fn law_exceeded_is_fraction_comparison(lf: LoadFactor, count: nat, size: nat)
    ensures
        lf.is_exceeded_by(count, size) <==> lf.numerator * size < count * lf.denominator,
{
}

/// A larger count exceeds the threshold whenever a smaller one does.
pub proof fn law_exceeded_monotone(lf: LoadFactor, c1: nat, c2: nat, size: nat)
    requires
        c1 <= c2,
        lf.is_exceeded_by(c1, size),
    ensures
        lf.is_exceeded_by(c2, size),
{
    assert(c1 * lf.denominator <= c2 * lf.denominator) by (nonlinear_arith)
        requires
            c1 <= c2,
    ;
}

} // verus!
