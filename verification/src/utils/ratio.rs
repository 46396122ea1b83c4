//! Fractions of integers.

use vstd::prelude::*;

verus! {

/// The fraction `num / den`.
#[derive(Clone, Copy, Debug, PartialEq, Eq, Structural)]
pub struct Ratio {
    pub num: u64,
    pub den: u64,
}

/// Whether `part` of `whole` is at least the share `t`. A share of one or more is never
/// reached.
pub open spec fn share_reached(t: Ratio, part: int, whole: int) -> bool {
    t.num < t.den && part * t.den >= t.num * whole
}

impl Ratio {
    /// Whether `part` of `whole` is at least this share, which is below one.
    pub fn reached(&self, part: u64, whole: u64) -> (r: bool)
        ensures
            r == share_reached(*self, part as int, whole as int),
            r == (self.num < self.den && part * self.den >= self.num * whole),
    {
        if self.num >= self.den {
            return false;
        }
        proof {
            vstd::arithmetic::mul::lemma_mul_upper_bound(
                part as int,
                u64::MAX as int,
                self.den as int,
                u64::MAX as int,
            );
            vstd::arithmetic::mul::lemma_mul_upper_bound(
                self.num as int,
                u64::MAX as int,
                whole as int,
                u64::MAX as int,
            );
        }
        part as u128 * self.den as u128 >= self.num as u128 * whole as u128
    }
}

} // verus!
