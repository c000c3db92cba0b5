use vstd::prelude::*;

verus! {

/// A rational number `num / den`; well formed when `den > 0`.
///
/// The fraction is not kept in lowest terms: `1/2` and `2/4` are different
/// values of the type that stand for the same number.
#[derive(Clone, Copy, Debug, PartialEq, Eq)]
pub struct Ratio {
    pub num: i128,
    pub den: i128,
}

impl Ratio {
    /// The denominator is positive.
    pub open spec fn wf(self) -> bool {
        self.den > 0
    }

    /// `self <= o` as rational numbers (both well formed).
    pub open spec fn le(self, o: Ratio) -> bool {
        self.num * o.den <= o.num * self.den
    }

    /// `self` stands for the integer `v`.
    pub open spec fn is_int(self, v: int) -> bool {
        self.num == v * self.den
    }
}

} // verus!
