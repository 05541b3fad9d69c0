//! Fractions of machine integers.

use vstd::prelude::*;

verus! {

/// The fraction `num / den`. Nothing is reduced and nothing is demanded of
/// `den`: what a fraction has to satisfy is said where it is used.
#[derive(Clone, Copy, Debug, PartialEq, Eq, Structural)]
pub struct Ratio {
    pub num: u64,
    pub den: u64,
}

impl Ratio {
    /// The fraction is positive with a positive denominator.
    pub open spec fn is_positive(self) -> bool {
        0 < self.num && 0 < self.den
    }

    /// The fraction lies in the interval (0, 1].
    pub open spec fn is_probability(self) -> bool {
        0 < self.num <= self.den
    }

    /// The fraction lies strictly between 0 and 1.
    pub open spec fn is_proper(self) -> bool {
        0 < self.num < self.den
    }
}

} // verus!
