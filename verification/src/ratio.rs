//! Rates and pressures as ratios of whole numbers.

use vstd::prelude::*;

verus! {

/// The ratio `numerator / denominator`.
#[derive(Clone, Copy, Debug)]
pub struct Ratio {
    pub numerator: u32,
    pub denominator: u32,
}

impl Ratio {
    /// The ratio lies between zero and one, both included.
    pub open spec fn is_probability(&self) -> bool {
        self.denominator > 0 && self.numerator <= self.denominator
    }

    /// The ratio lies between one and two, both included.
    pub open spec fn is_pressure(&self) -> bool {
        self.denominator > 0 && self.denominator <= self.numerator && self.numerator <= 2
            * self.denominator
    }

    /// The ratio `numerator / denominator`.
    pub fn new(numerator: u32, denominator: u32) -> (r: Ratio)
        ensures
            r.numerator == numerator,
            r.denominator == denominator,
    {
        Ratio { numerator, denominator }
    }

    /// Whether the ratio can serve as a probability.
    pub fn in_unit_interval(&self) -> (ok: bool)
        ensures
            ok == self.is_probability(),
    {
        self.denominator > 0 && self.numerator <= self.denominator
    }

    /// Whether the ratio can serve as a selective pressure.
    pub fn in_pressure_range(&self) -> (ok: bool)
        ensures
            ok == self.is_pressure(),
    {
        self.denominator > 0 && self.denominator <= self.numerator && self.numerator
            - self.denominator <= self.denominator
    }
}

} // verus!
