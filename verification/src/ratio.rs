//! Rates as exact fractions.

use vstd::prelude::*;

verus! {

/// A rate kept as an exact fraction of two counts.
///
/// A zero denominator marks a rate that is undefined because nothing was
/// counted for it; dividing the two fields in floating point then gives NaN.
#[derive(Clone, Copy, Debug, PartialEq, Eq, Structural)]
pub struct Ratio {
    pub numerator: u64,
    pub denominator: u64,
}

impl Ratio {
    /// The fraction `part / whole`, as mathematical integers.
    pub open spec fn is_fraction(self, part: int, whole: int) -> bool {
        self.numerator == part && self.denominator == whole
    }

    /// The rate has a value: something was counted for it.
    pub open spec fn is_defined(self) -> bool {
        self.denominator != 0
    }

    /// The rate lies between zero and one, or is undefined.
    pub open spec fn is_proper(self) -> bool {
        self.numerator <= self.denominator
    }

    /// The rate is exactly one.
    pub open spec fn is_one(self) -> bool {
        self.denominator != 0 && self.numerator == self.denominator
    }

    pub fn new(part: u64, whole: u64) -> (r: Ratio)
        ensures
            r.is_fraction(part as int, whole as int),
    {
        Ratio { numerator: part, denominator: whole }
    }

    /// The share of `part` in `part + rest`.
    pub fn share(part: u64, rest: u64) -> (r: Ratio)
        requires
            part + rest <= u64::MAX,
        ensures
            r.is_fraction(part as int, part + rest),
            r.is_proper(),
    {
        Ratio { numerator: part, denominator: part + rest }
    }

    pub fn undefined() -> (r: Ratio)
        ensures
            r.is_fraction(0, 0),
            !r.is_defined(),
    {
        Ratio { numerator: 0, denominator: 0 }
    }

    pub fn defined(&self) -> (b: bool)
        ensures
            b == self.is_defined(),
    {
        self.denominator != 0
    }
}

} // verus!
