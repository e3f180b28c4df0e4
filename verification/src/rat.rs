//! Exact rational scores: a numerator over a positive denominator.
use vstd::prelude::*;

verus! {

/// An exact rational value `num / den` with `den > 0`.  Scores and
/// accuracies are reported in this form, with no rounding.
#[derive(Clone, Copy, Debug, PartialEq, Eq, Structural)]
pub struct Ratio {
    pub num: i128,
    pub den: i128,
}

impl Ratio {
    /// The denominator is positive.
    pub open spec fn wf(self) -> bool {
        self.den > 0
    }

    /// `self < other` as rational values, by cross multiplication.
    pub open spec fn spec_lt(self, other: Ratio) -> bool {
        self.num * other.den < other.num * self.den
    }

    /// `self` and `other` denote the same rational value.
    pub open spec fn same_value_spec(self, other: Ratio) -> bool {
        self.num * other.den == other.num * self.den
    }

    /// Strict comparison of two rational values.  The cross products must
    /// fit in the machine integer type.
    pub fn lt(&self, other: &Ratio) -> (r: bool)
        requires
            self.wf(),
            other.wf(),
            i128::MIN <= self.num * other.den <= i128::MAX,
            i128::MIN <= other.num * self.den <= i128::MAX,
        ensures
            r == self.spec_lt(*other),
    {
        self.num * other.den < other.num * self.den
    }

    /// Do the two fractions denote the same rational value?
    pub fn same_value(&self, other: &Ratio) -> (r: bool)
        requires
            self.wf(),
            other.wf(),
            i128::MIN <= self.num * other.den <= i128::MAX,
            i128::MIN <= other.num * self.den <= i128::MAX,
        ensures
            r == self.same_value_spec(*other),
    {
        self.num * other.den == other.num * self.den
    }
}

/// A strictly smaller fraction stays strictly smaller across a `<=` step.
pub proof fn lemma_frac_lt_le(na: int, da: int, nb: int, db: int, nc: int, dc: int)
    requires
        da > 0,
        db > 0,
        dc > 0,
        na * db < nb * da,
        nb * dc <= nc * db,
    ensures
        na * dc < nc * da,
{
    assert(na * dc < nc * da) by (nonlinear_arith)
        requires
            da > 0,
            db > 0,
            dc > 0,
            na * db < nb * da,
            nb * dc <= nc * db,
    ;
}

/// A `<=` step followed by a strictly smaller fraction stays strict.
pub proof fn lemma_frac_le_lt(na: int, da: int, nb: int, db: int, nc: int, dc: int)
    requires
        da > 0,
        db > 0,
        dc > 0,
        na * db <= nb * da,
        nb * dc < nc * db,
    ensures
        na * dc < nc * da,
{
    assert(na * dc < nc * da) by (nonlinear_arith)
        requires
            da > 0,
            db > 0,
            dc > 0,
            na * db <= nb * da,
            nb * dc < nc * db,
    ;
}

} // verus!
