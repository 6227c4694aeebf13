use vstd::prelude::*;

use crate::model::lemma_mul_bound;

verus! {

/// An exact rational number. Query results are reported as `num / den` with
/// `den > 0`. The fraction is not reduced: two ratios denote the same value
/// exactly when their cross products agree.
#[derive(Clone, Copy, Debug, PartialEq, Eq, Structural)]
pub struct Ratio {
    pub num: i128,
    pub den: i128,
}

/// Bound on the parts of a ratio under which cross products of two ratios
/// stay representable.
pub const RATIO_PART_BOUND: i128 = 4611686018427387904;

impl Ratio {
    /// The denominator is positive.
    pub open spec fn wf(&self) -> bool {
        0 < self.den
    }

    /// Both parts are small enough for exact cross multiplication.
    pub open spec fn small(&self) -> bool {
        &&& -RATIO_PART_BOUND <= self.num <= RATIO_PART_BOUND
        &&& 0 < self.den <= RATIO_PART_BOUND
    }

    /// This ratio and `other` denote the same rational value.
    pub open spec fn same_value(&self, other: &Ratio) -> bool {
        (self.num as int) * (other.den as int) == (other.num as int) * (self.den as int)
    }

    /// This ratio is at most `other` as a rational value.
    pub open spec fn le_spec(&self, other: &Ratio) -> bool {
        (self.num as int) * (other.den as int) <= (other.num as int) * (self.den as int)
    }

    /// The whole number `v` as a ratio.
    pub fn from_int(v: i64) -> (r: Ratio)
        ensures
            r.num == v as int,
            r.den == 1,
            r.wf(),
    {
        Ratio { num: v as i128, den: 1 }
    }

    /// Exact value equality: `a/b == c/d` as rational numbers.
    pub fn eq_value(&self, other: &Ratio) -> (r: bool)
        requires
            self.small(),
            other.small(),
        ensures
            r == self.same_value(other),
    {
        proof {
            lemma_mul_bound(
                self.num as int,
                other.den as int,
                RATIO_PART_BOUND as int,
                RATIO_PART_BOUND as int,
            );
            lemma_mul_bound(
                other.num as int,
                self.den as int,
                RATIO_PART_BOUND as int,
                RATIO_PART_BOUND as int,
            );
        }
        self.num * other.den == other.num * self.den
    }

    /// Exact value order: `a/b <= c/d` as rational numbers.
    pub fn le_value(&self, other: &Ratio) -> (r: bool)
        requires
            self.small(),
            other.small(),
        ensures
            r == self.le_spec(other),
    {
        proof {
            lemma_mul_bound(
                self.num as int,
                other.den as int,
                RATIO_PART_BOUND as int,
                RATIO_PART_BOUND as int,
            );
            lemma_mul_bound(
                other.num as int,
                self.den as int,
                RATIO_PART_BOUND as int,
                RATIO_PART_BOUND as int,
            );
        }
        self.num * other.den <= other.num * self.den
    }
}

} // verus!
