use vstd::prelude::*;

use core::cmp::Ordering;

use crate::model::{lemma_mul_bound, lemma_sum_range, lemma_abs_scale, lemma_valid_add_value};
use crate::ratio::Ratio;
use crate::TdError;
use crate::{MAX_ABS_VALUE, MAX_TOTAL_WEIGHT};

verus! {

/// A weighted cluster of observations. The mean of the cluster is the exact
/// rational `sum / weight`; the weighted sum is stored instead of the mean so
/// that absorbing further observations stays exact.
#[derive(Clone, Copy, Debug, PartialEq, Eq, Structural)]
pub struct Centroid {
    /// Weighted numerator of the cluster: its mean is `sum / weight`.
    pub sum: i128,
    /// Total weight of the cluster; always positive.
    pub weight: u64,
}

impl Centroid {
    /// Well-formedness: a positive, bounded weight and a mean whose
    /// magnitude stays within [`MAX_ABS_VALUE`].
    pub open spec fn valid(&self) -> bool {
        &&& 0 < self.weight <= MAX_TOTAL_WEIGHT
        &&& -((MAX_ABS_VALUE as int) * (self.weight as int)) <= self.sum as int
        &&& self.sum as int <= (MAX_ABS_VALUE as int) * (self.weight as int)
    }

    /// Runtime check of [`Centroid::valid`].
    pub fn is_valid(&self) -> (b: bool)
        ensures
            b == self.valid(),
    {
        if self.weight == 0 || self.weight > MAX_TOTAL_WEIGHT {
            return false;
        }
        proof {
            lemma_mul_bound(
                MAX_ABS_VALUE as int,
                self.weight as int,
                MAX_ABS_VALUE as int,
                MAX_TOTAL_WEIGHT as int,
            );
        }
        let limit: i128 = (MAX_ABS_VALUE as i128) * (self.weight as i128);
        -limit <= self.sum && self.sum <= limit
    }

    /// Builds a centroid with the given whole-number mean and weight. A
    /// weight of zero is rejected as invalid input rather than producing a
    /// degenerate cluster.
    pub fn new(mean: i64, weight: u64) -> (r: Result<Centroid, TdError>)
        requires
            -MAX_ABS_VALUE <= mean <= MAX_ABS_VALUE,
            weight <= MAX_TOTAL_WEIGHT,
        ensures
            weight == 0 ==> r is Err && r->Err_0 == TdError::InvalidInput,
            weight > 0 ==> {
                &&& r is Ok
                &&& r->Ok_0.weight == weight
                &&& r->Ok_0.sum as int == (mean as int) * (weight as int)
                &&& r->Ok_0.valid()
            },
    {
        if weight == 0 {
            Err(TdError::InvalidInput)
        } else {
            proof {
                lemma_mul_bound(
                    mean as int,
                    weight as int,
                    MAX_ABS_VALUE as int,
                    MAX_TOTAL_WEIGHT as int,
                );
                lemma_abs_scale(mean as int, MAX_ABS_VALUE as int, weight as int);
            }
            let s: i128 = (mean as i128) * (weight as i128);
            Ok(Centroid { sum: s, weight })
        }
    }

    /// The exact mean of the cluster, as the ratio `sum / weight`.
    pub fn mean(&self) -> (r: Ratio)
        ensures
            r.num == self.sum,
            r.den == self.weight as int,
    {
        Ratio { num: self.sum, den: self.weight as i128 }
    }

    /// The total weight of the cluster.
    pub fn weight(&self) -> (r: u64)
        ensures
            r == self.weight,
    {
        self.weight
    }

    /// Absorbs one more weighted observation. The new weight is the sum of
    /// the weights, and the new mean is `(mean * weight + value) / new_weight`
    /// — the incoming value enters the numerator unscaled by its own weight.
    /// This asymmetric rule is deliberate: every downstream quantile depends
    /// on it, so it must not be "corrected" into a plain weighted average.
    /// Returns the new mean and weight. A zero incoming weight is rejected
    /// and leaves the centroid unchanged.
    pub fn update(&mut self, value: i64, weight: u64) -> (r: Result<(Ratio, u64), TdError>)
        requires
            old(self).valid(),
            -MAX_ABS_VALUE <= value <= MAX_ABS_VALUE,
            old(self).weight + weight <= MAX_TOTAL_WEIGHT,
        ensures
            weight == 0 ==> {
                &&& r is Err
                &&& r->Err_0 == TdError::InvalidInput
                &&& *final(self) == *old(self)
            },
            weight > 0 ==> {
                &&& final(self).weight == old(self).weight + weight
                &&& final(self).sum == old(self).sum + value
                &&& final(self).valid()
                &&& r is Ok
                &&& r->Ok_0.0.num == final(self).sum
                &&& r->Ok_0.0.den == final(self).weight as int
                &&& r->Ok_0.1 == final(self).weight
            },
    {
        if weight == 0 {
            return Err(TdError::InvalidInput);
        }
        proof {
            lemma_valid_add_value(
                self.sum as int,
                self.weight as int,
                value as int,
                weight as int,
                MAX_ABS_VALUE as int,
            );
        }
        self.weight = self.weight + weight;
        self.sum = self.sum + (value as i128);
        Ok((Ratio { num: self.sum, den: self.weight as i128 }, self.weight))
    }

    /// Total order by mean alone: the weight plays no part. Two clusters of
    /// equal mean but different weight compare as equal here even though they
    /// are distinct values; deduplication must use full equality instead.
    pub fn cmp_mean(&self, other: &Centroid) -> (r: Ordering)
        requires
            self.valid(),
            other.valid(),
        ensures
            (r == Ordering::Less) == ((self.sum as int) * (other.weight as int) < (other.sum
                as int) * (self.weight as int)),
            (r == Ordering::Equal) == ((self.sum as int) * (other.weight as int) == (other.sum
                as int) * (self.weight as int)),
            (r == Ordering::Greater) == ((self.sum as int) * (other.weight as int) > (other.sum
                as int) * (self.weight as int)),
    {
        proof {
            lemma_sum_range(
                self.sum as int,
                self.weight as int,
                MAX_ABS_VALUE as int,
                MAX_TOTAL_WEIGHT as int,
            );
            lemma_sum_range(
                other.sum as int,
                other.weight as int,
                MAX_ABS_VALUE as int,
                MAX_TOTAL_WEIGHT as int,
            );
            lemma_mul_bound(
                self.sum as int,
                other.weight as int,
                (MAX_ABS_VALUE as int) * (MAX_TOTAL_WEIGHT as int),
                MAX_TOTAL_WEIGHT as int,
            );
            lemma_mul_bound(
                other.sum as int,
                self.weight as int,
                (MAX_ABS_VALUE as int) * (MAX_TOTAL_WEIGHT as int),
                MAX_TOTAL_WEIGHT as int,
            );
        }
        let a: i128 = self.sum * (other.weight as i128);
        let b: i128 = other.sum * (self.weight as i128);
        if a < b {
            Ordering::Less
        } else if a == b {
            Ordering::Equal
        } else {
            Ordering::Greater
        }
    }
}

impl PartialOrd for Centroid {
    /// Mean-only partial order: well-formed centroids compare by their exact
    /// rational means; a malformed centroid compares with nothing.
    fn partial_cmp(&self, other: &Centroid) -> (r: Option<Ordering>) {
        if self.is_valid() && other.is_valid() {
            Some(self.cmp_mean(other))
        } else {
            None
        }
    }
}

impl vstd::std_specs::cmp::PartialOrdSpecImpl for Centroid {
    open spec fn obeys_partial_cmp_spec() -> bool {
        true
    }

    open spec fn partial_cmp_spec(&self, other: &Centroid) -> Option<Ordering> {
        if self.valid() && other.valid() {
            if (self.sum as int) * (other.weight as int) < (other.sum as int) * (self.weight
                as int) {
                Some(Ordering::Less)
            } else if (self.sum as int) * (other.weight as int) == (other.sum as int)
                * (self.weight as int) {
                Some(Ordering::Equal)
            } else {
                Some(Ordering::Greater)
            }
        } else {
            None
        }
    }
}

impl Default for Centroid {
    /// A unit cluster at zero.
    fn default() -> (r: Centroid)
        ensures
            r.sum == 0,
            r.weight == 1,
            r.valid(),
    {
        Centroid { sum: 0, weight: 1 }
    }
}

} // verus!
