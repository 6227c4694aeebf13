use vstd::prelude::*;

use crate::centroid::Centroid;
use crate::model::{all_valid, in_bounds, lemma_mul_bound, mean_le, sorted_by_mean, total_weight};
use crate::ratio::Ratio;
use crate::TdError;
use crate::{DEFAULT_MAX_SIZE, MAX_ABS_VALUE, MAX_SIZE_BOUND, MAX_TOTAL_WEIGHT};

verus! {

/// A bounded-size, sorted collection of centroids plus summary statistics,
/// approximating the distribution of the observations fed into it.
#[derive(Clone, Debug)]
pub struct TDigest {
    /// The clusters, kept non-decreasing by mean.
    pub centroids: Vec<Centroid>,
    /// Target bound on the number of clusters.
    pub max_size: usize,
    /// Exact total of the absorbed numerators.
    pub sum: i128,
    /// Exact total weight of all clusters.
    pub count: u64,
    /// Largest observation seen, absent while the digest is empty.
    pub max: Option<i64>,
    /// Smallest observation seen, absent while the digest is empty.
    pub min: Option<i64>,
}

impl TDigest {
    /// The digest invariant: a bounded, sorted centroid list whose weights
    /// add up to `count`, with the tracked extrema bracketing every mean.
    pub open spec fn wf(&self) -> bool {
        &&& 1 <= self.max_size <= MAX_SIZE_BOUND
        &&& self.centroids@.len() <= self.max_size
        &&& all_valid(self.centroids@)
        &&& sorted_by_mean(self.centroids@)
        &&& self.count as int == total_weight(self.centroids@)
        &&& self.count <= MAX_TOTAL_WEIGHT
        &&& -((MAX_ABS_VALUE as int) * (self.count as int)) <= self.sum as int
        &&& self.sum as int <= (MAX_ABS_VALUE as int) * (self.count as int)
        &&& (self.count == 0 <==> self.centroids@.len() == 0)
        &&& (self.count == 0 ==> self.min is None && self.max is None)
        &&& (self.count > 0 ==> {
            &&& self.min is Some
            &&& self.max is Some
            &&& -MAX_ABS_VALUE <= self.min->Some_0
            &&& self.min->Some_0 <= self.max->Some_0
            &&& self.max->Some_0 <= MAX_ABS_VALUE
            &&& in_bounds(self.centroids@, self.min->Some_0 as int, self.max->Some_0 as int)
        })
    }

    /// An empty digest with the given size bound.
    pub fn new_with_size(max_size: usize) -> (r: TDigest)
        requires
            1 <= max_size <= MAX_SIZE_BOUND,
        ensures
            r.wf(),
            r.centroids@.len() == 0,
            r.max_size == max_size,
            r.sum == 0,
            r.count == 0,
            r.max is None,
            r.min is None,
    {
        TDigest {
            centroids: Vec::new(),
            max_size,
            sum: 0,
            count: 0,
            max: None,
            min: None,
        }
    }

    /// The conditions the direct constructor trusts its caller to meet:
    /// sorted, well-formed centroids whose weights add up to `count`, a sum
    /// within range, and extrema that bracket every mean, all absent exactly
    /// when the digest is empty.
    pub open spec fn fields_ok(
        centroids: Seq<Centroid>,
        sum: i128,
        count: u64,
        max: Option<i64>,
        min: Option<i64>,
    ) -> bool {
        &&& all_valid(centroids)
        &&& sorted_by_mean(centroids)
        &&& count as int == total_weight(centroids)
        &&& count <= MAX_TOTAL_WEIGHT
        &&& -((MAX_ABS_VALUE as int) * (count as int)) <= sum as int
        &&& sum as int <= (MAX_ABS_VALUE as int) * (count as int)
        &&& (count == 0 <==> centroids.len() == 0)
        &&& (count == 0 ==> min is None && max is None)
        &&& (count > 0 ==> {
            &&& min is Some
            &&& max is Some
            &&& -MAX_ABS_VALUE <= min->Some_0 <= max->Some_0 <= MAX_ABS_VALUE
            &&& in_bounds(centroids, min->Some_0 as int, max->Some_0 as int)
        })
    }

    /// Direct constructor from caller-supplied state. The caller contract
    /// (the `requires` clause) is trusted, not re-validated — use
    /// [`TDigest::try_new`] for untrusted input. A list longer than
    /// `max_size` is not rejected: the constructor heals itself by running
    /// the merge engine's compression against the default size bound, so
    /// construction always succeeds with a near-bounded digest.
    pub fn new(
        centroids: Vec<Centroid>,
        max_size: usize,
        sum: i128,
        count: u64,
        max: Option<i64>,
        min: Option<i64>,
    ) -> (r: TDigest)
        requires
            1 <= max_size <= MAX_SIZE_BOUND,
            Self::fields_ok(centroids@, sum, count, max, min),
        ensures
            r.wf(),
            r.count == count,
            r.sum == sum,
            r.min == min,
            r.max == max,
            centroids@.len() <= max_size ==> r.max_size == max_size && r.centroids@ == centroids@,
            centroids@.len() > max_size && centroids@.len() <= DEFAULT_MAX_SIZE ==> r.max_size
                == centroids@.len() && r.centroids@ == centroids@,
            centroids@.len() > max_size && centroids@.len() > DEFAULT_MAX_SIZE ==> r.max_size
                == DEFAULT_MAX_SIZE && r.centroids@.len() <= DEFAULT_MAX_SIZE,
    {
        if centroids.len() <= max_size {
            TDigest { centroids, max_size, sum, count, max, min }
        } else if centroids.len() <= DEFAULT_MAX_SIZE {
            let ms: usize = centroids.len();
            TDigest { centroids, max_size: ms, sum, count, max, min }
        } else {
            proof {
                crate::model::lemma_total_weight_ge_len(centroids@);
            }
            let compressed = crate::merge::compress(
                &centroids,
                DEFAULT_MAX_SIZE,
                count,
                Ghost(min->Some_0 as int),
                Ghost(max->Some_0 as int),
            );
            TDigest { centroids: compressed, max_size: DEFAULT_MAX_SIZE, sum, count, max, min }
        }
    }

    /// Fully validating constructor for untrusted input: every condition the
    /// direct constructor trusts is checked at runtime, and a violation is
    /// reported as invalid input instead of producing a corrupt digest.
    #[verifier::loop_isolation(false)]
    pub fn try_new(
        centroids: Vec<Centroid>,
        max_size: usize,
        sum: i128,
        count: u64,
        max: Option<i64>,
        min: Option<i64>,
    ) -> (r: Result<TDigest, TdError>)
        ensures
            r is Err ==> r->Err_0 == TdError::InvalidInput,
            r is Ok <==> (1 <= max_size <= MAX_SIZE_BOUND && Self::fields_ok(
                centroids@,
                sum,
                count,
                max,
                min,
            )),
            r is Ok ==> r->Ok_0.wf() && r->Ok_0.count == count && r->Ok_0.sum == sum
                && r->Ok_0.min == min && r->Ok_0.max == max,
    {
        if max_size < 1 || max_size > MAX_SIZE_BOUND {
            return Err(TdError::InvalidInput);
        }
        if count > MAX_TOTAL_WEIGHT {
            return Err(TdError::InvalidInput);
        }
        proof {
            lemma_mul_bound(
                MAX_ABS_VALUE as int,
                count as int,
                MAX_ABS_VALUE as int,
                MAX_TOTAL_WEIGHT as int,
            );
        }
        let limit: i128 = (MAX_ABS_VALUE as i128) * (count as i128);
        if sum < -limit || sum > limit {
            return Err(TdError::InvalidInput);
        }
        if count == 0 {
            if centroids.len() != 0 || !matches!(min, None) || !matches!(max, None) {
                return Err(TdError::InvalidInput);
            }
            proof {
                assert(centroids@ =~= Seq::<Centroid>::empty());
            }
            return Ok(TDigest { centroids, max_size, sum, count, max, min });
        }
        let (mn, mx): (i64, i64) = match (min, max) {
            (Some(a), Some(b)) => (a, b),
            _ => {
                return Err(TdError::InvalidInput);
            },
        };
        if centroids.len() == 0 || mn < -MAX_ABS_VALUE || mn > mx || mx > MAX_ABS_VALUE {
            return Err(TdError::InvalidInput);
        }
        let mut k: usize = 0;
        let mut wtotal: u64 = 0;
        while k < centroids.len()
            invariant
                k <= centroids@.len(),
                all_valid(centroids@.subrange(0, k as int)),
                forall|i: int|
                    0 < i < k ==> mean_le(
                        centroids@[i - 1],
                        #[trigger] centroids@[i],
                    ),
                in_bounds(centroids@.subrange(0, k as int), mn as int, mx as int),
                wtotal <= MAX_TOTAL_WEIGHT,
                wtotal as int == total_weight(centroids@.subrange(0, k as int)),
            decreases centroids@.len() - k,
        {
            let c = centroids[k];
            if !c.is_valid() {
                return Err(TdError::InvalidInput);
            }
            if k > 0 && !crate::merge::mean_le_exec(&centroids[k - 1], &c) {
                return Err(TdError::InvalidInput);
            }
            proof {
                lemma_mul_bound(
                    mn as int,
                    c.weight as int,
                    MAX_ABS_VALUE as int,
                    MAX_TOTAL_WEIGHT as int,
                );
                lemma_mul_bound(
                    mx as int,
                    c.weight as int,
                    MAX_ABS_VALUE as int,
                    MAX_TOTAL_WEIGHT as int,
                );
            }
            if (mn as i128) * (c.weight as i128) > c.sum || c.sum > (mx as i128) * (c.weight
                as i128) {
                return Err(TdError::InvalidInput);
            }
            if c.weight > MAX_TOTAL_WEIGHT - wtotal {
                proof {
                    if Self::fields_ok(centroids@, sum, count, max, min) {
                        crate::model::lemma_totals_step(centroids@, k as int);
                        crate::model::lemma_prefix_weights(centroids@, k as int + 1);
                    }
                }
                return Err(TdError::InvalidInput);
            }
            proof {
                crate::model::lemma_totals_step(centroids@, k as int);
                assert forall|i: int| 0 <= i < k + 1 implies (#[trigger] centroids@.subrange(
                    0,
                    k as int + 1,
                )[i]).valid() by {
                    assert(centroids@.subrange(0, k as int + 1)[i] == centroids@[i]);
                    if i < k {
                        assert(centroids@.subrange(0, k as int)[i] == centroids@[i]);
                    }
                }
                assert forall|i: int| 0 <= i < k + 1 implies {
                    &&& (mn as int) * ((#[trigger] centroids@.subrange(0, k as int + 1)[i]).weight
                        as int) <= centroids@.subrange(0, k as int + 1)[i].sum as int
                    &&& centroids@.subrange(0, k as int + 1)[i].sum as int <= (mx as int) * (
                    centroids@.subrange(0, k as int + 1)[i].weight as int)
                } by {
                    assert(centroids@.subrange(0, k as int + 1)[i] == centroids@[i]);
                    if i < k {
                        assert(centroids@.subrange(0, k as int)[i] == centroids@[i]);
                    }
                }
            }
            wtotal = wtotal + c.weight;
            k = k + 1;
        }
        proof {
            assert(centroids@.subrange(0, centroids@.len() as int) =~= centroids@);
        }
        if wtotal != count {
            return Err(TdError::InvalidInput);
        }
        proof {
            crate::model::lemma_sorted_from_adjacent(centroids@);
        }
        if centroids.len() <= max_size {
            Ok(TDigest { centroids, max_size, sum, count, max, min })
        } else {
            proof {
                crate::model::lemma_total_weight_ge_len(centroids@);
            }
            let compressed = crate::merge::compress(
                &centroids,
                max_size,
                count,
                Ghost(mn as int),
                Ghost(mx as int),
            );
            Ok(TDigest { centroids: compressed, max_size, sum, count, max, min })
        }
    }

    /// The mean of all absorbed observations, `sum / count`; asking the
    /// mean of an empty digest is reported as an error, not a sentinel.
    pub fn mean(&self) -> (r: Result<Ratio, TdError>)
        ensures
            self.count == 0 ==> r is Err && r->Err_0 == TdError::EmptyDigestQuery,
            self.count > 0 ==> {
                &&& r is Ok
                &&& r->Ok_0.num == self.sum
                &&& r->Ok_0.den == self.count as int
                &&& r->Ok_0.wf()
            },
    {
        if self.count == 0 {
            Err(TdError::EmptyDigestQuery)
        } else {
            Ok(Ratio { num: self.sum, den: self.count as i128 })
        }
    }

    /// Exact total of the absorbed numerators.
    pub fn sum(&self) -> (r: i128)
        ensures
            r == self.sum,
    {
        self.sum
    }

    /// Exact total weight held by the digest.
    pub fn count(&self) -> (r: u64)
        ensures
            r == self.count,
    {
        self.count
    }

    /// Largest observation seen, absent while the digest is empty.
    pub fn max(&self) -> (r: Option<i64>)
        ensures
            r == self.max,
    {
        self.max
    }

    /// Smallest observation seen, absent while the digest is empty.
    pub fn min(&self) -> (r: Option<i64>)
        ensures
            r == self.min,
    {
        self.min
    }

    /// Whether the digest holds no clusters.
    pub fn is_empty(&self) -> (r: bool)
        ensures
            r == (self.centroids@.len() == 0),
    {
        self.centroids.len() == 0
    }

    /// The size bound the digest was built with.
    pub fn max_size(&self) -> (r: usize)
        ensures
            r == self.max_size,
    {
        self.max_size
    }
}

impl Default for TDigest {
    /// An empty digest with the default size bound.
    fn default() -> (r: TDigest)
        ensures
            r.wf(),
            r.centroids@.len() == 0,
            r.max_size == DEFAULT_MAX_SIZE,
            r.sum == 0,
            r.count == 0,
            r.max is None,
            r.min is None,
    {
        TDigest {
            centroids: Vec::new(),
            max_size: DEFAULT_MAX_SIZE,
            sum: 0,
            count: 0,
            max: None,
            min: None,
        }
    }
}

} // verus!
