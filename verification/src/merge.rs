use vstd::prelude::*;

use crate::centroid::Centroid;
use crate::digest::TDigest;
use crate::model::{
    all_valid, in_bounds, lemma_bounds_add, lemma_cluster_extend, lemma_frac_le_trans,
    lemma_mul_bound, lemma_total_weight_ge_len, lemma_totals_full, lemma_totals_push,
    lemma_totals_step, mean_le, seq_int_sum, sorted_by_mean, total_sum, total_weight,
};
use crate::{MAX_ABS_VALUE, MAX_SIZE_BOUND, MAX_TOTAL_WEIGHT};

verus! {

/// Runtime form of the mean order: `x.sum / x.weight <= y.sum / y.weight`.
pub(crate) fn mean_le_exec(x: &Centroid, y: &Centroid) -> (r: bool)
    requires
        x.valid(),
        y.valid(),
    ensures
        r == mean_le(*x, *y),
{
    proof {
        crate::model::lemma_sum_range(
            x.sum as int,
            x.weight as int,
            MAX_ABS_VALUE as int,
            MAX_TOTAL_WEIGHT as int,
        );
        crate::model::lemma_sum_range(
            y.sum as int,
            y.weight as int,
            MAX_ABS_VALUE as int,
            MAX_TOTAL_WEIGHT as int,
        );
        lemma_mul_bound(
            x.sum as int,
            y.weight as int,
            (MAX_ABS_VALUE as int) * (MAX_TOTAL_WEIGHT as int),
            MAX_TOTAL_WEIGHT as int,
        );
        lemma_mul_bound(
            y.sum as int,
            x.weight as int,
            (MAX_ABS_VALUE as int) * (MAX_TOTAL_WEIGHT as int),
            MAX_TOTAL_WEIGHT as int,
        );
    }
    x.sum * (y.weight as i128) <= y.sum * (x.weight as i128)
}

/// Stable merge of two mean-sorted centroid lists into one mean-sorted list.
/// Ties take the left list first, so merging is deterministic. `lo` and `hi`
/// carry the mean bracket through the merge.
#[verifier::loop_isolation(false)]
pub(crate) fn merge_two(
    a: &Vec<Centroid>,
    b: &Vec<Centroid>,
    lo: Ghost<int>,
    hi: Ghost<int>,
) -> (out: Vec<Centroid>)
    requires
        all_valid(a@),
        all_valid(b@),
        sorted_by_mean(a@),
        sorted_by_mean(b@),
        in_bounds(a@, lo@, hi@),
        in_bounds(b@, lo@, hi@),
    ensures
        all_valid(out@),
        sorted_by_mean(out@),
        in_bounds(out@, lo@, hi@),
        out@.len() == a@.len() + b@.len(),
        total_weight(out@) == total_weight(a@) + total_weight(b@),
        total_sum(out@) == total_sum(a@) + total_sum(b@),
{
    let mut out: Vec<Centroid> = Vec::new();
    let mut i: usize = 0;
    let mut j: usize = 0;
    while i < a.len() || j < b.len()
        invariant
            i <= a.len(),
            j <= b.len(),
            out@.len() == i + j,
            total_weight(out@) == total_weight(a@.subrange(0, i as int)) + total_weight(
                b@.subrange(0, j as int),
            ),
            total_sum(out@) == total_sum(a@.subrange(0, i as int)) + total_sum(
                b@.subrange(0, j as int),
            ),
            all_valid(out@),
            sorted_by_mean(out@),
            in_bounds(out@, lo@, hi@),
            forall|k: int, l: int|
                0 <= k < out@.len() && i <= l < a@.len() ==> #[trigger] mean_le(out@[k], a@[l]),
            forall|k: int, l: int|
                0 <= k < out@.len() && j <= l < b@.len() ==> #[trigger] mean_le(out@[k], b@[l]),
        decreases (a@.len() - i) + (b@.len() - j),
    {
        let take_a: bool = if i == a.len() {
            false
        } else if j == b.len() {
            true
        } else {
            mean_le_exec(&a[i], &b[j])
        };
        let ghost old_out = out@;
        if take_a {
            let c = a[i];
            proof {
                lemma_totals_step(a@, i as int);
                lemma_totals_push(out@, c);
            }
            out.push(c);
            proof {
                assert(mean_le(c, c));
                assert forall|k: int, l: int|
                    0 <= k < out@.len() && i + 1 <= l < a@.len() implies #[trigger] mean_le(
                    out@[k],
                    a@[l],
                ) by {
                    if k < old_out.len() {
                        assert(mean_le(old_out[k], a@[l]));
                    } else {
                        assert(out@[k] == a@[i as int]);
                        assert(mean_le(a@[i as int], a@[l]));
                    }
                }
                assert forall|k: int, l: int|
                    0 <= k < out@.len() && j <= l < b@.len() implies #[trigger] mean_le(
                    out@[k],
                    b@[l],
                ) by {
                    if k < old_out.len() {
                        assert(mean_le(old_out[k], b@[l]));
                    } else {
                        assert(out@[k] == a@[i as int]);
                        assert(mean_le(a@[i as int], b@[j as int]));
                        assert(mean_le(b@[j as int], b@[l]));
                        lemma_frac_le_trans(
                            a@[i as int].sum as int,
                            a@[i as int].weight as int,
                            b@[j as int].sum as int,
                            b@[j as int].weight as int,
                            b@[l].sum as int,
                            b@[l].weight as int,
                        );
                    }
                }
                assert(sorted_by_mean(out@)) by {
                    assert forall|k: int, l: int| 0 <= k <= l < out@.len() implies #[trigger] mean_le(
                        out@[k],
                        out@[l],
                    ) by {
                        if l < old_out.len() {
                            assert(mean_le(old_out[k], old_out[l]));
                        } else if k < old_out.len() {
                            assert(mean_le(old_out[k], a@[i as int]));
                        }
                    }
                }
            }
            i = i + 1;
        } else {
            let c = b[j];
            proof {
                lemma_totals_step(b@, j as int);
                lemma_totals_push(out@, c);
                if i < a.len() {
                    assert(mean_le(b@[j as int], a@[i as int]));
                }
            }
            out.push(c);
            proof {
                assert(mean_le(c, c));
                assert forall|k: int, l: int|
                    0 <= k < out@.len() && j + 1 <= l < b@.len() implies #[trigger] mean_le(
                    out@[k],
                    b@[l],
                ) by {
                    if k < old_out.len() {
                        assert(mean_le(old_out[k], b@[l]));
                    } else {
                        assert(out@[k] == b@[j as int]);
                        assert(mean_le(b@[j as int], b@[l]));
                    }
                }
                assert forall|k: int, l: int|
                    0 <= k < out@.len() && i <= l < a@.len() implies #[trigger] mean_le(
                    out@[k],
                    a@[l],
                ) by {
                    if k < old_out.len() {
                        assert(mean_le(old_out[k], a@[l]));
                    } else {
                        assert(out@[k] == b@[j as int]);
                        assert(mean_le(b@[j as int], a@[i as int]));
                        assert(mean_le(a@[i as int], a@[l]));
                        lemma_frac_le_trans(
                            b@[j as int].sum as int,
                            b@[j as int].weight as int,
                            a@[i as int].sum as int,
                            a@[i as int].weight as int,
                            a@[l].sum as int,
                            a@[l].weight as int,
                        );
                    }
                }
                assert(sorted_by_mean(out@)) by {
                    assert forall|k: int, l: int| 0 <= k <= l < out@.len() implies #[trigger] mean_le(
                        out@[k],
                        out@[l],
                    ) by {
                        if l < old_out.len() {
                            assert(mean_le(old_out[k], old_out[l]));
                        } else if k < old_out.len() {
                            assert(mean_le(old_out[k], b@[j as int]));
                        }
                    }
                }
            }
            j = j + 1;
        }
    }
    proof {
        lemma_totals_full(a@);
        lemma_totals_full(b@);
    }
    out
}

/// The scale rule: whether a cluster reaching cumulative weight `w_after`
/// still fits below the `k`-th quantile boundary of the piecewise-quadratic
/// scale function for size bound `d` and total weight `t`. The boundary is
/// `q(k) = 2 (k/d)^2` on the lower half and `1 - 2 (1 - k/d)^2` on the upper
/// half, so boundaries crowd toward both tails.
pub open spec fn scale_fits(w_after: int, k: int, d: int, t: int) -> bool {
    if 2 * k <= d {
        w_after * (d * d) <= 2 * (k * k) * t
    } else {
        w_after * (d * d) <= (d * d - 2 * ((d - k) * (d - k))) * t
    }
}

/// Runtime form of [`scale_fits`], exact in 128-bit arithmetic.
fn cluster_fits(w_after: u64, k: u64, d: usize, total: u64) -> (r: bool)
    requires
        1 <= k < d,
        d <= MAX_SIZE_BOUND,
        total <= MAX_TOTAL_WEIGHT,
        w_after <= MAX_TOTAL_WEIGHT,
    ensures
        r == scale_fits(w_after as int, k as int, d as int, total as int),
{
    proof {
        lemma_mul_bound(d as int, d as int, MAX_SIZE_BOUND as int, MAX_SIZE_BOUND as int);
        lemma_mul_bound(
            w_after as int,
            (d as int) * (d as int),
            MAX_TOTAL_WEIGHT as int,
            (MAX_SIZE_BOUND as int) * (MAX_SIZE_BOUND as int),
        );
        lemma_mul_bound(k as int, k as int, MAX_SIZE_BOUND as int, MAX_SIZE_BOUND as int);
        lemma_mul_bound(
            2 * ((k as int) * (k as int)),
            total as int,
            2 * (MAX_SIZE_BOUND as int) * (MAX_SIZE_BOUND as int),
            MAX_TOTAL_WEIGHT as int,
        );
    }
    let dd: i128 = (d as i128) * (d as i128);
    let lhs: i128 = (w_after as i128) * dd;
    if 2 * k <= (d as u64) {
        let rhs: i128 = 2 * ((k as i128) * (k as i128)) * (total as i128);
        lhs <= rhs
    } else {
        let dk: i128 = (d as i128) - (k as i128);
        proof {
            lemma_mul_bound(
                (d as int) - (k as int),
                (d as int) - (k as int),
                MAX_SIZE_BOUND as int,
                MAX_SIZE_BOUND as int,
            );
            lemma_mul_bound(
                (d as int) * (d as int) - 2 * (((d as int) - (k as int)) * ((d as int) - (k
                    as int))),
                total as int,
                3 * (MAX_SIZE_BOUND as int) * (MAX_SIZE_BOUND as int),
                MAX_TOTAL_WEIGHT as int,
            );
        }
        let rhs: i128 = (dd - 2 * (dk * dk)) * (total as i128);
        lhs <= rhs
    }
}

/// One compression pass of the merge engine: scan the sorted list once,
/// keeping one open cluster, and close it whenever absorbing the next
/// centroid would carry the cluster past the current scale boundary. At most
/// `max_size` clusters come out, weight and sum are conserved exactly, and
/// the output stays sorted and inside the mean bracket `lo..hi`.
#[verifier::loop_isolation(false)]
pub(crate) fn compress(
    xs: &Vec<Centroid>,
    max_size: usize,
    total: u64,
    lo: Ghost<int>,
    hi: Ghost<int>,
) -> (out: Vec<Centroid>)
    requires
        1 <= max_size <= MAX_SIZE_BOUND,
        all_valid(xs@),
        sorted_by_mean(xs@),
        in_bounds(xs@, lo@, hi@),
        total_weight(xs@) == total as int,
        0 < total <= MAX_TOTAL_WEIGHT,
        1 <= xs@.len(),
    ensures
        all_valid(out@),
        sorted_by_mean(out@),
        in_bounds(out@, lo@, hi@),
        1 <= out@.len() <= max_size,
        total_weight(out@) == total as int,
        total_sum(out@) == total_sum(xs@),
{
    let mut out: Vec<Centroid> = Vec::new();
    let mut cur_sum: i128 = xs[0].sum;
    let mut cur_w: u64 = xs[0].weight;
    let mut w_out: u64 = 0;
    let mut k_limit: u64 = 1;
    let mut i: usize = 1;
    proof {
        lemma_totals_step(xs@, 0);
        assert(xs@.subrange(0, 0) =~= Seq::<Centroid>::empty());
        assert(mean_le(xs@[0], xs@[0]));
    }
    while i < xs.len()
        invariant
            1 <= i <= xs@.len(),
            1 <= cur_w,
            w_out as int + cur_w as int == total_weight(xs@.subrange(0, i as int)),
            total_weight(out@) == w_out as int,
            total_sum(out@) + cur_sum as int == total_sum(xs@.subrange(0, i as int)),
            out@.len() + 1 == k_limit,
            1 <= k_limit <= max_size,
            all_valid(out@),
            sorted_by_mean(out@),
            in_bounds(out@, lo@, hi@),
            lo@ * (cur_w as int) <= cur_sum as int,
            cur_sum as int <= hi@ * (cur_w as int),
            -((MAX_ABS_VALUE as int) * (cur_w as int)) <= cur_sum as int,
            cur_sum as int <= (MAX_ABS_VALUE as int) * (cur_w as int),
            forall|k: int|
                0 <= k < out@.len() ==> #[trigger] mean_le(
                    out@[k],
                    (Centroid { sum: cur_sum, weight: cur_w }),
                ),
            mean_le((Centroid { sum: cur_sum, weight: cur_w }), xs@[i - 1]),
        decreases xs@.len() - i,
    {
        let c = xs[i];
        proof {
            lemma_totals_step(xs@, i as int);
            crate::model::lemma_prefix_weights(xs@, i as int + 1);
        }
        let w_after: u64 = w_out + cur_w + c.weight;
        let ghost clu = Centroid { sum: cur_sum, weight: cur_w };
        if k_limit >= (max_size as u64) || cluster_fits(w_after, k_limit, max_size, total) {
            proof {
                assert(mean_le(xs@[i - 1], xs@[i as int]));
                lemma_frac_le_trans(
                    cur_sum as int,
                    cur_w as int,
                    xs@[i - 1].sum as int,
                    xs@[i - 1].weight as int,
                    c.sum as int,
                    c.weight as int,
                );
                lemma_cluster_extend(cur_sum as int, cur_w as int, c.sum as int, c.weight as int);
                lemma_bounds_add(
                    lo@,
                    hi@,
                    cur_sum as int,
                    cur_w as int,
                    c.sum as int,
                    c.weight as int,
                );
                lemma_bounds_add(
                    -(MAX_ABS_VALUE as int),
                    MAX_ABS_VALUE as int,
                    cur_sum as int,
                    cur_w as int,
                    c.sum as int,
                    c.weight as int,
                );
                let ghost nclu = Centroid {
                    sum: (cur_sum + c.sum) as i128,
                    weight: (cur_w + c.weight) as u64,
                };
                assert forall|k: int| 0 <= k < out@.len() implies #[trigger] mean_le(
                    out@[k],
                    nclu,
                ) by {
                    assert(mean_le(out@[k], clu));
                    lemma_frac_le_trans(
                        out@[k].sum as int,
                        out@[k].weight as int,
                        clu.sum as int,
                        clu.weight as int,
                        nclu.sum as int,
                        nclu.weight as int,
                    );
                }
            }
            cur_sum = cur_sum + c.sum;
            cur_w = cur_w + c.weight;
        } else {
            let closed = Centroid { sum: cur_sum, weight: cur_w };
            let ghost old_out = out@;
            proof {
                lemma_totals_push(out@, closed);
                assert(closed.valid());
            }
            out.push(closed);
            proof {
                assert(mean_le(xs@[i - 1], xs@[i as int]));
                lemma_frac_le_trans(
                    cur_sum as int,
                    cur_w as int,
                    xs@[i - 1].sum as int,
                    xs@[i - 1].weight as int,
                    c.sum as int,
                    c.weight as int,
                );
                assert(sorted_by_mean(out@)) by {
                    assert forall|k: int, l: int| 0 <= k <= l < out@.len() implies #[trigger] mean_le(
                        out@[k],
                        out@[l],
                    ) by {
                        if l < old_out.len() {
                            assert(mean_le(old_out[k], old_out[l]));
                        } else if k < old_out.len() {
                            assert(mean_le(old_out[k], clu));
                        } else {
                            assert(mean_le(clu, clu));
                        }
                    }
                }
                assert forall|k: int| 0 <= k < out@.len() implies #[trigger] mean_le(
                    out@[k],
                    (Centroid { sum: c.sum, weight: c.weight }),
                ) by {
                    if k < old_out.len() {
                        assert(mean_le(old_out[k], clu));
                        lemma_frac_le_trans(
                            old_out[k].sum as int,
                            old_out[k].weight as int,
                            clu.sum as int,
                            clu.weight as int,
                            c.sum as int,
                            c.weight as int,
                        );
                    } else {
                        assert(out@[k] == clu);
                    }
                }
                assert((Centroid { sum: c.sum, weight: c.weight }) == c);
                assert(mean_le(c, c));
            }
            w_out = w_out + cur_w;
            k_limit = k_limit + 1;
            cur_sum = c.sum;
            cur_w = c.weight;
        }
        i = i + 1;
    }
    let closed = Centroid { sum: cur_sum, weight: cur_w };
    let ghost old_out = out@;
    proof {
        lemma_totals_push(out@, closed);
        lemma_totals_full(xs@);
        assert(closed.valid());
    }
    out.push(closed);
    proof {
        assert(sorted_by_mean(out@)) by {
            assert forall|k: int, l: int| 0 <= k <= l < out@.len() implies #[trigger] mean_le(
                out@[k],
                out@[l],
            ) by {
                if l < old_out.len() {
                    assert(mean_le(old_out[k], old_out[l]));
                } else if k < old_out.len() {
                    assert(mean_le(old_out[k], closed));
                } else {
                    assert(mean_le(closed, closed));
                }
            }
        }
    }
    out
}

/// Total weight across a sequence of digests.
pub open spec fn counts_total(s: Seq<TDigest>) -> int
    decreases s.len(),
{
    if s.len() == 0 {
        0
    } else {
        counts_total(s.drop_last()) + s.last().count as int
    }
}

/// Total of the digests' sum statistics.
pub open spec fn sums_total(s: Seq<TDigest>) -> int
    decreases s.len(),
{
    if s.len() == 0 {
        0
    } else {
        sums_total(s.drop_last()) + s.last().sum as int
    }
}

/// The smaller of two optional bounds; an absent bound gives way.
pub open spec fn min_opt(a: Option<i64>, b: Option<i64>) -> Option<i64> {
    if a is None {
        b
    } else if b is None {
        a
    } else if a->Some_0 <= b->Some_0 {
        a
    } else {
        b
    }
}

/// The larger of two optional bounds; an absent bound gives way.
pub open spec fn max_opt(a: Option<i64>, b: Option<i64>) -> Option<i64> {
    if a is None {
        b
    } else if b is None {
        a
    } else if a->Some_0 >= b->Some_0 {
        a
    } else {
        b
    }
}

/// The smallest tracked minimum across a sequence of digests.
pub open spec fn mins_fold(s: Seq<TDigest>) -> Option<i64>
    decreases s.len(),
{
    if s.len() == 0 {
        None
    } else {
        min_opt(mins_fold(s.drop_last()), s.last().min)
    }
}

/// The largest tracked maximum across a sequence of digests.
pub open spec fn maxs_fold(s: Seq<TDigest>) -> Option<i64>
    decreases s.len(),
{
    if s.len() == 0 {
        None
    } else {
        max_opt(maxs_fold(s.drop_last()), s.last().max)
    }
}

/// Stepping the prefix of a digest sequence by one element.
proof fn lemma_digest_step(s: Seq<TDigest>, i: int)
    requires
        0 <= i < s.len(),
    ensures
        counts_total(s.subrange(0, i + 1)) == counts_total(s.subrange(0, i)) + s[i].count as int,
        sums_total(s.subrange(0, i + 1)) == sums_total(s.subrange(0, i)) + s[i].sum as int,
        mins_fold(s.subrange(0, i + 1)) == min_opt(mins_fold(s.subrange(0, i)), s[i].min),
        maxs_fold(s.subrange(0, i + 1)) == max_opt(maxs_fold(s.subrange(0, i)), s[i].max),
{
    assert(s.subrange(0, i + 1).drop_last() =~= s.subrange(0, i));
    assert(s.subrange(0, i + 1).last() == s[i]);
}

/// The full prefix of a digest sequence is the sequence itself.
proof fn lemma_digest_full(s: Seq<TDigest>)
    ensures
        counts_total(s.subrange(0, s.len() as int)) == counts_total(s),
        sums_total(s.subrange(0, s.len() as int)) == sums_total(s),
        mins_fold(s.subrange(0, s.len() as int)) == mins_fold(s),
        maxs_fold(s.subrange(0, s.len() as int)) == maxs_fold(s),
{
    assert(s.subrange(0, s.len() as int) =~= s);
}

/// Total weight of a digest sequence is never negative.
proof fn lemma_dcounts_nonneg(s: Seq<TDigest>)
    ensures
        counts_total(s) >= 0,
    decreases s.len(),
{
    if s.len() > 0 {
        lemma_dcounts_nonneg(s.drop_last());
    }
}

/// Every prefix of a digest sequence weighs between nothing and the whole.
proof fn lemma_dprefix_le(s: Seq<TDigest>, k: int)
    requires
        0 <= k <= s.len(),
    ensures
        0 <= counts_total(s.subrange(0, k)) <= counts_total(s),
    decreases s.len() - k,
{
    lemma_dcounts_nonneg(s.subrange(0, k));
    if k == s.len() {
        lemma_digest_full(s);
    } else {
        lemma_digest_step(s, k);
        lemma_dprefix_le(s, k + 1);
    }
}

/// The whole sequence weighs at least any one element.
proof fn lemma_delem(s: Seq<TDigest>, j: int)
    requires
        0 <= j < s.len(),
    ensures
        counts_total(s) >= s[j].count as int,
{
    lemma_dprefix_le(s, j + 1);
    lemma_digest_step(s, j);
    lemma_dprefix_le(s, j);
}

/// The whole sequence weighs at least any two distinct elements together.
proof fn lemma_dpair(s: Seq<TDigest>, i: int, j: int)
    requires
        0 <= i < j < s.len(),
    ensures
        counts_total(s) >= s[i].count as int + s[j].count as int,
{
    lemma_dprefix_le(s, j + 1);
    lemma_digest_step(s, j);
    assert(s.subrange(0, j)[i] == s[i]);
    lemma_delem(s.subrange(0, j), i);
}

/// A sequence of weightless digests weighs nothing.
proof fn lemma_counts_all_zero(s: Seq<TDigest>)
    requires
        forall|i: int| 0 <= i < s.len() ==> (#[trigger] s[i]).count == 0,
    ensures
        counts_total(s) == 0,
    decreases s.len(),
{
    if s.len() > 0 {
        assert(forall|i: int|
            0 <= i < s.drop_last().len() ==> (#[trigger] s.drop_last()[i]).count == 0);
        lemma_counts_all_zero(s.drop_last());
        assert(s[s.len() - 1].count == 0);
    }
}

/// When every sum but the `j`-th is zero, the total is the `j`-th.
proof fn lemma_sums_single(s: Seq<TDigest>, j: int)
    requires
        0 <= j < s.len(),
        forall|i: int| 0 <= i < s.len() && i != j ==> (#[trigger] s[i]).sum == 0,
    ensures
        sums_total(s) == s[j].sum as int,
    decreases s.len(),
{
    let dl = s.drop_last();
    if j == s.len() - 1 {
        assert(forall|i: int| 0 <= i < dl.len() ==> (#[trigger] dl[i]).sum == 0);
        lemma_sums_all_zero(dl);
    } else {
        assert(s[s.len() - 1].sum == 0);
        lemma_sums_single(dl, j);
    }
}

/// A sequence of zero sums totals zero.
proof fn lemma_sums_all_zero(s: Seq<TDigest>)
    requires
        forall|i: int| 0 <= i < s.len() ==> (#[trigger] s[i]).sum == 0,
    ensures
        sums_total(s) == 0,
    decreases s.len(),
{
    if s.len() > 0 {
        assert(forall|i: int| 0 <= i < s.drop_last().len() ==> (#[trigger] s.drop_last()[i]).sum
            == 0);
        lemma_sums_all_zero(s.drop_last());
        assert(s[s.len() - 1].sum == 0);
    }
}

/// Folding bounds over digests without bounds yields no bound.
proof fn lemma_folds_none(s: Seq<TDigest>)
    requires
        forall|i: int| 0 <= i < s.len() ==> (#[trigger] s[i]).min is None && s[i].max is None,
    ensures
        mins_fold(s) is None,
        maxs_fold(s) is None,
    decreases s.len(),
{
    if s.len() > 0 {
        assert(forall|i: int|
            0 <= i < s.drop_last().len() ==> (#[trigger] s.drop_last()[i]).min is None
                && s.drop_last()[i].max is None);
        lemma_folds_none(s.drop_last());
        assert(s[s.len() - 1].min is None);
    }
}

/// When only the `j`-th digest carries bounds, the folds are its bounds.
proof fn lemma_minmax_single(s: Seq<TDigest>, j: int)
    requires
        0 <= j < s.len(),
        forall|i: int|
            0 <= i < s.len() && i != j ==> (#[trigger] s[i]).min is None && s[i].max is None,
    ensures
        mins_fold(s) == s[j].min,
        maxs_fold(s) == s[j].max,
    decreases s.len(),
{
    let dl = s.drop_last();
    if j == s.len() - 1 {
        assert(forall|i: int|
            0 <= i < dl.len() ==> (#[trigger] dl[i]).min is None && dl[i].max is None);
        lemma_folds_none(dl);
    } else {
        assert(s[s.len() - 1].min is None);
        lemma_minmax_single(dl, j);
    }
}

/// The fold is a lower bound on every tracked minimum present.
proof fn lemma_mins_le(s: Seq<TDigest>, j: int)
    requires
        0 <= j < s.len(),
        s[j].min is Some,
    ensures
        mins_fold(s) is Some,
        mins_fold(s)->Some_0 <= s[j].min->Some_0,
    decreases s.len(),
{
    let dl = s.drop_last();
    if j < s.len() - 1 {
        assert(dl[j] == s[j]);
        lemma_mins_le(dl, j);
    }
}

/// The fold is an upper bound on every tracked maximum present.
proof fn lemma_maxs_ge(s: Seq<TDigest>, j: int)
    requires
        0 <= j < s.len(),
        s[j].max is Some,
    ensures
        maxs_fold(s) is Some,
        maxs_fold(s)->Some_0 >= s[j].max->Some_0,
    decreases s.len(),
{
    let dl = s.drop_last();
    if j < s.len() - 1 {
        assert(dl[j] == s[j]);
        lemma_maxs_ge(dl, j);
    }
}

/// A present fold is the tracked bound of some digest in the sequence.
proof fn lemma_folds_witness(s: Seq<TDigest>)
    requires
        s.len() > 0,
    ensures
        mins_fold(s) is Some ==> exists|i: int|
            0 <= i < s.len() && (#[trigger] s[i]).min == mins_fold(s),
        maxs_fold(s) is Some ==> exists|i: int|
            0 <= i < s.len() && (#[trigger] s[i]).max == maxs_fold(s),
    decreases s.len(),
{
    let dl = s.drop_last();
    if dl.len() > 0 {
        lemma_folds_witness(dl);
        if mins_fold(s) is Some {
            if mins_fold(s) == s[s.len() - 1].min {
                assert(s[s.len() - 1].min == mins_fold(s));
            } else {
                assert(mins_fold(s) == mins_fold(dl));
                let i = choose|i: int| 0 <= i < dl.len() && (#[trigger] dl[i]).min == mins_fold(dl);
                assert(s[i].min == mins_fold(s));
            }
        }
        if maxs_fold(s) is Some {
            if maxs_fold(s) == s[s.len() - 1].max {
                assert(s[s.len() - 1].max == maxs_fold(s));
            } else {
                assert(maxs_fold(s) == maxs_fold(dl));
                let i = choose|i: int| 0 <= i < dl.len() && (#[trigger] dl[i]).max == maxs_fold(dl);
                assert(s[i].max == maxs_fold(s));
            }
        }
    } else {
        if mins_fold(s) is Some {
            assert(s[0].min == mins_fold(s));
        }
        if maxs_fold(s) is Some {
            assert(s[0].max == maxs_fold(s));
        }
    }
}

/// The smaller of two optional bounds, at runtime.
fn min_opt_exec(a: Option<i64>, b: Option<i64>) -> (r: Option<i64>)
    ensures
        r == min_opt(a, b),
{
    match a {
        None => b,
        Some(x) => match b {
            None => Some(x),
            Some(y) => if x <= y {
                Some(x)
            } else {
                Some(y)
            },
        },
    }
}

impl TDigest {
    /// Combines any number of digests into one whose size bound is the first
    /// input's. Weight, sum and extrema are conserved exactly; when a single
    /// digest carries all the weight and already fits the bound, it comes
    /// back unchanged, so merging with empty digests is the identity.
    #[verifier::loop_isolation(false)]
    #[verifier::rlimit(30)]
    pub fn merge_digests(digests: Vec<TDigest>) -> (r: TDigest)
        requires
            forall|i: int| 0 <= i < digests@.len() ==> (#[trigger] digests@[i]).wf(),
            counts_total(digests@) <= MAX_TOTAL_WEIGHT,
        ensures
            r.wf(),
            r.count as int == counts_total(digests@),
            r.sum as int == sums_total(digests@),
            r.min == mins_fold(digests@),
            r.max == maxs_fold(digests@),
            digests@.len() == 0 ==> r.max_size == crate::DEFAULT_MAX_SIZE,
            digests@.len() > 0 && counts_total(digests@) == 0 ==> r.max_size == digests@[0].max_size,
            counts_total(digests@) > 0 ==> r.max_size == digests@[0].max_size || exists|j: int|
                0 <= j < digests@.len() && (#[trigger] digests@[j]).count as int == counts_total(
                    digests@,
                ) && r == digests@[j],
            forall|j: int|
                0 <= j < digests@.len() && (#[trigger] digests@[j]).count > 0 && digests@[j].count
                    as int == counts_total(digests@) && digests@[j].centroids@.len()
                    <= digests@[0].max_size ==> r == digests@[j],
    {
        if digests.len() == 0 {
            return TDigest::new_with_size(crate::DEFAULT_MAX_SIZE);
        }
        let msize: usize = digests[0].max_size;
        let ghost ds = digests@;
        let mut total: u64 = 0;
        let mut fsum: i128 = 0;
        let mut gmin: Option<i64> = None;
        let mut gmax: Option<i64> = None;
        let mut first_ne: usize = digests.len();
        let mut idx: usize = 0;
        while idx < digests.len()
            invariant
                idx <= ds.len(),
                total as int == counts_total(ds.subrange(0, idx as int)),
                fsum as int == sums_total(ds.subrange(0, idx as int)),
                gmin == mins_fold(ds.subrange(0, idx as int)),
                gmax == maxs_fold(ds.subrange(0, idx as int)),
                -((MAX_ABS_VALUE as int) * (total as int)) <= fsum as int,
                fsum as int <= (MAX_ABS_VALUE as int) * (total as int),
                first_ne == ds.len() || (first_ne < idx && ds[first_ne as int].count > 0),
                forall|t: int| 0 <= t < idx && t < first_ne ==> ds[t].count == 0,
            decreases ds.len() - idx,
        {
            proof {
                lemma_digest_step(ds, idx as int);
                lemma_dprefix_le(ds, idx as int + 1);
                assert(ds.subrange(0, idx as int + 1) =~= ds.subrange(0, idx as int).push(
                    ds[idx as int],
                ));
            }
            total = total + digests[idx].count;
            fsum = fsum + digests[idx].sum;
            gmin = min_opt_exec(gmin, digests[idx].min);
            gmax = max_opt_exec(gmax, digests[idx].max);
            if digests[idx].count > 0 && first_ne == digests.len() {
                first_ne = idx;
            }
            idx = idx + 1;
        }
        proof {
            lemma_digest_full(ds);
        }
        if total == 0 {
            proof {
                assert forall|t: int| 0 <= t < ds.len() implies (#[trigger] ds[t]).min is None
                    && ds[t].max is None by {
                    lemma_delem(ds, t);
                    lemma_dcounts_nonneg(ds.subrange(0, t));
                    assert(ds[t].count == 0);
                    assert(ds[t].wf());
                }
                lemma_folds_none(ds);
            }
            return TDigest {
                centroids: Vec::new(),
                max_size: msize,
                sum: 0,
                count: 0,
                max: None,
                min: None,
            };
        }
        proof {
            if first_ne == ds.len() {
                lemma_counts_all_zero(ds);
            }
        }
        if digests[first_ne].count == total && digests[first_ne].centroids.len() <= msize {
            let ghost fj = first_ne as int;
            proof {
                assert forall|t: int| 0 <= t < ds.len() && t != fj implies (#[trigger] ds[t]).count
                    == 0 by {
                    if t > fj {
                        lemma_dpair(ds, fj, t);
                    }
                }
                assert forall|t: int| 0 <= t < ds.len() && t != fj implies (#[trigger] ds[t]).sum
                    == 0 && ds[t].min is None && ds[t].max is None by {
                    assert(ds[t].wf());
                }
                lemma_sums_single(ds, fj);
                lemma_minmax_single(ds, fj);
            }
            let mut digests = digests;
            let d = digests.remove(first_ne);
            proof {
                assert forall|j: int|
                    0 <= j < ds.len() && (#[trigger] ds[j]).count > 0 && ds[j].count as int
                        == counts_total(ds) && ds[j].centroids@.len() <= ds[0].max_size implies d
                    == ds[j] by {
                    if j < fj {
                        assert(ds[j].count == 0);
                    } else if j > fj {
                        lemma_dpair(ds, fj, j);
                    }
                }
            }
            return d;
        }
        // General path: flatten, merge pairwise, then compress once.
        let lo_v: i64 = match gmin {
            Some(m) => m,
            None => {
                proof {
                    assert(ds[first_ne as int].wf());
                    lemma_mins_le(ds, first_ne as int);
                }
                0
            },
        };
        let hi_v: i64 = match gmax {
            Some(m) => m,
            None => {
                proof {
                    assert(ds[first_ne as int].wf());
                    lemma_maxs_ge(ds, first_ne as int);
                }
                0
            },
        };
        proof {
            lemma_folds_witness(ds);
            let wi = choose|i: int| 0 <= i < ds.len() && (#[trigger] ds[i]).min == mins_fold(ds);
            assert(ds[wi].wf());
            lemma_maxs_ge(ds, wi);
            let wa = choose|i: int| 0 <= i < ds.len() && (#[trigger] ds[i]).max == maxs_fold(ds);
            assert(ds[wa].wf());
        }
        let mut merged: Vec<Centroid> = Vec::new();
        let mut idx2: usize = 0;
        while idx2 < digests.len()
            invariant
                idx2 <= ds.len(),
                all_valid(merged@),
                sorted_by_mean(merged@),
                in_bounds(merged@, lo_v as int, hi_v as int),
                total_weight(merged@) == counts_total(ds.subrange(0, idx2 as int)),
            decreases ds.len() - idx2,
        {
            proof {
                lemma_digest_step(ds, idx2 as int);
                assert(ds[idx2 as int].wf());
                if ds[idx2 as int].count > 0 {
                    lemma_mins_le(ds, idx2 as int);
                    lemma_maxs_ge(ds, idx2 as int);
                }
                assert forall|e: int| 0 <= e < ds[idx2 as int].centroids@.len() implies {
                    &&& (lo_v as int) * ((#[trigger] ds[idx2 as int].centroids@[e]).weight as int)
                        <= ds[idx2 as int].centroids@[e].sum as int
                    &&& ds[idx2 as int].centroids@[e].sum as int <= (hi_v as int) * (ds[idx2
                        as int].centroids@[e].weight as int)
                } by {
                    let c = ds[idx2 as int].centroids@[e];
                    let dmn = ds[idx2 as int].min->Some_0 as int;
                    let dmx = ds[idx2 as int].max->Some_0 as int;
                    crate::model::lemma_scale_le(lo_v as int, dmn, c.weight as int);
                    crate::model::lemma_scale_le(dmx, hi_v as int, c.weight as int);
                }
            }
            merged = merge_two(&merged, &digests[idx2].centroids, Ghost(lo_v as int), Ghost(
                hi_v as int,
            ));
            idx2 = idx2 + 1;
        }
        proof {
            lemma_digest_full(ds);
            if merged@.len() == 0 {
                assert(total_weight(merged@) == 0);
            }
        }
        let compressed = compress(&merged, msize, total, Ghost(lo_v as int), Ghost(hi_v as int));
        proof {
            assert forall|j: int|
                0 <= j < ds.len() && (#[trigger] ds[j]).count > 0 && ds[j].count as int
                    == counts_total(ds) && ds[j].centroids@.len() <= ds[0].max_size implies false by {
                if j < first_ne {
                    assert(ds[j].count == 0);
                } else if j > first_ne {
                    lemma_dpair(ds, first_ne as int, j);
                }
            }
        }
        TDigest {
            centroids: compressed,
            max_size: msize,
            sum: fsum,
            count: total,
            max: gmax,
            min: gmin,
        }
    }

    /// Merges a sorted batch of unit-weight observations into the digest,
    /// returning the new digest. Weight grows by the number of observations,
    /// the sum by their total, and the extrema take the batch into account;
    /// an empty batch gives the digest back unchanged.
    #[verifier::loop_isolation(false)]
    #[verifier::rlimit(30)]
    pub fn merge_sorted(&self, values: &Vec<i64>) -> (r: TDigest)
        requires
            self.wf(),
            forall|i: int|
                0 <= i < values@.len() ==> -MAX_ABS_VALUE <= #[trigger] values@[i] <= MAX_ABS_VALUE,
            forall|i: int, j: int|
                #![trigger values@[i], values@[j]]
                0 <= i <= j < values@.len() ==> values@[i] <= values@[j],
            self.count as int + values@.len() <= MAX_TOTAL_WEIGHT,
        ensures
            r.wf(),
            r.max_size == self.max_size,
            r.count as int == self.count as int + values@.len(),
            r.sum as int == self.sum as int + seq_int_sum(values@),
            values@.len() == 0 ==> r.centroids@ == self.centroids@ && r.min == self.min && r.max
                == self.max,
            values@.len() > 0 ==> r.min == min_opt(self.min, Some(values@[0])) && r.max == max_opt(
                self.max,
                Some(values@[values@.len() - 1]),
            ),
    {
        if values.len() == 0 {
            let mut cs: Vec<Centroid> = Vec::new();
            let mut k: usize = 0;
            while k < self.centroids.len()
                invariant
                    k <= self.centroids@.len(),
                    cs@ == self.centroids@.subrange(0, k as int),
                decreases self.centroids@.len() - k,
            {
                proof {
                    assert(self.centroids@.subrange(0, k as int + 1) =~= self.centroids@.subrange(
                        0,
                        k as int,
                    ).push(self.centroids@[k as int]));
                }
                cs.push(self.centroids[k]);
                k = k + 1;
            }
            proof {
                assert(cs@ =~= self.centroids@);
            }
            return TDigest {
                centroids: cs,
                max_size: self.max_size,
                sum: self.sum,
                count: self.count,
                max: self.max,
                min: self.min,
            };
        }
        let v0: i64 = values[0];
        let vl: i64 = values[values.len() - 1];
        let new_min: i64 = match self.min {
            None => v0,
            Some(m) => if m <= v0 {
                m
            } else {
                v0
            },
        };
        let new_max: i64 = match self.max {
            None => vl,
            Some(m) => if m >= vl {
                m
            } else {
                vl
            },
        };
        let mut units: Vec<Centroid> = Vec::new();
        let mut k: usize = 0;
        while k < values.len()
            invariant
                k <= values@.len(),
                units@.len() == k,
                forall|t: int|
                    0 <= t < k ==> #[trigger] units@[t] == (Centroid {
                        sum: values@[t] as i128,
                        weight: 1u64,
                    }),
                total_weight(units@) == k as int,
                total_sum(units@) == seq_int_sum(values@.subrange(0, k as int)),
            decreases values@.len() - k,
        {
            let c = Centroid { sum: values[k] as i128, weight: 1u64 };
            proof {
                lemma_totals_push(units@, c);
                crate::model::lemma_int_sum_step(values@, k as int);
            }
            units.push(c);
            k = k + 1;
        }
        proof {
            crate::model::lemma_int_sum_full(values@);
            assert(all_valid(units@)) by {
                assert forall|t: int| 0 <= t < units@.len() implies (#[trigger] units@[t]).valid()
                by {
                    assert(units@[t].sum == values@[t] as i128);
                }
            }
            assert(sorted_by_mean(units@)) by {
                assert forall|i: int, j: int| 0 <= i <= j < units@.len() implies #[trigger] mean_le(
                    units@[i],
                    units@[j],
                ) by {
                    assert(values@[i] <= values@[j]);
                    assert(units@[i] == (Centroid { sum: values@[i] as i128, weight: 1u64 }));
                    assert(units@[j] == (Centroid { sum: values@[j] as i128, weight: 1u64 }));
                    crate::model::lemma_mul_one(units@[i].sum as int);
                    crate::model::lemma_mul_one(units@[j].sum as int);
                }
            }
            assert(in_bounds(units@, new_min as int, new_max as int)) by {
                assert forall|t: int| 0 <= t < units@.len() implies {
                    &&& (new_min as int) * ((#[trigger] units@[t]).weight as int)
                        <= units@[t].sum as int
                    &&& units@[t].sum as int <= (new_max as int) * (units@[t].weight as int)
                } by {
                    assert(values@[0] <= values@[t]);
                    assert(values@[t] <= values@[values@.len() - 1]);
                    assert(units@[t] == (Centroid { sum: values@[t] as i128, weight: 1u64 }));
                    crate::model::lemma_mul_one(new_min as int);
                    crate::model::lemma_mul_one(new_max as int);
                }
            }
            if self.count > 0 {
                assert forall|e: int| 0 <= e < self.centroids@.len() implies {
                    &&& (new_min as int) * ((#[trigger] self.centroids@[e]).weight as int)
                        <= self.centroids@[e].sum as int
                    &&& self.centroids@[e].sum as int <= (new_max as int) * (self.centroids@[
                        e
                    ].weight as int)
                } by {
                    let c = self.centroids@[e];
                    crate::model::lemma_scale_le(
                        new_min as int,
                        self.min->Some_0 as int,
                        c.weight as int,
                    );
                    crate::model::lemma_scale_le(
                        self.max->Some_0 as int,
                        new_max as int,
                        c.weight as int,
                    );
                }
            }
        }
        let merged = merge_two(&self.centroids, &units, Ghost(new_min as int), Ghost(
            new_max as int,
        ));
        let total: u64 = self.count + (values.len() as u64);
        proof {
            if merged@.len() == 0 {
                assert(total_weight(merged@) == 0);
            }
        }
        let compressed = compress(&merged, self.max_size, total, Ghost(new_min as int), Ghost(
            new_max as int,
        ));
        let mut acc: i128 = 0;
        let mut t: usize = 0;
        while t < values.len()
            invariant
                t <= values@.len(),
                acc as int == seq_int_sum(values@.subrange(0, t as int)),
                -((MAX_ABS_VALUE as int) * (t as int)) <= acc as int,
                acc as int <= (MAX_ABS_VALUE as int) * (t as int),
            decreases values@.len() - t,
        {
            proof {
                crate::model::lemma_int_sum_step(values@, t as int);
            }
            acc = acc + (values[t] as i128);
            t = t + 1;
        }
        proof {
            crate::model::lemma_int_sum_full(values@);
        }
        TDigest {
            centroids: compressed,
            max_size: self.max_size,
            sum: self.sum + acc,
            count: total,
            max: Some(new_max),
            min: Some(new_min),
        }
    }
}

/// The larger of two optional bounds, at runtime.
fn max_opt_exec(a: Option<i64>, b: Option<i64>) -> (r: Option<i64>)
    ensures
        r == max_opt(a, b),
{
    match a {
        None => b,
        Some(x) => match b {
            None => Some(x),
            Some(y) => if x >= y {
                Some(x)
            } else {
                Some(y)
            },
        },
    }
}

} // verus!
