use vstd::prelude::*;

use crate::centroid::Centroid;

verus! {

/// The mean of `a` is at most the mean of `b`: `a.sum / a.weight <=
/// b.sum / b.weight`, stated over cross products so that it is meaningful
/// for any positive weights.
pub open spec fn mean_le(a: Centroid, b: Centroid) -> bool {
    (a.sum as int) * (b.weight as int) <= (b.sum as int) * (a.weight as int)
}

/// The sequence is non-decreasing by mean.
pub open spec fn sorted_by_mean(s: Seq<Centroid>) -> bool {
    forall|i: int, j: int| 0 <= i <= j < s.len() ==> #[trigger] mean_le(s[i], s[j])
}

/// Every centroid of the sequence is well formed.
pub open spec fn all_valid(s: Seq<Centroid>) -> bool {
    forall|i: int| 0 <= i < s.len() ==> (#[trigger] s[i]).valid()
}

/// Total weight of the sequence.
pub open spec fn total_weight(s: Seq<Centroid>) -> int
    decreases s.len(),
{
    if s.len() == 0 {
        0
    } else {
        total_weight(s.drop_last()) + s.last().weight as int
    }
}

/// Total of the weighted sums of the sequence.
pub open spec fn total_sum(s: Seq<Centroid>) -> int
    decreases s.len(),
{
    if s.len() == 0 {
        0
    } else {
        total_sum(s.drop_last()) + s.last().sum as int
    }
}

/// Every mean of the sequence lies between `lo` and `hi`.
pub open spec fn in_bounds(s: Seq<Centroid>, lo: int, hi: int) -> bool {
    forall|i: int| 0 <= i < s.len() ==> {
        &&& lo * ((#[trigger] s[i]).weight as int) <= s[i].sum as int
        &&& s[i].sum as int <= hi * (s[i].weight as int)
    }
}

/// `|a * b| <= aa * bb` whenever `|a| <= aa` and `|b| <= bb`.
pub proof fn lemma_mul_bound(a: int, b: int, aa: int, bb: int)
    by (nonlinear_arith)
    requires
        -aa <= a <= aa,
        -bb <= b <= bb,
        0 <= aa,
        0 <= bb,
    ensures
        -(aa * bb) <= a * b <= aa * bb,
{
}

/// Multiplying both sides of `a <= b` by a non-negative `w` keeps the order.
pub proof fn lemma_scale_le(a: int, b: int, w: int)
    by (nonlinear_arith)
    requires
        a <= b,
        0 <= w,
    ensures
        a * w <= b * w,
{
}

/// A value of magnitude at most `v` scaled by a non-negative weight stays
/// within `v` times that weight.
pub proof fn lemma_abs_scale(m: int, v: int, w: int)
    by (nonlinear_arith)
    requires
        -v <= m <= v,
        0 <= w,
    ensures
        (-v) * w <= m * w <= v * w,
{
}

/// A weighted sum bounded by `v` times its weight is bounded by `v` times
/// any larger weight.
pub proof fn lemma_sum_range(s: int, w: int, v: int, wcap: int)
    by (nonlinear_arith)
    requires
        (-v) * w <= s <= v * w,
        0 <= w <= wcap,
        0 <= v,
    ensures
        (-v) * wcap <= s <= v * wcap,
{
}

/// Absorbing one bounded value into a bounded weighted sum keeps the sum
/// bounded by the grown weight.
pub proof fn lemma_valid_add_value(sum: int, w: int, value: int, wt: int, v: int)
    by (nonlinear_arith)
    requires
        (-v) * w <= sum <= v * w,
        -v <= value <= v,
        0 < wt,
        0 <= v,
    ensures
        (-v) * (w + wt) <= sum + value <= v * (w + wt),
{
}

/// Transitivity of the mean order on fractions with positive denominators.
pub proof fn lemma_frac_le_trans(s1: int, w1: int, s2: int, w2: int, s3: int, w3: int)
    by (nonlinear_arith)
    requires
        0 < w1,
        0 < w2,
        0 < w3,
        s1 * w2 <= s2 * w1,
        s2 * w3 <= s3 * w2,
    ensures
        s1 * w3 <= s3 * w1,
{
}

/// Absorbing a centroid whose mean is at least the mean of an open cluster
/// moves the cluster mean up, but not past the absorbed mean.
pub proof fn lemma_cluster_extend(sc: int, wc: int, s: int, w: int)
    by (nonlinear_arith)
    requires
        0 < wc,
        0 < w,
        sc * w <= s * wc,
    ensures
        (sc + s) * w <= s * (wc + w),
        sc * (wc + w) <= (sc + s) * wc,
{
}

/// A combination of two weighted sums bounded by the same pair of means is
/// bounded by them as well.
pub proof fn lemma_bounds_add(lo: int, hi: int, s1: int, w1: int, s2: int, w2: int)
    by (nonlinear_arith)
    requires
        lo * w1 <= s1 <= hi * w1,
        lo * w2 <= s2 <= hi * w2,
    ensures
        lo * (w1 + w2) <= s1 + s2 <= hi * (w1 + w2),
{
}

/// Stepping the prefix of a sequence by one element grows the prefix totals
/// by exactly that element's fields.
pub proof fn lemma_totals_step(s: Seq<Centroid>, i: int)
    requires
        0 <= i < s.len(),
    ensures
        total_weight(s.subrange(0, i + 1)) == total_weight(s.subrange(0, i)) + s[i].weight as int,
        total_sum(s.subrange(0, i + 1)) == total_sum(s.subrange(0, i)) + s[i].sum as int,
{
    assert(s.subrange(0, i + 1).drop_last() =~= s.subrange(0, i));
    assert(s.subrange(0, i + 1).last() == s[i]);
}

/// The full prefix of a sequence is the sequence itself.
pub proof fn lemma_totals_full(s: Seq<Centroid>)
    ensures
        total_weight(s.subrange(0, s.len() as int)) == total_weight(s),
        total_sum(s.subrange(0, s.len() as int)) == total_sum(s),
{
    assert(s.subrange(0, s.len() as int) =~= s);
}

/// Appending one element grows the totals by that element's fields.
pub proof fn lemma_totals_push(s: Seq<Centroid>, c: Centroid)
    ensures
        total_weight(s.push(c)) == total_weight(s) + c.weight as int,
        total_sum(s.push(c)) == total_sum(s) + c.sum as int,
{
    assert(s.push(c).drop_last() =~= s);
    assert(s.push(c).last() == c);
}

/// Chains the adjacent mean order from `i` up to `j`.
proof fn lemma_mean_chain(s: Seq<Centroid>, i: int, j: int)
    requires
        all_valid(s),
        forall|k: int| 0 < k < s.len() ==> mean_le(s[k - 1], #[trigger] s[k]),
        0 <= i <= j < s.len(),
    ensures
        mean_le(s[i], s[j]),
    decreases j - i,
{
    if i < j {
        lemma_mean_chain(s, i, j - 1);
        assert(mean_le(s[j - 1], s[j]));
        lemma_frac_le_trans(
            s[i].sum as int,
            s[i].weight as int,
            s[j - 1].sum as int,
            s[j - 1].weight as int,
            s[j].sum as int,
            s[j].weight as int,
        );
    }
}

/// A list whose adjacent pairs are ordered by mean is sorted throughout.
pub proof fn lemma_sorted_from_adjacent(s: Seq<Centroid>)
    requires
        all_valid(s),
        forall|k: int| 0 < k < s.len() ==> mean_le(s[k - 1], #[trigger] s[k]),
    ensures
        sorted_by_mean(s),
{
    assert forall|i: int, j: int| 0 <= i <= j < s.len() implies #[trigger] mean_le(s[i], s[j]) by {
        lemma_mean_chain(s, i, j);
    }
}

/// A sequence of well-formed centroids weighs at least its length.
pub proof fn lemma_total_weight_ge_len(s: Seq<Centroid>)
    requires
        all_valid(s),
    ensures
        total_weight(s) >= s.len(),
    decreases s.len(),
{
    if s.len() > 0 {
        assert(all_valid(s.drop_last()));
        lemma_total_weight_ge_len(s.drop_last());
        assert(s.last().valid());
    }
}

/// Every prefix of a well-formed sequence weighs between nothing and the
/// whole sequence.
pub proof fn lemma_prefix_weights(s: Seq<Centroid>, k: int)
    requires
        all_valid(s),
        0 <= k <= s.len(),
    ensures
        0 <= total_weight(s.subrange(0, k)) <= total_weight(s),
    decreases s.len() - k,
{
    assert(all_valid(s.subrange(0, k))) by {
        assert forall|i: int| 0 <= i < k implies (#[trigger] s.subrange(0, k)[i]).valid() by {
            assert(s.subrange(0, k)[i] == s[i]);
        }
    }
    lemma_total_weight_ge_len(s.subrange(0, k));
    if k == s.len() {
        lemma_totals_full(s);
    } else {
        lemma_totals_step(s, k);
        assert(s[k].valid());
        lemma_prefix_weights(s, k + 1);
    }
}

/// Multiplying by one changes nothing.
pub proof fn lemma_mul_one(a: int)
    by (nonlinear_arith)
    ensures
        a * 1 == a,
        1 * a == a,
{
}

/// A product of positives is positive.
pub proof fn lemma_mul_pos(a: int, b: int)
    by (nonlinear_arith)
    requires
        0 < a,
        0 < b,
    ensures
        0 < a * b,
{
}

/// Scaling by a positive factor can be cancelled in a strict order.
pub proof fn lemma_cancel_lt(a: int, b: int, c: int)
    by (nonlinear_arith)
    requires
        0 < c,
        a * c < b * c,
    ensures
        a < b,
{
}

/// Multiplication distributes over subtraction.
pub proof fn lemma_sub_distrib(a: int, b: int, c: int)
    by (nonlinear_arith)
    ensures
        (a - b) * c == a * c - b * c,
{
}

/// A value lying strictly between two fractions separates them strictly.
pub proof fn lemma_between_fracs(a: int, b: int, c: int, dd: int, v: int)
    by (nonlinear_arith)
    requires
        0 < b,
        0 < dd,
        a <= v * b,
        v * dd < c,
    ensures
        a * dd < c * b,
{
}

/// Total of a sequence of whole-number observations.
pub open spec fn seq_int_sum(s: Seq<i64>) -> int
    decreases s.len(),
{
    if s.len() == 0 {
        0
    } else {
        seq_int_sum(s.drop_last()) + s.last() as int
    }
}

/// Stepping the prefix of an observation sequence by one element.
pub proof fn lemma_int_sum_step(s: Seq<i64>, i: int)
    requires
        0 <= i < s.len(),
    ensures
        seq_int_sum(s.subrange(0, i + 1)) == seq_int_sum(s.subrange(0, i)) + s[i] as int,
{
    assert(s.subrange(0, i + 1).drop_last() =~= s.subrange(0, i));
    assert(s.subrange(0, i + 1).last() == s[i]);
}

/// The full prefix of an observation sequence is the sequence itself.
pub proof fn lemma_int_sum_full(s: Seq<i64>)
    ensures
        seq_int_sum(s.subrange(0, s.len() as int)) == seq_int_sum(s),
{
    assert(s.subrange(0, s.len() as int) =~= s);
}

} // verus!
