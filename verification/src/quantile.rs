use vstd::prelude::*;

use crate::centroid::Centroid;
use crate::digest::TDigest;
use crate::model::{
    lemma_between_fracs, lemma_cancel_lt, lemma_mul_bound, lemma_mul_pos, lemma_prefix_weights,
    lemma_sub_distrib, lemma_sum_range, lemma_totals_full, lemma_totals_step, total_weight,
};
use crate::ratio::Ratio;
use crate::TdError;
use crate::{MAX_ABS_VALUE, MAX_Q_DEN, MAX_TOTAL_WEIGHT};

verus! {

/// Interpolation nodes of a digest, in doubled-rank units so that all
/// positions stay whole numbers: node `0` sits at rank `0` (the tracked
/// minimum), node `i` for a centroid sits at its cumulative-weight midpoint
/// `2 * (weight before) + weight`, and the last node sits at twice the total
/// weight (the tracked maximum). Weights are positive, so positions strictly
/// increase.
pub open spec fn node_pos(s: Seq<Centroid>, i: int) -> int {
    if i <= 0 {
        0
    } else if i <= s.len() {
        2 * total_weight(s.subrange(0, i - 1)) + s[i - 1].weight as int
    } else {
        2 * total_weight(s)
    }
}

/// Numerator of the value at a node: the minimum, a centroid's sum, or the
/// maximum.
pub open spec fn node_num(d: TDigest, i: int) -> int {
    if i <= 0 {
        d.min->Some_0 as int
    } else if i <= d.centroids@.len() {
        d.centroids@[i - 1].sum as int
    } else {
        d.max->Some_0 as int
    }
}

/// Denominator of the value at a node: `1` at the extremes, the centroid's
/// weight in between.
pub open spec fn node_den(d: TDigest, i: int) -> int {
    if 1 <= i <= d.centroids@.len() {
        d.centroids@[i - 1].weight as int
    } else {
        1
    }
}

/// The target rank `2 * count * (qn/qd)` falls in the half-open span between
/// nodes `ip - 1` and `ip`.
pub open spec fn seg_at(d: TDigest, qn: int, qd: int, ip: int) -> bool {
    &&& node_pos(d.centroids@, ip - 1) * qd < 2 * (d.count as int) * qn
    &&& 2 * (d.count as int) * qn <= node_pos(d.centroids@, ip) * qd
}

/// Numerator of the exact linear interpolation of the node values at the
/// target rank inside segment `ip`.
pub open spec fn interp_num(d: TDigest, qn: int, qd: int, ip: int) -> int {
    let a = node_num(d, ip - 1);
    let b = node_den(d, ip - 1);
    let c = node_num(d, ip);
    let e = node_den(d, ip);
    let plo = node_pos(d.centroids@, ip - 1);
    let phi = node_pos(d.centroids@, ip);
    let tn = 2 * (d.count as int) * qn - plo * qd;
    let td = (phi - plo) * qd;
    a * e * td + (c * b - a * e) * tn
}

/// Denominator of the interpolation in segment `ip`.
pub open spec fn interp_den(d: TDigest, qn: int, qd: int, ip: int) -> int {
    let b = node_den(d, ip - 1);
    let e = node_den(d, ip);
    let plo = node_pos(d.centroids@, ip - 1);
    let phi = node_pos(d.centroids@, ip);
    b * e * ((phi - plo) * qd)
}

/// What `quantile` returns on a non-empty digest: the exact extremum at the
/// ends of the range, and otherwise the exact interpolation in the unique
/// segment whose rank span holds the target.
pub open spec fn quantile_post(d: TDigest, qn: u64, qd: u64, r: Ratio) -> bool {
    if qn == 0 {
        r.num == d.min->Some_0 as int && r.den == 1
    } else if qn == qd {
        r.num == d.max->Some_0 as int && r.den == 1
    } else {
        exists|ip: int|
            1 <= ip <= d.centroids@.len() + 1 && #[trigger] seg_at(d, qn as int, qd as int, ip)
                && r.num == interp_num(d, qn as int, qd as int, ip) && r.den == interp_den(
                d,
                qn as int,
                qd as int,
                ip,
            )
    }
}

/// The value `v` falls in the half-open value span between nodes `ip - 1`
/// and `ip`.
pub open spec fn rank_seg_at(d: TDigest, v: int, ip: int) -> bool {
    &&& node_num(d, ip - 1) <= v * node_den(d, ip - 1)
    &&& v * node_den(d, ip) < node_num(d, ip)
}

/// Numerator of the exact rank interpolation of `v` inside segment `ip`.
pub open spec fn rank_num(d: TDigest, v: int, ip: int) -> int {
    let a = node_num(d, ip - 1);
    let b = node_den(d, ip - 1);
    let c = node_num(d, ip);
    let e = node_den(d, ip);
    let plo = node_pos(d.centroids@, ip - 1);
    let phi = node_pos(d.centroids@, ip);
    plo * (c * b - a * e) + (phi - plo) * ((v * b - a) * e)
}

/// Denominator of the rank interpolation inside segment `ip`.
pub open spec fn rank_den(d: TDigest, v: int, ip: int) -> int {
    let a = node_num(d, ip - 1);
    let b = node_den(d, ip - 1);
    let c = node_num(d, ip);
    let e = node_den(d, ip);
    2 * (d.count as int) * (c * b - a * e)
}

/// What `rank` returns on a non-empty digest: `0` at or below the minimum,
/// `1` at or above the maximum, and otherwise the exact interpolated rank.
pub open spec fn rank_post(d: TDigest, v: i64, r: Ratio) -> bool {
    if v <= d.min->Some_0 {
        r.num == 0 && r.den == 1
    } else if v >= d.max->Some_0 {
        r.num == 1 && r.den == 1
    } else {
        exists|ip: int|
            1 <= ip <= d.centroids@.len() + 1 && #[trigger] rank_seg_at(d, v as int, ip) && r.num
                == rank_num(d, v as int, ip) && r.den == rank_den(d, v as int, ip)
    }
}

/// The value at node `i` is at most the value at node `i + 1`, stated over
/// cross products.
proof fn lemma_node_adjacent(d: TDigest, i: int)
    requires
        d.wf(),
        d.count > 0,
        0 <= i <= d.centroids@.len(),
    ensures
        node_num(d, i) * node_den(d, i + 1) <= node_num(d, i + 1) * node_den(d, i),
{
    let s = d.centroids@;
    let n = s.len() as int;
    crate::model::lemma_mul_one(d.min->Some_0 as int);
    crate::model::lemma_mul_one(d.max->Some_0 as int);
    crate::model::lemma_mul_one(s[if i <= 0 { 0int } else { i - 1 }].sum as int);
    crate::model::lemma_mul_one(s[if i >= n { n - 1 } else { i }].sum as int);
    if i == 0 {
        assert(s[0].valid());
        if n == 0 {
        } else {
            // min * w_0 <= sum_0 by the bracket invariant
            assert((d.min->Some_0 as int) * (s[0].weight as int) <= s[0].sum as int);
        }
    } else if i < n {
        assert(crate::model::mean_le(s[i - 1], s[i]));
    } else {
        // sum_{n-1} <= max * w_{n-1} by the bracket invariant
        assert(s[n - 1].sum as int <= (d.max->Some_0 as int) * (s[n - 1].weight as int));
    }
}

/// Node values are non-decreasing along the node index.
proof fn lemma_node_mono(d: TDigest, i: int, j: int)
    requires
        d.wf(),
        d.count > 0,
        0 <= i <= j <= d.centroids@.len() + 1,
    ensures
        node_num(d, i) * node_den(d, j) <= node_num(d, j) * node_den(d, i),
        node_den(d, i) > 0,
        node_den(d, j) > 0,
    decreases j - i,
{
    let s = d.centroids@;
    if 1 <= i <= s.len() {
        assert(s[i - 1].valid());
    }
    if 1 <= j <= s.len() {
        assert(s[j - 1].valid());
    }
    if i == j {
    } else {
        lemma_node_mono(d, i, j - 1);
        lemma_node_adjacent(d, j - 1);
        crate::model::lemma_frac_le_trans(
            node_num(d, i),
            node_den(d, i),
            node_num(d, j - 1),
            node_den(d, j - 1),
            node_num(d, j),
            node_den(d, j),
        );
    }
}

/// Node positions are non-decreasing along the node index.
proof fn lemma_pos_mono(d: TDigest, i: int, j: int)
    requires
        d.wf(),
        0 <= i <= j <= d.centroids@.len() + 1,
    ensures
        node_pos(d.centroids@, i) <= node_pos(d.centroids@, j),
    decreases j - i,
{
    let s = d.centroids@;
    let n = s.len() as int;
    if i < j {
        lemma_pos_mono(d, i, j - 1);
        let k = j - 1;
        // one adjacent step from node k to node k + 1
        if k == 0 {
            if n > 0 {
                assert(s.subrange(0, 0) =~= Seq::<Centroid>::empty());
                assert(s[0].valid());
            } else {
                crate::model::lemma_total_weight_ge_len(s);
            }
        } else if k < n {
            lemma_totals_step(s, k - 1);
            assert(s[k - 1].valid());
            assert(s[k].valid());
        } else {
            lemma_totals_full(s);
            lemma_totals_step(s, n - 1);
            assert(s[n - 1].valid());
        }
    }
}

/// Inside one segment the interpolated value lies between the two node
/// values, stated over the cross products of the interpolation formula.
proof fn lemma_interp_bounds(a: int, b: int, c: int, e: int, tn: int, td: int)
    by (nonlinear_arith)
    requires
        0 < b,
        0 < e,
        0 < td,
        0 <= tn <= td,
        a * e <= c * b,
    ensures
        a * (b * e * td) <= (a * e * td + (c * b - a * e) * tn) * b,
        (a * e * td + (c * b - a * e) * tn) * e <= c * (b * e * td),
        0 < b * e * td,
{
}

/// Inside one segment the interpolation is monotone in the target fraction
/// `tn / td`.
proof fn lemma_same_seg_mono(a: int, b: int, c: int, e: int, tn1: int, td1: int, tn2: int, td2: int)
    by (nonlinear_arith)
    requires
        0 < b,
        0 < e,
        0 < td1,
        0 < td2,
        0 <= tn1 <= td1,
        0 <= tn2 <= td2,
        a * e <= c * b,
        tn1 * td2 <= tn2 * td1,
    ensures
        (a * e * td1 + (c * b - a * e) * tn1) * (b * e * td2) <= (a * e * td2 + (c * b - a * e)
            * tn2) * (b * e * td1),
{
}

/// Raising the quantile raises the target fraction within a fixed segment.
proof fn lemma_target_mono(cc: int, plo: int, phi: int, qn1: int, qd1: int, qn2: int, qd2: int)
    requires
        0 <= cc,
        plo <= phi,
        0 < qd1,
        0 < qd2,
        qn1 * qd2 <= qn2 * qd1,
    ensures
        (2 * cc * qn1 - plo * qd1) * ((phi - plo) * qd2) <= (2 * cc * qn2 - plo * qd2) * ((phi
            - plo) * qd1),
{
    assert((2 * cc * qn1) * qd2 <= (2 * cc * qn2) * qd1) by (nonlinear_arith)
        requires
            qn1 * qd2 <= qn2 * qd1,
            cc >= 0,
    ;
    lemma_shift_scale_mono(phi - plo, plo, 2 * cc * qn1, qd1, 2 * cc * qn2, qd2);
}

/// Shifting two cross-ordered fractions by the same offset and scaling by a
/// shared non-negative width keeps their order.
proof fn lemma_shift_scale_mono(w: int, p: int, x1: int, y1: int, x2: int, y2: int)
    by (nonlinear_arith)
    requires
        0 <= w,
        x1 * y2 <= x2 * y1,
    ensures
        (x1 - p * y1) * (w * y2) <= (x2 - p * y2) * (w * y1),
{
}

/// The interpolated value of a segment lies between the segment's two node
/// values, and its denominator is positive.
proof fn lemma_seg_bracket(d: TDigest, qn: u64, qd: u64, r: Ratio, ip: int)
    requires
        d.wf(),
        d.count > 0,
        1 <= qd,
        qn <= qd,
        1 <= ip <= d.centroids@.len() + 1,
        seg_at(d, qn as int, qd as int, ip),
        r.num == interp_num(d, qn as int, qd as int, ip),
        r.den == interp_den(d, qn as int, qd as int, ip),
    ensures
        0 < r.den,
        node_num(d, ip - 1) * (r.den as int) <= (r.num as int) * node_den(d, ip - 1),
        (r.num as int) * node_den(d, ip) <= node_num(d, ip) * (r.den as int),
        node_pos(d.centroids@, ip - 1) < node_pos(d.centroids@, ip),
{
    let s = d.centroids@;
    let a = node_num(d, ip - 1);
    let b = node_den(d, ip - 1);
    let c = node_num(d, ip);
    let e = node_den(d, ip);
    let plo = node_pos(s, ip - 1);
    let phi = node_pos(s, ip);
    let tn = 2 * (d.count as int) * (qn as int) - plo * (qd as int);
    let td = (phi - plo) * (qd as int);
    lemma_node_mono(d, ip - 1, ip);
    lemma_cancel_lt(plo, phi, qd as int);
    crate::model::lemma_sub_distrib(phi, plo, qd as int);
    lemma_mul_pos(phi - plo, qd as int);
    lemma_interp_bounds(a, b, c, e, tn, td);
}

/// Monotonicity of the quantile estimator: for two quantile arguments
/// `qn1/qd1 <= qn2/qd2` of the same well-formed, non-empty digest, the
/// answer pinned by the quantile contract at the first argument is at most
/// the answer at the second, as exact rational values.
pub proof fn lemma_quantile_monotone(
    d: TDigest,
    qn1: u64,
    qd1: u64,
    qn2: u64,
    qd2: u64,
    r1: Ratio,
    r2: Ratio,
)
    requires
        d.wf(),
        d.count > 0,
        1 <= qd1,
        qn1 <= qd1,
        1 <= qd2,
        qn2 <= qd2,
        (qn1 as int) * (qd2 as int) <= (qn2 as int) * (qd1 as int),
        quantile_post(d, qn1, qd1, r1),
        quantile_post(d, qn2, qd2, r2),
    ensures
        (r1.num as int) * (r2.den as int) <= (r2.num as int) * (r1.den as int),
{
    let s = d.centroids@;
    let n = s.len() as int;
    let cc = d.count as int;
    let mn = d.min->Some_0 as int;
    let mx = d.max->Some_0 as int;
    crate::model::lemma_mul_one(r1.num as int);
    crate::model::lemma_mul_one(r2.num as int);
    crate::model::lemma_mul_one(mn);
    crate::model::lemma_mul_one(mx);
    if qn2 == 0 {
        // q2 is zero, so q1 is zero as well and both answers are the minimum.
        assert(qn1 == 0) by (nonlinear_arith)
            requires
                (qn1 as int) * (qd2 as int) <= (qn2 as int) * (qd1 as int),
                qn2 == 0,
                qn1 >= 0,
                qd1 >= 1,
                qd2 >= 1,
        ;
    } else if qn1 == 0 {
        // r1 is the minimum, which sits below every node value and so below
        // every interpolation.
        if qn2 == qd2 {
            lemma_node_mono(d, 0, n + 1);
        } else {
            let ip2 = choose|ip: int|
                1 <= ip <= n + 1 && #[trigger] seg_at(d, qn2 as int, qd2 as int, ip) && r2.num
                    == interp_num(d, qn2 as int, qd2 as int, ip) && r2.den == interp_den(
                    d,
                    qn2 as int,
                    qd2 as int,
                    ip,
                );
            lemma_seg_bracket(d, qn2, qd2, r2, ip2);
            lemma_node_mono(d, 0, ip2 - 1);
            crate::model::lemma_frac_le_trans(
                mn,
                1,
                node_num(d, ip2 - 1),
                node_den(d, ip2 - 1),
                r2.num as int,
                r2.den as int,
            );
        }
    } else if qn1 == qd1 {
        // q1 is one, so q2 is one as well and both answers are the maximum.
        assert(qn2 == qd2) by (nonlinear_arith)
            requires
                (qn1 as int) * (qd2 as int) <= (qn2 as int) * (qd1 as int),
                qn1 == qd1,
                qd1 >= 1,
                qd2 >= 1,
                qn2 <= qd2,
        ;
    } else if qn2 == qd2 {
        // r2 is the maximum, which sits above every node value and so above
        // the interpolation that is r1.
        let ip1 = choose|ip: int|
            1 <= ip <= n + 1 && #[trigger] seg_at(d, qn1 as int, qd1 as int, ip) && r1.num
                == interp_num(d, qn1 as int, qd1 as int, ip) && r1.den == interp_den(
                d,
                qn1 as int,
                qd1 as int,
                ip,
            );
        lemma_seg_bracket(d, qn1, qd1, r1, ip1);
        lemma_node_mono(d, ip1, n + 1);
        crate::model::lemma_frac_le_trans(
            r1.num as int,
            r1.den as int,
            node_num(d, ip1),
            node_den(d, ip1),
            mx,
            1,
        );
    } else {
        // Both answers are interpolations; compare their segments.
        let ip1 = choose|ip: int|
            1 <= ip <= n + 1 && #[trigger] seg_at(d, qn1 as int, qd1 as int, ip) && r1.num
                == interp_num(d, qn1 as int, qd1 as int, ip) && r1.den == interp_den(
                d,
                qn1 as int,
                qd1 as int,
                ip,
            );
        let ip2 = choose|ip: int|
            1 <= ip <= n + 1 && #[trigger] seg_at(d, qn2 as int, qd2 as int, ip) && r2.num
                == interp_num(d, qn2 as int, qd2 as int, ip) && r2.den == interp_den(
                d,
                qn2 as int,
                qd2 as int,
                ip,
            );
        lemma_seg_bracket(d, qn1, qd1, r1, ip1);
        lemma_seg_bracket(d, qn2, qd2, r2, ip2);
        if ip1 > ip2 {
            // Impossible: the lower quantile would sit strictly above the
            // higher one's segment.
            lemma_pos_mono(d, ip2, ip1 - 1);
            assert(false) by (nonlinear_arith)
                requires
                    node_pos(s, ip1 - 1) * (qd1 as int) < 2 * cc * (qn1 as int),
                    2 * cc * (qn2 as int) <= node_pos(s, ip2) * (qd2 as int),
                    node_pos(s, ip2) <= node_pos(s, ip1 - 1),
                    (qn1 as int) * (qd2 as int) <= (qn2 as int) * (qd1 as int),
                    qd1 >= 1,
                    qd2 >= 1,
                    cc >= 0,
            ;
        } else if ip1 == ip2 {
            let a = node_num(d, ip1 - 1);
            let b = node_den(d, ip1 - 1);
            let c = node_num(d, ip1);
            let e = node_den(d, ip1);
            let plo = node_pos(s, ip1 - 1);
            let phi = node_pos(s, ip1);
            lemma_node_mono(d, ip1 - 1, ip1);
            crate::model::lemma_sub_distrib(phi, plo, qd1 as int);
            crate::model::lemma_sub_distrib(phi, plo, qd2 as int);
            lemma_mul_pos(phi - plo, qd1 as int);
            lemma_mul_pos(phi - plo, qd2 as int);
            lemma_target_mono(cc, plo, phi, qn1 as int, qd1 as int, qn2 as int, qd2 as int);
            lemma_same_seg_mono(
                a,
                b,
                c,
                e,
                2 * cc * (qn1 as int) - plo * (qd1 as int),
                (phi - plo) * (qd1 as int),
                2 * cc * (qn2 as int) - plo * (qd2 as int),
                (phi - plo) * (qd2 as int),
            );
        } else {
            // r1 is below its segment's upper node, which sits below r2's
            // segment's lower node, which sits below r2.
            lemma_node_mono(d, ip1, ip2 - 1);
            crate::model::lemma_frac_le_trans(
                r1.num as int,
                r1.den as int,
                node_num(d, ip1),
                node_den(d, ip1),
                node_num(d, ip2 - 1),
                node_den(d, ip2 - 1),
            );
            crate::model::lemma_frac_le_trans(
                r1.num as int,
                r1.den as int,
                node_num(d, ip2 - 1),
                node_den(d, ip2 - 1),
                r2.num as int,
                r2.den as int,
            );
        }
    }
}

impl TDigest {
    /// The approximate value at quantile `q_num / q_den` of `[0, 1]`: the
    /// exact minimum at `0` and maximum at `1`, and in between the linear
    /// interpolation of the centroid means against their cumulative-weight
    /// midpoints, computed as an exact rational. An empty digest reports an
    /// error rather than a sentinel value.
    #[verifier::loop_isolation(false)]
    #[verifier::rlimit(60)]
    pub fn quantile(&self, q_num: u64, q_den: u64) -> (r: Result<Ratio, TdError>)
        requires
            self.wf(),
            1 <= q_den <= MAX_Q_DEN,
            q_num <= q_den,
        ensures
            self.count == 0 ==> r is Err && r->Err_0 == TdError::EmptyDigestQuery,
            self.count > 0 ==> r is Ok && quantile_post(*self, q_num, q_den, r->Ok_0)
                && r->Ok_0.wf(),
    {
        if self.count == 0 {
            return Err(TdError::EmptyDigestQuery);
        }
        let mn: i64 = match self.min {
            Some(m) => m,
            None => {
                proof {
                    assert(false);
                }
                0
            },
        };
        let mx: i64 = match self.max {
            Some(m) => m,
            None => {
                proof {
                    assert(false);
                }
                0
            },
        };
        if q_num == 0 {
            return Ok(Ratio { num: mn as i128, den: 1 });
        }
        if q_num == q_den {
            return Ok(Ratio { num: mx as i128, den: 1 });
        }
        let ghost s = self.centroids@;
        let n: usize = self.centroids.len();
        proof {
            lemma_mul_bound(
                2 * (self.count as int),
                q_num as int,
                2 * (MAX_TOTAL_WEIGHT as int),
                MAX_Q_DEN as int,
            );
            lemma_mul_pos(2 * (self.count as int), q_num as int);
            assert(s.subrange(0, 0) =~= Seq::<Centroid>::empty());
        }
        let t2: i128 = 2 * (self.count as i128) * (q_num as i128);
        let mut ip: usize = 1;
        let mut cumw: u64 = 0;
        let mut plo: u64 = 0;
        let mut phi: u64 = 0;
        let mut found: bool = false;
        while !found && ip <= n
            invariant
                1 <= ip <= n + 1,
                cumw as int == total_weight(s.subrange(0, ip - 1)),
                plo as int == node_pos(s, ip - 1),
                (plo as int) * (q_den as int) < t2 as int,
                plo <= 2 * self.count,
                found ==> ip <= n && phi as int == node_pos(s, ip as int) && (phi as int) * (
                q_den as int) >= t2 as int && phi <= 2 * self.count,
            decreases n + 1 - ip + (if found { 0int } else { 1int }),
        {
            let w: u64 = self.centroids[ip - 1].weight;
            proof {
                lemma_totals_step(s, ip - 1);
                lemma_prefix_weights(s, ip as int);
                lemma_prefix_weights(s, ip as int - 1);
                assert(s[ip - 1].valid());
                lemma_mul_bound(
                    (2 * (cumw as int) + w as int),
                    q_den as int,
                    2 * (MAX_TOTAL_WEIGHT as int),
                    MAX_Q_DEN as int,
                );
            }
            let pos: u64 = 2 * cumw + w;
            if (pos as i128) * (q_den as i128) >= t2 {
                phi = pos;
                found = true;
            } else {
                cumw = cumw + w;
                plo = pos;
                ip = ip + 1;
            }
        }
        let ghost ipg = ip as int;
        if !found {
            phi = 2 * self.count;
            proof {
                lemma_totals_full(s);
                assert((phi as int) * (q_den as int) >= t2 as int) by (nonlinear_arith)
                    requires
                        phi as int == 2 * (self.count as int),
                        t2 as int == 2 * (self.count as int) * (q_num as int),
                        q_num <= q_den,
                        self.count >= 0,
                ;
            }
        }
        proof {
            assert(seg_at(*self, q_num as int, q_den as int, ipg));
            lemma_cancel_lt(plo as int, phi as int, q_den as int);
        }
        let mut lo_num: i128 = mn as i128;
        let mut lo_den: i128 = 1;
        if ip >= 2 {
            lo_num = self.centroids[ip - 2].sum;
            lo_den = self.centroids[ip - 2].weight as i128;
            proof {
                assert(s[ip - 2].valid());
                lemma_sum_range(
                    lo_num as int,
                    lo_den as int,
                    MAX_ABS_VALUE as int,
                    MAX_TOTAL_WEIGHT as int,
                );
            }
        }
        let mut hi_num: i128 = mx as i128;
        let mut hi_den: i128 = 1;
        if found {
            hi_num = self.centroids[ip - 1].sum;
            hi_den = self.centroids[ip - 1].weight as i128;
            proof {
                assert(s[ip - 1].valid());
                lemma_sum_range(
                    hi_num as int,
                    hi_den as int,
                    MAX_ABS_VALUE as int,
                    MAX_TOTAL_WEIGHT as int,
                );
            }
        }
        proof {
            assert(lo_num as int == node_num(*self, ipg - 1));
            assert(lo_den as int == node_den(*self, ipg - 1));
            assert(hi_num as int == node_num(*self, ipg));
            assert(hi_den as int == node_den(*self, ipg));
            lemma_mul_bound(plo as int, q_den as int, 2 * (MAX_TOTAL_WEIGHT as int), MAX_Q_DEN
                as int);
            lemma_sub_distrib(phi as int, plo as int, q_den as int);
            lemma_mul_bound(
                (phi - plo) as int,
                q_den as int,
                2 * (MAX_TOTAL_WEIGHT as int),
                MAX_Q_DEN as int,
            );
        }
        let tn: i128 = t2 - (plo as i128) * (q_den as i128);
        let td: i128 = ((phi - plo) as i128) * (q_den as i128);
        proof {
            let sb = (MAX_ABS_VALUE as int) * (MAX_TOTAL_WEIGHT as int);
            let tb = 2 * (MAX_TOTAL_WEIGHT as int) * (MAX_Q_DEN as int);
            lemma_mul_bound(lo_num as int, hi_den as int, sb, MAX_TOTAL_WEIGHT as int);
            lemma_mul_bound(hi_num as int, lo_den as int, sb, MAX_TOTAL_WEIGHT as int);
            lemma_mul_bound(
                (lo_num as int) * (hi_den as int),
                td as int,
                sb * (MAX_TOTAL_WEIGHT as int),
                tb,
            );
            lemma_mul_bound(
                (hi_num as int) * (lo_den as int) - (lo_num as int) * (hi_den as int),
                tn as int,
                2 * sb * (MAX_TOTAL_WEIGHT as int),
                tb,
            );
            lemma_mul_bound(
                lo_den as int,
                hi_den as int,
                MAX_TOTAL_WEIGHT as int,
                MAX_TOTAL_WEIGHT as int,
            );
            lemma_mul_bound(
                (lo_den as int) * (hi_den as int),
                td as int,
                (MAX_TOTAL_WEIGHT as int) * (MAX_TOTAL_WEIGHT as int),
                tb,
            );
            lemma_mul_pos(lo_den as int, hi_den as int);
            lemma_mul_pos((phi - plo) as int, q_den as int);
            lemma_mul_pos((lo_den as int) * (hi_den as int), td as int);
        }
        let num: i128 = lo_num * hi_den * td + (hi_num * lo_den - lo_num * hi_den) * tn;
        let den: i128 = lo_den * hi_den * td;
        proof {
            assert(num as int == interp_num(*self, q_num as int, q_den as int, ipg));
            assert(den as int == interp_den(*self, q_num as int, q_den as int, ipg));
        }
        Ok(Ratio { num, den })
    }

    /// The approximate fraction of the total weight lying at or below
    /// `value`: `0` at or below the tracked minimum, `1` at or above the
    /// tracked maximum, and in between the exact inverse of the quantile
    /// interpolation. An empty digest reports an error.
    #[verifier::loop_isolation(false)]
    #[verifier::rlimit(60)]
    pub fn rank(&self, value: i64) -> (r: Result<Ratio, TdError>)
        requires
            self.wf(),
            -MAX_ABS_VALUE <= value <= MAX_ABS_VALUE,
        ensures
            self.count == 0 ==> r is Err && r->Err_0 == TdError::EmptyDigestQuery,
            self.count > 0 ==> r is Ok && rank_post(*self, value, r->Ok_0) && r->Ok_0.wf(),
    {
        if self.count == 0 {
            return Err(TdError::EmptyDigestQuery);
        }
        let mn: i64 = match self.min {
            Some(m) => m,
            None => {
                proof {
                    assert(false);
                }
                0
            },
        };
        let mx: i64 = match self.max {
            Some(m) => m,
            None => {
                proof {
                    assert(false);
                }
                0
            },
        };
        if value <= mn {
            return Ok(Ratio { num: 0, den: 1 });
        }
        if value >= mx {
            return Ok(Ratio { num: 1, den: 1 });
        }
        let ghost s = self.centroids@;
        let n: usize = self.centroids.len();
        proof {
            assert(s.subrange(0, 0) =~= Seq::<Centroid>::empty());
        }
        let mut ip: usize = 1;
        let mut cumw: u64 = 0;
        let mut plo: u64 = 0;
        let mut phi: u64 = 0;
        let mut found: bool = false;
        while !found && ip <= n
            invariant
                1 <= ip <= n + 1,
                cumw as int == total_weight(s.subrange(0, ip - 1)),
                plo as int == node_pos(s, ip - 1),
                node_num(*self, ip - 1) <= (value as int) * node_den(*self, ip - 1),
                plo <= 2 * self.count,
                found ==> ip <= n && phi as int == node_pos(s, ip as int) && (value as int)
                    * node_den(*self, ip as int) < node_num(*self, ip as int) && phi <= 2
                    * self.count,
            decreases n + 1 - ip + (if found { 0int } else { 1int }),
        {
            let c = self.centroids[ip - 1];
            proof {
                lemma_totals_step(s, ip - 1);
                lemma_prefix_weights(s, ip as int);
                lemma_prefix_weights(s, ip as int - 1);
                assert(s[ip - 1].valid());
                lemma_mul_bound(
                    value as int,
                    c.weight as int,
                    MAX_ABS_VALUE as int,
                    MAX_TOTAL_WEIGHT as int,
                );
            }
            let pos: u64 = 2 * cumw + c.weight;
            if (value as i128) * (c.weight as i128) < c.sum {
                phi = pos;
                found = true;
            } else {
                cumw = cumw + c.weight;
                plo = pos;
                ip = ip + 1;
            }
        }
        let ghost ipg = ip as int;
        if !found {
            phi = 2 * self.count;
            proof {
                lemma_totals_full(s);
            }
        }
        proof {
            assert(rank_seg_at(*self, value as int, ipg));
            // The node positions strictly increase, so the span is non-empty.
            if ip >= 2 {
                lemma_totals_step(s, ip - 2);
                assert(s[ip - 2].valid());
            }
            assert(plo < phi);
        }
        let mut lo_num: i128 = mn as i128;
        let mut lo_den: i128 = 1;
        if ip >= 2 {
            lo_num = self.centroids[ip - 2].sum;
            lo_den = self.centroids[ip - 2].weight as i128;
            proof {
                assert(s[ip - 2].valid());
                lemma_sum_range(
                    lo_num as int,
                    lo_den as int,
                    MAX_ABS_VALUE as int,
                    MAX_TOTAL_WEIGHT as int,
                );
            }
        }
        let mut hi_num: i128 = mx as i128;
        let mut hi_den: i128 = 1;
        if found {
            hi_num = self.centroids[ip - 1].sum;
            hi_den = self.centroids[ip - 1].weight as i128;
            proof {
                assert(s[ip - 1].valid());
                lemma_sum_range(
                    hi_num as int,
                    hi_den as int,
                    MAX_ABS_VALUE as int,
                    MAX_TOTAL_WEIGHT as int,
                );
            }
        }
        proof {
            assert(lo_num as int == node_num(*self, ipg - 1));
            assert(lo_den as int == node_den(*self, ipg - 1));
            assert(hi_num as int == node_num(*self, ipg));
            assert(hi_den as int == node_den(*self, ipg));
            let sb = (MAX_ABS_VALUE as int) * (MAX_TOTAL_WEIGHT as int);
            lemma_mul_bound(value as int, lo_den as int, MAX_ABS_VALUE as int, MAX_TOTAL_WEIGHT
                as int);
            lemma_mul_bound(lo_num as int, hi_den as int, sb, MAX_TOTAL_WEIGHT as int);
            lemma_mul_bound(hi_num as int, lo_den as int, sb, MAX_TOTAL_WEIGHT as int);
            lemma_between_fracs(
                lo_num as int,
                lo_den as int,
                hi_num as int,
                hi_den as int,
                value as int,
            );
            lemma_mul_bound(
                (value as int) * (lo_den as int) - lo_num as int,
                hi_den as int,
                2 * sb,
                MAX_TOTAL_WEIGHT as int,
            );
            lemma_mul_bound(
                plo as int,
                (hi_num as int) * (lo_den as int) - (lo_num as int) * (hi_den as int),
                2 * (MAX_TOTAL_WEIGHT as int),
                2 * sb * (MAX_TOTAL_WEIGHT as int),
            );
            lemma_mul_bound(
                (phi - plo) as int,
                ((value as int) * (lo_den as int) - lo_num as int) * (hi_den as int),
                2 * (MAX_TOTAL_WEIGHT as int),
                2 * sb * (MAX_TOTAL_WEIGHT as int),
            );
            lemma_mul_bound(
                2 * (self.count as int),
                (hi_num as int) * (lo_den as int) - (lo_num as int) * (hi_den as int),
                2 * (MAX_TOTAL_WEIGHT as int),
                2 * sb * (MAX_TOTAL_WEIGHT as int),
            );
            lemma_mul_pos(
                2 * (self.count as int),
                (hi_num as int) * (lo_den as int) - (lo_num as int) * (hi_den as int),
            );
        }
        let diff: i128 = hi_num * lo_den - lo_num * hi_den;
        let num: i128 = (plo as i128) * diff + ((phi - plo) as i128) * (((value as i128) * lo_den
            - lo_num) * hi_den);
        let den: i128 = 2 * (self.count as i128) * diff;
        proof {
            assert(num as int == rank_num(*self, value as int, ipg));
            assert(den as int == rank_den(*self, value as int, ipg));
        }
        Ok(Ratio { num, den })
    }
}

} // verus!
