use tdigest::{Centroid, Ratio, TDigest, TdError};

fn digest_of(range: std::ops::RangeInclusive<i64>, max_size: usize) -> TDigest {
    let values: Vec<i64> = range.collect();
    TDigest::new_with_size(max_size).merge_sorted(&values)
}

// |a/b - c| <= tol/denom, all exact integer arithmetic.
fn within(r: &Ratio, target: i128, tol_num: i128, tol_den: i128) -> bool {
    (r.num - target * r.den).abs() * tol_den <= tol_num * r.den
}

#[test]
fn empty_digest_reports_absence() {
    let d = TDigest::new_with_size(100);
    assert!(d.is_empty());
    assert_eq!(d.count(), 0);
    assert_eq!(d.sum(), 0);
    assert_eq!(d.min(), None);
    assert_eq!(d.max(), None);
    assert_eq!(d.mean(), Err(TdError::EmptyDigestQuery));
    assert_eq!(d.quantile(1, 2), Err(TdError::EmptyDigestQuery));
    assert_eq!(d.rank(5), Err(TdError::EmptyDigestQuery));
}

#[test]
fn insertion_tracks_statistics() {
    let d = digest_of(1..=1000, 100);
    assert_eq!(d.count(), 1000);
    assert_eq!(d.sum(), 500500);
    assert_eq!(d.min(), Some(1));
    assert_eq!(d.max(), Some(1000));
    assert_eq!(d.max_size(), 100);
    // mean == 500500 / 1000 == 1001 / 2
    assert!(d.mean().unwrap().eq_value(&Ratio { num: 1001, den: 2 }));
}

#[test]
fn scenario_median_of_uniform_stream() {
    // 1..=1000 into a digest bounded at 100: the median is within 1% of 500.
    let d = digest_of(1..=1000, 100);
    assert!(d.centroids.len() <= 100);
    let q = d.quantile(1, 2).unwrap();
    assert!(within(&q, 500, 5, 1), "median was {}/{}", q.num, q.den);
}

#[test]
fn scenario_merged_shards_agree_with_single_digest() {
    // Two digests over disjoint halves, merged, agree with the one-shot
    // digest at the median to within 1%.
    let d1 = digest_of(1..=500, 100);
    let d2 = digest_of(501..=1000, 100);
    let merged = TDigest::merge_digests(vec![d1, d2]);
    let full = digest_of(1..=1000, 100);
    let qm = merged.quantile(1, 2).unwrap();
    let qf = full.quantile(1, 2).unwrap();
    assert!(within(&qm, 500, 5, 1), "merged median was {}/{}", qm.num, qm.den);
    assert!(within(&qf, 500, 5, 1));
    // merged and one-shot medians differ by at most 1% of 500
    assert!((qm.num * qf.den - qf.num * qm.den).abs() * 1 <= 5 * qm.den * qf.den);
}

#[test]
fn scenario_oversized_construction_self_heals() {
    // A direct construction whose list is longer than its bound never fails
    // and comes back compressed near the default bound.
    let mut cs: Vec<Centroid> = Vec::new();
    let mut sum: i128 = 0;
    for v in 1..=200i64 {
        cs.push(Centroid::new(v, 1).unwrap());
        sum += v as i128;
    }
    let d = TDigest::new(cs, 50, sum, 200, Some(200), Some(1));
    assert_eq!(d.count(), 200);
    assert_eq!(d.sum(), sum);
    assert_eq!(d.min(), Some(1));
    assert_eq!(d.max(), Some(200));
    assert_eq!(d.max_size(), 100);
    assert!(d.centroids.len() <= 100);
}

#[test]
fn weight_conservation_across_merges() {
    let d1 = digest_of(1..=300, 50);
    let d2 = digest_of(301..=450, 50);
    let d3 = digest_of(451..=700, 50);
    let merged = TDigest::merge_digests(vec![d1, d2, d3]);
    assert_eq!(merged.count(), 700);
    assert_eq!(merged.sum(), (1..=700i128).sum::<i128>());
    assert_eq!(merged.min(), Some(1));
    assert_eq!(merged.max(), Some(700));
}

#[test]
fn merge_keeps_centroids_sorted_and_bounded() {
    let d1 = digest_of(1..=500, 60);
    let d2 = digest_of(250..=750, 60);
    let merged = TDigest::merge_digests(vec![d1, d2]);
    assert!(merged.centroids.len() <= 60);
    assert!(merged.centroids.len() >= 1);
    for w in merged.centroids.windows(2) {
        // non-decreasing by mean: sum0/w0 <= sum1/w1
        assert!(w[0].sum * (w[1].weight() as i128) <= w[1].sum * (w[0].weight() as i128));
    }
}

#[test]
fn quantile_hits_exact_extremes() {
    let d = digest_of(3..=997, 100);
    assert_eq!(d.quantile(0, 7).unwrap(), Ratio { num: 3, den: 1 });
    assert_eq!(d.quantile(7, 7).unwrap(), Ratio { num: 997, den: 1 });
}

#[test]
fn quantile_is_monotone_in_q() {
    let d = digest_of(1..=1000, 100);
    let steps: Vec<u64> = (0..=20).collect();
    let mut last = d.quantile(0, 20).unwrap();
    for s in steps.into_iter().skip(1) {
        let q = d.quantile(s, 20).unwrap();
        assert!(last.le_value(&q), "quantile fell from {}/{} to {}/{}", last.num, last.den, q.num, q.den);
        last = q;
    }
}

#[test]
fn merging_with_empty_is_identity() {
    let d = digest_of(1..=1000, 100);
    let e = TDigest::new_with_size(100);
    let merged = TDigest::merge_digests(vec![d.clone(), e]);
    assert_eq!(merged.count(), d.count());
    assert_eq!(merged.sum(), d.sum());
    assert_eq!(merged.min(), d.min());
    assert_eq!(merged.max(), d.max());
    assert_eq!(merged.max_size(), d.max_size());
    assert_eq!(merged.centroids, d.centroids);
    let q1 = merged.quantile(1, 3).unwrap();
    let q2 = d.quantile(1, 3).unwrap();
    assert_eq!(q1, q2);
}

#[test]
fn merge_of_nothing_is_empty() {
    let e1 = TDigest::new_with_size(40);
    let e2 = TDigest::new_with_size(70);
    let merged = TDigest::merge_digests(vec![e1, e2]);
    assert!(merged.is_empty());
    assert_eq!(merged.count(), 0);
    assert_eq!(merged.max_size(), 40);
    assert_eq!(merged.min(), None);
}

#[test]
fn rank_inverts_the_extremes() {
    let d = digest_of(10..=990, 100);
    assert_eq!(d.rank(5).unwrap(), Ratio { num: 0, den: 1 });
    assert_eq!(d.rank(10).unwrap(), Ratio { num: 0, den: 1 });
    assert_eq!(d.rank(990).unwrap(), Ratio { num: 1, den: 1 });
    assert_eq!(d.rank(1500).unwrap(), Ratio { num: 1, den: 1 });
    // The median value ranks near one half.
    let r = d.rank(500).unwrap();
    assert!((2 * r.num - r.den).abs() * 50 <= r.den, "rank was {}/{}", r.num, r.den);
}

#[test]
fn validating_constructor_checks_what_new_trusts() {
    let c1 = Centroid::new(1, 2).unwrap();
    let c2 = Centroid::new(9, 3).unwrap();
    let good = TDigest::try_new(vec![c1, c2], 10, 11, 5, Some(9), Some(1));
    let good = good.unwrap();
    assert_eq!(good.count(), 5);
    assert_eq!(good.mean().unwrap(), Ratio { num: 11, den: 5 });

    // Out-of-order centroids are rejected.
    assert_eq!(
        TDigest::try_new(vec![c2, c1], 10, 11, 5, Some(9), Some(1)).unwrap_err(),
        TdError::InvalidInput
    );
    // A count that does not match the weights is rejected.
    assert_eq!(
        TDigest::try_new(vec![c1, c2], 10, 11, 6, Some(9), Some(1)).unwrap_err(),
        TdError::InvalidInput
    );
    // Extrema that do not bracket the means are rejected.
    assert_eq!(
        TDigest::try_new(vec![c1, c2], 10, 11, 5, Some(2), Some(1)).unwrap_err(),
        TdError::InvalidInput
    );
    // A missing extremum on a non-empty digest is rejected.
    assert_eq!(
        TDigest::try_new(vec![c1, c2], 10, 11, 5, None, None).unwrap_err(),
        TdError::InvalidInput
    );
}

#[test]
fn within_bound_construction_keeps_fields() {
    let c1 = Centroid::new(-7, 1).unwrap();
    let c2 = Centroid::new(4, 2).unwrap();
    let d = TDigest::new(vec![c1, c2], 10, 1, 3, Some(4), Some(-7));
    assert_eq!(d.max_size(), 10);
    assert_eq!(d.count(), 3);
    assert_eq!(d.sum(), 1);
    assert_eq!(d.min(), Some(-7));
    assert_eq!(d.max(), Some(4));
    assert_eq!(d.centroids, vec![c1, c2]);
}
