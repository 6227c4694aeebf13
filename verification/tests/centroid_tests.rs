use std::cmp::Ordering;

use tdigest::{Centroid, Ratio, TdError};

#[test]
fn test_new_centroid() {
    let c = Centroid::new(5, 1).unwrap();
    assert_eq!(c.mean(), Ratio { num: 5, den: 1 });
    assert_eq!(c.weight(), 1);
}

#[test]
fn test_update_centroid() {
    let mut c = Centroid::new(5, 1).unwrap();
    let (new_mean, new_weight) = c.update(7, 2).unwrap();
    // (5 * 1 + 7) / 3: the incoming value is not scaled by its own weight.
    assert_eq!(new_mean, Ratio { num: 5 * 1 + 7, den: 3 });
    assert!(new_mean.eq_value(&Ratio { num: 4, den: 1 }));
    assert_eq!(new_weight, 3);
}

#[test]
fn test_partial_cmp() {
    let c1 = Centroid::new(5, 1).unwrap();
    let c2 = Centroid::new(7, 1).unwrap();
    assert!(c1 < c2);

    let c3 = Centroid::new(3, 5).unwrap();
    let c4 = Centroid::new(5, 3).unwrap();
    assert!(c4 > c3);
}

#[test]
fn test_ord() {
    let c1 = Centroid::new(5, 1).unwrap();
    let c2 = Centroid::new(7, 1).unwrap();
    assert_eq!(c1.cmp_mean(&c2), Ordering::Less);
    assert_eq!(c2.cmp_mean(&c1), Ordering::Greater);
    let c3 = Centroid::new(5, 2).unwrap();
    assert_eq!(c1.cmp_mean(&c3), Ordering::Equal);
}

#[test]
fn test_clone_copy() {
    let c1 = Centroid::new(5, 1).unwrap();
    let c2 = c1;
    assert_eq!(c1, c2);
    let c3 = c1;
    assert_eq!(c1, c3);
}

#[test]
fn test_eq() {
    let c1 = Centroid::new(5, 1).unwrap();
    let c2 = Centroid::new(5, 1).unwrap();
    assert_eq!(c1, c2);
    // Centroids are only equal if they have the same mean and weight, even
    // though they order as equal by mean alone.
    let c3 = Centroid::new(5, 2).unwrap();
    assert_ne!(c1, c3);
    assert_eq!(c1.cmp_mean(&c3), Ordering::Equal);
}

#[test]
fn test_zero_weight_rejected() {
    assert_eq!(Centroid::new(5, 0), Err(TdError::InvalidInput));
    let mut c = Centroid::new(5, 1).unwrap();
    assert_eq!(c.update(7, 0), Err(TdError::InvalidInput));
    // The failed update left the centroid unchanged.
    assert_eq!(c.mean(), Ratio { num: 5, den: 1 });
    assert_eq!(c.weight(), 1);
}
