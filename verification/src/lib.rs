//! A mergeable, bounded-memory summary of a stream of weighted observations,
//! answering approximate quantile and rank queries without storing the
//! stream itself.
//!
//! Observations are integer-valued and carry positive integer weights; every
//! cluster mean, quantile and rank is an exact rational number computed in
//! 128-bit integer arithmetic. The capacity constants below keep every
//! intermediate product representable, so no operation can overflow.

mod centroid;
mod digest;
mod merge;
mod model;
mod quantile;
mod ratio;

pub use centroid::Centroid;
pub use digest::TDigest;
pub use merge::{counts_total, max_opt, maxs_fold, min_opt, mins_fold, scale_fits, sums_total};
pub use model::{
    all_valid, in_bounds, mean_le, seq_int_sum, sorted_by_mean, total_sum, total_weight,
};
pub use quantile::{
    interp_den, interp_num, lemma_quantile_monotone, node_den, node_num, node_pos, quantile_post,
    rank_den, rank_num, rank_post, rank_seg_at, seg_at,
};
pub use ratio::{Ratio, RATIO_PART_BOUND};

use vstd::prelude::*;

verus! {

/// Largest magnitude an observation value, a tracked minimum or a tracked
/// maximum may have.
pub const MAX_ABS_VALUE: i64 = 2147483648;

/// Largest total weight (observation count) a digest may carry.
pub const MAX_TOTAL_WEIGHT: u64 = 1048576;

/// Largest denominator accepted for a quantile argument.
pub const MAX_Q_DEN: u64 = 1048576;

/// Largest size bound a digest may be built with.
pub const MAX_SIZE_BOUND: usize = 65536;

/// Size bound given to digests built without an explicit one, and to the
/// digest produced when an oversized direct construction heals itself.
pub const DEFAULT_MAX_SIZE: usize = 100;

/// Why an operation was refused.
#[derive(Clone, Copy, Debug, PartialEq, Eq, Structural)]
pub enum TdError {
    /// A zero weight or an out-of-range field was supplied.
    InvalidInput,
    /// A mean, quantile or rank was asked of a digest holding nothing.
    EmptyDigestQuery,
}

} // verus!
