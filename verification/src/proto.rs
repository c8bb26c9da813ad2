//! Protocol constants of the fraud-scoring challenge.

use vstd::prelude::*;

verus! {

/// Dimension of a detection vector.
pub const DIM: usize = 14;

/// Number of nearest neighbours that vote.
pub const K: usize = 5;

/// Number of score buckets (`fraud_score` = frauds among the `K` neighbours / `K`).
pub const SCORE_BUCKETS: usize = 6;

/// Buckets below this one are approved (`fraud_score < 0.6`).
pub const APPROVED_BUCKET_LIMIT: usize = 3;

/// Fixed-point scale of the stored reference vectors (`1.0` is `QUANT_SCALE`).
pub const QUANT_SCALE: i16 = 4096;

/// The "no previous transaction" sentinel `-1.0`, quantized.
pub const NULL_SENTINEL_I16: i16 = -4096;

/// Number of centroids of the inverted-file index.
pub const NLIST: usize = 1024;

/// Number of clusters scanned for each query.
pub const N_PROBES: usize = 4;

} // verus!
