//! Distances between quantized vectors.

use vstd::prelude::*;
use crate::proto::DIM;

verus! {

/// Sum over the first `n` coordinates of the squared differences of `a`
/// and `b`.
pub open spec fn sq_dist(a: Seq<i16>, b: Seq<i16>, n: int) -> int
    decreases n,
{
    if n <= 0 {
        0
    } else {
        sq_dist(a, b, n - 1) + (a[n - 1] - b[n - 1]) * (a[n - 1] - b[n - 1])
    }
}

/// Squared differences are never negative, so neither is their sum; and
/// swapping the operands changes nothing.
pub proof fn sq_dist_basics(a: Seq<i16>, b: Seq<i16>, n: int)
    ensures
        sq_dist(a, b, n) >= 0,
        sq_dist(a, b, n) == sq_dist(b, a, n),
        sq_dist(a, a, n) == 0,
    decreases n,
{
    if n > 0 {
        sq_dist_basics(a, b, n - 1);
        let x = a[n - 1] - b[n - 1];
        assert(x * x >= 0 && x * x == (-x) * (-x)) by (nonlinear_arith);
    }
}

/// The distance is zero exactly when the first `n` coordinates agree.
pub proof fn sq_dist_zero_iff_equal(a: Seq<i16>, b: Seq<i16>, n: int)
    requires
        0 <= n <= a.len(),
        n <= b.len(),
    ensures
        sq_dist(a, b, n) == 0 <==> forall|d: int| 0 <= d < n ==> a[d] == b[d],
    decreases n,
{
    if n > 0 {
        sq_dist_zero_iff_equal(a, b, n - 1);
        sq_dist_basics(a, b, n - 1);
        let x = a[n - 1] - b[n - 1];
        assert(x * x >= 0 && (x * x == 0 <==> x == 0)) by (nonlinear_arith);
        if sq_dist(a, b, n) == 0 {
            assert forall|d: int| 0 <= d < n implies a[d] == b[d] by {
                if d < n - 1 {
                }
            }
        }
    }
}

/// Squared Euclidean distance between two quantized vectors (exact, in
/// 64 bits).
pub fn l2_squared_scalar(a: &[i16; DIM], b: &[i16; DIM]) -> (r: i64)
    ensures
        r == sq_dist(a@, b@, DIM as int),
{
    let mut acc: i64 = 0;
    let mut d: usize = 0;
    while d < DIM
        invariant
            d <= DIM,
            acc == sq_dist(a@, b@, d as int),
            0 <= acc <= d * 4294967296,
        decreases DIM - d,
    {
        let diff: i32 = a[d] as i32 - b[d] as i32;
        proof {
            assert(0 <= diff * diff <= 4294967296) by (nonlinear_arith)
                requires
                    -65536 <= diff <= 65536,
            ;
        }
        acc = acc + (diff as i64) * (diff as i64);
        d += 1;
    }
    acc
}

} // verus!
