//! The distance metric: exact squared Euclidean distance on fixed-point
//! feature vectors.

use crate::model::{dist_sq, dist_sq_to, l1, l1_to, lemma_dist_sq_to_bounds, lemma_l1_to_bounds,
    vec_fits, DIM_LIMIT, FEATURE_LIMIT};
use crate::patient::Error;
use vstd::prelude::*;

verus! {

/// The squared Euclidean distance between two same-length vectors, exact in
/// `i128`; `DimensionMismatch` when the lengths differ. The Euclidean
/// distance is the square root of this value, and the square root is
/// monotone, so every distance comparison the library makes is made on this
/// value, exactly.
pub fn distance_sq(a: &Vec<i64>, b: &Vec<i64>) -> (r: Result<i128, Error>)
    requires
        vec_fits(a@),
        vec_fits(b@),
        a@.len() <= DIM_LIMIT,
    ensures
        a@.len() == b@.len() ==> r == Ok::<i128, Error>(dist_sq(a@, b@) as i128),
        a@.len() != b@.len() ==> r == Err::<i128, Error>(Error::DimensionMismatch),
        r matches Ok(d) ==> d == dist_sq(a@, b@) && 0 <= d,
{
    if a.len() != b.len() {
        return Err(Error::DimensionMismatch);
    }
    Ok(dist_sq_exec(a, b))
}

/// The squared distance of two vectors already known to share a length.
pub(crate) fn dist_sq_exec(a: &Vec<i64>, b: &Vec<i64>) -> (d: i128)
    requires
        vec_fits(a@),
        vec_fits(b@),
        a@.len() == b@.len(),
        a@.len() <= DIM_LIMIT,
    ensures
        d == dist_sq(a@, b@),
        0 <= d,
{
    let n = a.len();
    let mut acc: i128 = 0;
    for j in 0..n
        invariant
            n == a@.len(),
            n == b@.len(),
            n <= DIM_LIMIT,
            vec_fits(a@),
            vec_fits(b@),
            acc == dist_sq_to(a@, b@, j as int),
            0 <= acc <= (j as int) * 4 * (FEATURE_LIMIT as int) * (FEATURE_LIMIT as int),
    {
        let d: i128 = a[j] as i128 - b[j] as i128;
        proof {
            lemma_dist_sq_to_bounds(a@, b@, j as int);
            lemma_dist_sq_to_bounds(a@, b@, j as int + 1);
            assert((j as int + 1) * 4 * (FEATURE_LIMIT as int) * (FEATURE_LIMIT as int) <= (
            DIM_LIMIT as int) * 4 * (FEATURE_LIMIT as int) * (FEATURE_LIMIT as int))
                by (nonlinear_arith)
                requires
                    j as int + 1 <= DIM_LIMIT as int,
            ;
            assert(d * d == (a@[j as int] - b@[j as int]) * (a@[j as int] - b@[j as int]));
        }
        acc = acc + d * d;
    }
    proof {
        assert(dist_sq_to(a@, b@, n as int) == dist_sq(a@, b@));
    }
    acc
}

/// The L1 distance of two vectors already known to share a length.
pub(crate) fn l1_exec(a: &Vec<i64>, b: &Vec<i64>) -> (d: i128)
    requires
        vec_fits(a@),
        vec_fits(b@),
        a@.len() == b@.len(),
    ensures
        d == l1(a@, b@),
        0 <= d,
{
    let n = a.len();
    let mut acc: i128 = 0;
    for j in 0..n
        invariant
            n == a@.len(),
            n == b@.len(),
            vec_fits(a@),
            vec_fits(b@),
            acc == l1_to(a@, b@, j as int),
            0 <= acc <= (j as int) * 2 * (FEATURE_LIMIT as int),
    {
        let mut d: i128 = a[j] as i128 - b[j] as i128;
        if d < 0 {
            d = -d;
        }
        proof {
            lemma_l1_to_bounds(a@, b@, j as int + 1);
            assert((j as int + 1) * 2 * (FEATURE_LIMIT as int) <= 0x1_0000_0000_0000_0000 * 2 * (
            FEATURE_LIMIT as int)) by (nonlinear_arith)
                requires
                    j as int + 1 <= 0x1_0000_0000_0000_0000,
            ;
        }
        acc = acc + d;
    }
    proof {
        assert(l1_to(a@, b@, n as int) == l1(a@, b@));
    }
    acc
}

} // verus!
