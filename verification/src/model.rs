//! The mathematical model shared by the components: bounds under which all
//! arithmetic stays exact, views of record sequences, and the distance
//! functions the contracts are stated over.

use crate::patient::Patient;
use vstd::prelude::*;

verus! {

/// Largest magnitude a feature value (or a centroid coordinate) may have.
/// Coordinates within this range keep every squared distance, sum and mean
/// in the crate representable in `i128`.
pub const FEATURE_LIMIT: i64 = 1_000_000_000_000_000;

/// Largest number of feature dimensions a record may have; together with
/// `FEATURE_LIMIT` this keeps a sum of squared differences inside `i128`.
pub const DIM_LIMIT: usize = 10_000_000;

/// The feature vector and label of one record, as plain values.
pub open spec fn entry(p: Patient) -> (Seq<i64>, u8) {
    (p.features@, p.diagnosis)
}

/// A record sequence as plain values, for stating what functions return.
pub open spec fn entries(ps: Seq<Patient>) -> Seq<(Seq<i64>, u8)> {
    ps.map_values(|p: Patient| entry(p))
}

/// A coordinate small enough for exact arithmetic.
pub open spec fn fits(x: i64) -> bool {
    -FEATURE_LIMIT <= x <= FEATURE_LIMIT
}

/// Every coordinate of the vector is within `FEATURE_LIMIT`.
pub open spec fn vec_fits(s: Seq<i64>) -> bool {
    forall|j: int| 0 <= j < s.len() ==> fits(#[trigger] s[j])
}

/// Machine-limit bounds on a record set: coordinates within `FEATURE_LIMIT`
/// and at most `DIM_LIMIT` dimensions per record.
pub open spec fn bounded_records(ps: Seq<Patient>) -> bool {
    forall|i: int|
        0 <= i < ps.len() ==> vec_fits(#[trigger] ps[i].features@) && ps[i].features@.len()
            <= DIM_LIMIT
}

/// The common dimensionality of a record set (that of its first record).
pub open spec fn dims_of(ps: Seq<Patient>) -> int {
    ps[0].features@.len() as int
}

/// All records have the same number of features.
pub open spec fn same_dims(ps: Seq<Patient>) -> bool {
    forall|i: int| 0 <= i < ps.len() ==> (#[trigger] ps[i].features@).len() == dims_of(ps)
}

/// Sum of squared coordinate-wise differences over the first `n` dimensions.
pub open spec fn dist_sq_to(a: Seq<i64>, b: Seq<i64>, n: int) -> int
    decreases n,
{
    if n <= 0 {
        0
    } else {
        dist_sq_to(a, b, n - 1) + (a[n - 1] - b[n - 1]) * (a[n - 1] - b[n - 1])
    }
}

/// Squared Euclidean distance between two same-length vectors. The square
/// root is monotone, so distance comparisons — all the algorithms need —
/// order exactly as the Euclidean distances do.
pub open spec fn dist_sq(a: Seq<i64>, b: Seq<i64>) -> int {
    dist_sq_to(a, b, a.len() as int)
}

/// Sum of absolute coordinate-wise differences over the first `n` dimensions.
pub open spec fn l1_to(a: Seq<i64>, b: Seq<i64>, n: int) -> int
    decreases n,
{
    if n <= 0 {
        0
    } else {
        l1_to(a, b, n - 1) + abs_of(a[n - 1] - b[n - 1])
    }
}

/// L1 distance between two same-length vectors; divided by the dimension
/// count it is the mean absolute deviation, and at a fixed dimension count
/// it orders exactly as the mean absolute deviation does.
pub open spec fn l1(a: Seq<i64>, b: Seq<i64>) -> int {
    l1_to(a, b, a.len() as int)
}

/// Absolute value of a difference of coordinates.
pub open spec fn abs_of(x: int) -> int {
    if x < 0 {
        -x
    } else {
        x
    }
}

/// `dist_sq_to` is non-negative and at most `n` times the largest square.
pub proof fn lemma_dist_sq_to_bounds(a: Seq<i64>, b: Seq<i64>, n: int)
    requires
        0 <= n <= a.len(),
        n <= b.len(),
        vec_fits(a),
        vec_fits(b),
    ensures
        0 <= dist_sq_to(a, b, n),
        dist_sq_to(a, b, n) <= n * 4 * (FEATURE_LIMIT as int) * (FEATURE_LIMIT as int),
    decreases n,
{
    if n > 0 {
        lemma_dist_sq_to_bounds(a, b, n - 1);
        let d = a[n - 1] - b[n - 1];
        assert(-2 * (FEATURE_LIMIT as int) <= d <= 2 * (FEATURE_LIMIT as int));
        assert(0 <= d * d <= 4 * (FEATURE_LIMIT as int) * (FEATURE_LIMIT as int)) by (nonlinear_arith)
            requires -2 * (FEATURE_LIMIT as int) <= d <= 2 * (FEATURE_LIMIT as int);
        assert(n * 4 * (FEATURE_LIMIT as int) * (FEATURE_LIMIT as int) == (n - 1) * 4 * (
        FEATURE_LIMIT as int) * (FEATURE_LIMIT as int) + 4 * (FEATURE_LIMIT as int) * (
        FEATURE_LIMIT as int)) by (nonlinear_arith);
    }
}

/// `l1_to` is non-negative and at most `n` times the largest difference.
pub proof fn lemma_l1_to_bounds(a: Seq<i64>, b: Seq<i64>, n: int)
    requires
        0 <= n <= a.len(),
        n <= b.len(),
        vec_fits(a),
        vec_fits(b),
    ensures
        0 <= l1_to(a, b, n),
        l1_to(a, b, n) <= n * 2 * (FEATURE_LIMIT as int),
    decreases n,
{
    if n > 0 {
        lemma_l1_to_bounds(a, b, n - 1);
        assert(n * 2 * (FEATURE_LIMIT as int) == (n - 1) * 2 * (FEATURE_LIMIT as int) + 2 * (
        FEATURE_LIMIT as int)) by (nonlinear_arith);
    }
}

/// The subsequence of records whose label is 1 (when `one` is true) or
/// whose label is anything else (when `one` is false), in input order.
pub open spec fn with_diagnosis(s: Seq<(Seq<i64>, u8)>, one: bool) -> Seq<(Seq<i64>, u8)>
    decreases s.len(),
{
    if s.len() == 0 {
        s
    } else {
        let rest = with_diagnosis(s.drop_last(), one);
        if (s.last().1 == 1) == one {
            rest.push(s.last())
        } else {
            rest
        }
    }
}

/// The feature value is within the limit, as a mathematical integer.
pub open spec fn in_limit(x: int) -> bool {
    -(FEATURE_LIMIT as int) <= x <= FEATURE_LIMIT as int
}

/// Least value of feature column `j` among the first `n` records.
pub open spec fn col_min_to(ps: Seq<Patient>, j: int, n: int) -> int
    decreases n,
{
    if n <= 1 {
        ps[0].features@[j] as int
    } else {
        let m = col_min_to(ps, j, n - 1);
        if (ps[n - 1].features@[j] as int) < m {
            ps[n - 1].features@[j] as int
        } else {
            m
        }
    }
}

/// Greatest value of feature column `j` among the first `n` records.
pub open spec fn col_max_to(ps: Seq<Patient>, j: int, n: int) -> int
    decreases n,
{
    if n <= 1 {
        ps[0].features@[j] as int
    } else {
        let m = col_max_to(ps, j, n - 1);
        if (ps[n - 1].features@[j] as int) > m {
            ps[n - 1].features@[j] as int
        } else {
            m
        }
    }
}

/// Least value observed in feature column `j` over the whole record set.
pub open spec fn col_min(ps: Seq<Patient>, j: int) -> int {
    col_min_to(ps, j, ps.len() as int)
}

/// Greatest value observed in feature column `j` over the whole record set.
pub open spec fn col_max(ps: Seq<Patient>, j: int) -> int {
    col_max_to(ps, j, ps.len() as int)
}

/// The column extrema bound every entry of the column, lie within the
/// feature limit, and are ordered.
pub proof fn lemma_col_bounds(ps: Seq<Patient>, j: int, n: int)
    requires
        1 <= n <= ps.len(),
        0 <= j,
        forall|i: int|
            0 <= i < ps.len() ==> j < (#[trigger] ps[i].features@).len() && fits(
                ps[i].features@[j],
            ),
    ensures
        in_limit(col_min_to(ps, j, n)),
        in_limit(col_max_to(ps, j, n)),
        col_min_to(ps, j, n) <= col_max_to(ps, j, n),
        forall|i: int|
            0 <= i < n ==> col_min_to(ps, j, n) <= (#[trigger] ps[i].features@[j]) as int
                <= col_max_to(ps, j, n),
    decreases n,
{
    if n > 1 {
        lemma_col_bounds(ps, j, n - 1);
    }
}

/// How many of the first `n` records the assignment places in cluster `c`.
pub open spec fn count_assigned(asg: Seq<usize>, c: int, n: int) -> int
    decreases n,
{
    if n <= 0 {
        0
    } else {
        count_assigned(asg, c, n - 1) + if asg[n - 1] as int == c {
            1int
        } else {
            0int
        }
    }
}

/// The count of records assigned to a cluster never exceeds the records seen.
pub proof fn lemma_count_assigned_bounds(asg: Seq<usize>, c: int, n: int)
    requires
        0 <= n,
    ensures
        0 <= count_assigned(asg, c, n) <= n,
    decreases n,
{
    if n > 0 {
        lemma_count_assigned_bounds(asg, c, n - 1);
    }
}

/// Sum over feature column `j` of the first `n` records assigned to `c`.
pub open spec fn sum_assigned(ps: Seq<Patient>, asg: Seq<usize>, c: int, j: int, n: int) -> int
    decreases n,
{
    if n <= 0 {
        0
    } else {
        sum_assigned(ps, asg, c, j, n - 1) + if asg[n - 1] as int == c {
            ps[n - 1].features@[j] as int
        } else {
            0int
        }
    }
}

/// `c` is a cluster index of minimum squared distance to `fs` among the
/// centroids, with ties resolved to the lowest index. The predicate pins
/// `c` uniquely.
pub open spec fn is_nearest(cents: Seq<Seq<i64>>, fs: Seq<i64>, c: int) -> bool {
    &&& 0 <= c < cents.len()
    &&& forall|o: int|
        0 <= o < cents.len() ==> dist_sq(fs, cents[c]) <= dist_sq(fs, #[trigger] cents[o])
    &&& forall|o: int| 0 <= o < c ==> dist_sq(fs, #[trigger] cents[o]) > dist_sq(fs, cents[c])
}

/// `c` is a cluster of the greatest member count among `k` clusters under
/// the assignment of the first `n` records, ties resolved to the lowest
/// index. The predicate pins `c` uniquely.
pub open spec fn is_max_members(asg: Seq<usize>, k: int, n: int, c: int) -> bool {
    &&& 0 <= c < k
    &&& forall|o: int|
        0 <= o < k ==> #[trigger] count_assigned(asg, o, n) <= count_assigned(asg, c, n)
    &&& forall|o: int| 0 <= o < c ==> #[trigger] count_assigned(asg, o, n) < count_assigned(
        asg,
        c,
        n,
    )
}

/// Well-formed centroid list: `k` vectors of the common dimensionality,
/// every coordinate within the feature limit.
pub open spec fn centroids_wf(cs: Seq<Seq<i64>>, dims: int) -> bool {
    forall|c: int| 0 <= c < cs.len() ==> (#[trigger] cs[c]).len() == dims && vec_fits(cs[c])
}

/// Every centroid coordinate lies within the range its feature column
/// spans over the record set.
pub open spec fn centroids_in_range(cs: Seq<Seq<i64>>, ps: Seq<Patient>) -> bool {
    forall|c: int, j: int|
        0 <= c < cs.len() && 0 <= j < cs[c].len() ==> col_min(ps, j) <= (#[trigger] cs[c][j]) as int
            <= col_max(ps, j)
}

/// The centroid list and record set agree on one common dimensionality.
pub open spec fn compatible_dims(ps: Seq<Patient>, cents: Seq<Seq<i64>>) -> bool {
    &&& forall|c: int| 0 <= c < cents.len() ==> (#[trigger] cents[c]).len() == cents[0].len()
    &&& forall|e: int| 0 <= e < ps.len() ==> (#[trigger] ps[e].features@).len() == cents[0].len()
}

/// A total assignment of every record to a nearest centroid.
pub open spec fn valid_assignment(asg: Seq<usize>, ps: Seq<Patient>, cents: Seq<Seq<i64>>) -> bool {
    &&& asg.len() == ps.len()
    &&& forall|e: int|
        0 <= e < ps.len() ==> is_nearest(cents, ps[e].features@, #[trigger] asg[e] as int)
}

/// How many of the first `c` clusters are non-empty; a non-empty cluster's
/// representative lands at this index of the output.
pub open spec fn nonempty_before(clus: Seq<Vec<Patient>>, c: int) -> int
    decreases c,
{
    if c <= 0 {
        0
    } else {
        nonempty_before(clus, c - 1) + if clus[c - 1]@.len() > 0 {
            1int
        } else {
            0int
        }
    }
}

/// `nonempty_before` is non-negative and monotone, and strictly grows past
/// a non-empty cluster.
pub proof fn lemma_nonempty_before_mono(clus: Seq<Vec<Patient>>, a: int, b: int)
    requires
        0 <= a <= b,
    ensures
        0 <= nonempty_before(clus, a) <= nonempty_before(clus, b),
        a < b && clus[a]@.len() > 0 ==> nonempty_before(clus, a) < nonempty_before(clus, b),
    decreases b - a,
{
    if a == b {
        lemma_nonempty_before_nonneg(clus, a);
    } else {
        lemma_nonempty_before_nonneg(clus, a);
        lemma_nonempty_before_mono(clus, a + 1, b);
        assert(nonempty_before(clus, a + 1) == nonempty_before(clus, a) + if clus[a]@.len() > 0 {
            1int
        } else {
            0int
        });
    }
}

/// `nonempty_before` counts at least zero clusters.
pub proof fn lemma_nonempty_before_nonneg(clus: Seq<Vec<Patient>>, c: int)
    ensures
        0 <= nonempty_before(clus, c),
    decreases c,
{
    if c > 0 {
        lemma_nonempty_before_nonneg(clus, c - 1);
    }
}

/// `m` is the index of a cluster member of least L1 distance to the
/// centroid, ties resolved to the first-encountered member. At a fixed
/// dimension count, least L1 distance is least mean absolute deviation.
/// The predicate pins `m` uniquely.
pub open spec fn is_best_rep(cluster: Seq<Patient>, cent: Seq<i64>, m: int) -> bool {
    &&& 0 <= m < cluster.len()
    &&& forall|o: int|
        0 <= o < cluster.len() ==> l1(cluster[m].features@, cent) <= l1(
            (#[trigger] cluster[o]).features@,
            cent,
        )
    &&& forall|o: int|
        0 <= o < m ==> l1((#[trigger] cluster[o]).features@, cent) > l1(
            cluster[m].features@,
            cent,
        )
}

/// The deep view of a centroid list indexes to the views of its vectors.
pub proof fn lemma_centroid_views(cs: Vec<Vec<i64>>)
    ensures
        cs.deep_view().len() == cs@.len(),
        forall|c: int| 0 <= c < cs@.len() ==> #[trigger] cs.deep_view()[c] == cs@[c]@,
{
    assert forall|c: int| 0 <= c < cs@.len() implies #[trigger] cs.deep_view()[c] == cs@[c]@ by {
        assert(cs@[c].deep_view() =~= cs@[c]@);
    }
}

/// Centroids whose coordinates stay within their columns' observed range
/// also stay within the feature limit.
pub proof fn lemma_range_implies_fits(cs: Seq<Seq<i64>>, ps: Seq<Patient>)
    requires
        ps.len() >= 1,
        bounded_records(ps),
        same_dims(ps),
        centroids_in_range(cs, ps),
        forall|c: int| 0 <= c < cs.len() ==> (#[trigger] cs[c]).len() == dims_of(ps),
    ensures
        forall|c: int| 0 <= c < cs.len() ==> vec_fits(#[trigger] cs[c]),
{
    assert forall|c: int| 0 <= c < cs.len() implies vec_fits(#[trigger] cs[c]) by {
        assert forall|j: int| 0 <= j < cs[c].len() implies fits(#[trigger] cs[c][j]) by {
            assert(forall|i: int|
                0 <= i < ps.len() ==> j < (#[trigger] ps[i].features@).len() && fits(
                    ps[i].features@[j],
                ));
            lemma_col_bounds(ps, j, ps.len() as int);
        }
    }
}

/// Truncating integer division (rounding toward zero), as the machine's
/// signed division behaves; matches the standard library's `checked_div`
/// on a non-zero divisor.
pub open spec fn trunc_div(x: int, d: int) -> int {
    if x == 0 {
        0
    } else if x > 0 && d > 0 {
        x / d
    } else if x < 0 && d < 0 {
        (x * -1) / (d * -1)
    } else if x < 0 {
        ((x * -1) / d) * -1
    } else {
        (x / (d * -1)) * -1
    }
}

/// A truncated quotient of a sum of `d` values, each between `lo` and `hi`,
/// lies between `lo` and `hi` itself.
pub proof fn lemma_trunc_div_bounds(x: int, d: int, lo: int, hi: int)
    requires
        1 <= d,
        d * lo <= x,
        x <= d * hi,
    ensures
        lo <= trunc_div(x, d) <= hi,
{
    vstd::arithmetic::div_mod::lemma_div_multiples_vanish(lo, d);
    vstd::arithmetic::div_mod::lemma_div_multiples_vanish(hi, d);
    vstd::arithmetic::div_mod::lemma_div_multiples_vanish(-lo, d);
    vstd::arithmetic::div_mod::lemma_div_multiples_vanish(-hi, d);
    if x == 0 {
        assert(lo <= 0 && 0 <= hi) by (nonlinear_arith)
            requires
                1 <= d,
                d * lo <= 0,
                0 <= d * hi,
        ;
    } else if x > 0 {
        vstd::arithmetic::div_mod::lemma_div_is_ordered(d * lo, x, d);
        vstd::arithmetic::div_mod::lemma_div_is_ordered(x, d * hi, d);
        assert(d * lo == lo * d && d * hi == hi * d) by (nonlinear_arith);
        vstd::arithmetic::div_mod::lemma_div_pos_is_pos(x, d);
    } else {
        // x < 0, d > 0: the quotient truncates to -((-x) / d)
        assert(-x <= d * -lo) by (nonlinear_arith)
            requires
                d * lo <= x,
        ;
        vstd::arithmetic::div_mod::lemma_div_is_ordered(-x, d * -lo, d);
        assert(trunc_div(x, d) >= lo);
        if hi < 0 {
            assert(d * -hi <= -x) by (nonlinear_arith)
                requires
                    x <= d * hi,
            ;
            vstd::arithmetic::div_mod::lemma_div_is_ordered(d * -hi, -x, d);
        } else {
            vstd::arithmetic::div_mod::lemma_div_pos_is_pos(-x, d);
        }
    }
}

} // verus!
