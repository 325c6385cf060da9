//! The clustering engine: assignment of every record to a nearest centroid,
//! the mean-update step, and the iterative refinement entry point.

use crate::distance::dist_sq_exec;
use crate::model::{bounded_records, centroids_in_range, col_max, col_max_to, col_min, col_min_to,
    compatible_dims, count_assigned, dims_of, dist_sq, in_limit, is_max_members, is_nearest,
    lemma_centroid_views, lemma_col_bounds, lemma_count_assigned_bounds, lemma_range_implies_fits,
    lemma_trunc_div_bounds, same_dims, sum_assigned, trunc_div, valid_assignment, vec_fits,
    DIM_LIMIT, FEATURE_LIMIT};
use crate::patient::{Error, Patient};
use crate::randgen::gen_range_inclusive;
use vstd::prelude::*;

verus! {

/// Index of a centroid of minimum squared distance to `fs`, ties resolved
/// to the lowest index.
fn nearest_centroid(fs: &Vec<i64>, centroids: &Vec<Vec<i64>>) -> (c: usize)
    requires
        centroids@.len() >= 1,
        vec_fits(fs@),
        fs@.len() <= DIM_LIMIT,
        forall|i: int|
            0 <= i < centroids@.len() ==> (#[trigger] centroids@[i]@).len() == fs@.len()
                && vec_fits(centroids@[i]@),
    ensures
        is_nearest(centroids.deep_view(), fs@, c as int),
{
    proof {
        lemma_centroid_views(*centroids);
    }
    let ghost cv = centroids.deep_view();
    let k = centroids.len();
    let mut best: usize = 0;
    let mut best_d: i128 = dist_sq_exec(fs, &centroids[0]);
    for i in 1..k
        invariant
            k == centroids@.len(),
            k >= 1,
            vec_fits(fs@),
            fs@.len() <= DIM_LIMIT,
            forall|o: int|
                0 <= o < centroids@.len() ==> (#[trigger] centroids@[o]@).len() == fs@.len()
                    && vec_fits(centroids@[o]@),
            cv == centroids.deep_view(),
            cv.len() == k,
            forall|o: int| 0 <= o < k ==> #[trigger] cv[o] == centroids@[o]@,
            best < i,
            best_d == dist_sq(fs@, cv[best as int]),
            forall|o: int|
                0 <= o < i ==> dist_sq(fs@, cv[best as int]) <= dist_sq(fs@, #[trigger] cv[o]),
            forall|o: int|
                0 <= o < best ==> dist_sq(fs@, #[trigger] cv[o]) > dist_sq(fs@, cv[best as int]),
    {
        let d = dist_sq_exec(fs, &centroids[i]);
        if d < best_d {
            best = i;
            best_d = d;
        }
    }
    best
}

/// One assignment pass: every record is mapped to a nearest centroid.
fn assign_core(patients: &Vec<Patient>, centroids: &Vec<Vec<i64>>) -> (asg: Vec<usize>)
    requires
        centroids@.len() >= 1,
        bounded_records(patients@),
        forall|c: int|
            0 <= c < centroids@.len() ==> (#[trigger] centroids@[c]@).len() == centroids@[0]@.len()
                && vec_fits(centroids@[c]@),
        forall|e: int|
            0 <= e < patients@.len() ==> (#[trigger] patients@[e].features@).len()
                == centroids@[0]@.len(),
    ensures
        valid_assignment(asg@, patients@, centroids.deep_view()),
{
    let n = patients.len();
    let mut asg: Vec<usize> = Vec::new();
    for e in 0..n
        invariant
            n == patients@.len(),
            centroids@.len() >= 1,
            bounded_records(patients@),
            forall|c: int|
                0 <= c < centroids@.len() ==> (#[trigger] centroids@[c]@).len()
                    == centroids@[0]@.len() && vec_fits(centroids@[c]@),
            forall|o: int|
                0 <= o < patients@.len() ==> (#[trigger] patients@[o].features@).len()
                    == centroids@[0]@.len(),
            asg@.len() == e,
            forall|o: int|
                0 <= o < e ==> is_nearest(
                    centroids.deep_view(),
                    patients@[o].features@,
                    #[trigger] asg@[o] as int,
                ),
    {
        let c = nearest_centroid(&patients[e].features, centroids);
        asg.push(c);
    }
    asg
}

/// Assigns every record to a cluster: the result maps each record index to
/// the index of a centroid of minimum squared Euclidean distance, ties
/// resolved to the lowest centroid index. An empty centroid list is
/// `InvalidInput`; records or centroids of differing dimensionality are a
/// `DimensionMismatch`.
pub fn assign_clusters(patients: &Vec<Patient>, centroids: &Vec<Vec<i64>>) -> (r: Result<
    Vec<usize>,
    Error,
>)
    requires
        bounded_records(patients@),
        forall|c: int| 0 <= c < centroids@.len() ==> vec_fits((#[trigger] centroids@[c])@),
    ensures
        r matches Ok(asg) ==> centroids@.len() >= 1 && compatible_dims(
            patients@,
            centroids.deep_view(),
        ) && valid_assignment(asg@, patients@, centroids.deep_view()),
        r == Err::<Vec<usize>, Error>(Error::InvalidInput) <==> centroids@.len() == 0,
        r == Err::<Vec<usize>, Error>(Error::DimensionMismatch) <==> (centroids@.len() >= 1
            && !compatible_dims(patients@, centroids.deep_view())),
{
    proof {
        lemma_centroid_views(*centroids);
    }
    if centroids.len() == 0 {
        return Err(Error::InvalidInput);
    }
    let k = centroids.len();
    let n = patients.len();
    let d0 = centroids[0].len();
    for c in 0..k
        invariant
            k == centroids@.len(),
            k >= 1,
            d0 == centroids@[0]@.len(),
            centroids.deep_view().len() == k,
            forall|o: int| 0 <= o < k ==> #[trigger] centroids.deep_view()[o] == centroids@[o]@,
            forall|o: int| 0 <= o < c ==> (#[trigger] centroids@[o]@).len() == d0,
    {
        if centroids[c].len() != d0 {
            proof {
                assert(centroids.deep_view()[c as int].len() != centroids.deep_view()[0].len());
                assert(!compatible_dims(patients@, centroids.deep_view()));
            }
            return Err(Error::DimensionMismatch);
        }
    }
    for e in 0..n
        invariant
            n == patients@.len(),
            k == centroids@.len(),
            k >= 1,
            d0 == centroids@[0]@.len(),
            centroids.deep_view().len() == k,
            forall|o: int| 0 <= o < k ==> #[trigger] centroids.deep_view()[o] == centroids@[o]@,
            forall|o: int| 0 <= o < k ==> (#[trigger] centroids@[o]@).len() == d0,
            forall|o: int| 0 <= o < e ==> (#[trigger] patients@[o].features@).len() == d0,
    {
        if patients[e].features.len() != d0 {
            proof {
                assert(patients@[e as int].features@.len() != centroids.deep_view()[0].len());
                assert(!compatible_dims(patients@, centroids.deep_view()));
            }
            return Err(Error::DimensionMismatch);
        }
    }
    proof {
        assert(compatible_dims(patients@, centroids.deep_view()));
    }
    Ok(assign_core(patients, centroids))
}

/// The mean-update step of one refinement pass. A cluster with at least one
/// member gets the dimension-wise arithmetic mean of its members' feature
/// vectors, the quotient truncated toward zero; a cluster with no members is
/// given a copy of the centroid of the cluster that currently has the most
/// members, ties resolved to the lowest index (this is the canonical
/// empty-cluster policy: cloning the largest cluster's centroid prevents
/// permanently dead centroids).
pub fn update_centroids(patients: &Vec<Patient>, asg: &Vec<usize>, centroids: &Vec<Vec<i64>>) -> (r:
    Vec<Vec<i64>>)
    requires
        patients@.len() >= 1,
        bounded_records(patients@),
        same_dims(patients@),
        centroids@.len() >= 1,
        forall|c: int|
            0 <= c < centroids@.len() ==> (#[trigger] centroids@[c]@).len() == dims_of(patients@),
        asg@.len() == patients@.len(),
        forall|e: int| 0 <= e < asg@.len() ==> (#[trigger] asg@[e]) < centroids@.len(),
    ensures
        r@.len() == centroids@.len(),
        forall|c: int|
            0 <= c < r@.len() ==> (#[trigger] r.deep_view()[c]).len() == dims_of(patients@),
        forall|c: int, j: int|
            0 <= c < r@.len() && 0 <= j < dims_of(patients@) && count_assigned(
                asg@,
                c,
                patients@.len() as int,
            ) > 0 ==> #[trigger] r.deep_view()[c][j] == trunc_div(
                sum_assigned(patients@, asg@, c, j, patients@.len() as int),
                count_assigned(asg@, c, patients@.len() as int),
            ) && col_min(patients@, j) <= r.deep_view()[c][j] as int <= col_max(patients@, j),
        forall|c: int|
            0 <= c < r@.len() && #[trigger] count_assigned(asg@, c, patients@.len() as int) == 0
                ==> exists|m: int|
                #[trigger] is_max_members(asg@, centroids@.len() as int, patients@.len() as int, m)
                    && r.deep_view()[c] == centroids.deep_view()[m],
{
    let k = centroids.len();
    let n = patients.len();
    let dims = patients[0].features.len();
    let ghost psv = patients@;
    let ghost av = asg@;
    proof {
        lemma_centroid_views(*centroids);
    }

    // Member count of every cluster.
    let mut counts: Vec<usize> = Vec::new();
    for c in 0..k
        invariant
            counts@.len() == c,
            forall|o: int| 0 <= o < c ==> #[trigger] counts@[o] == 0,
    {
        counts.push(0);
    }
    for e in 0..n
        invariant
            n == av.len(),
            av == asg@,
            counts@.len() == k,
            forall|o: int| 0 <= o < n ==> (#[trigger] av[o]) < k,
            forall|o: int|
                0 <= o < k ==> #[trigger] counts@[o] as int == count_assigned(av, o, e as int),
    {
        proof {
            lemma_count_assigned_bounds(av, av[e as int] as int, e as int);
        }
        let a = asg[e];
        let prev = counts[a];
        counts.set(a, prev + 1);
    }

    // The most populated cluster, ties to the lowest index.
    let mut maxc: usize = 0;
    for c in 1..k
        invariant
            counts@.len() == k,
            k >= 1,
            n == av.len(),
            av == asg@,
            forall|o: int|
                0 <= o < k ==> #[trigger] counts@[o] as int == count_assigned(av, o, n as int),
            maxc < c,
            forall|o: int| 0 <= o < c ==> #[trigger] counts@[o] <= counts@[maxc as int],
            forall|o: int| 0 <= o < maxc ==> #[trigger] counts@[o] < counts@[maxc as int],
    {
        if counts[c] > counts[maxc] {
            maxc = c;
        }
    }
    proof {
        assert forall|o: int| 0 <= o < k implies #[trigger] count_assigned(av, o, n as int)
            <= count_assigned(av, maxc as int, n as int) by {
            assert(counts@[o] <= counts@[maxc as int]);
        }
        assert forall|o: int| 0 <= o < maxc implies #[trigger] count_assigned(av, o, n as int)
            < count_assigned(av, maxc as int, n as int) by {
            assert(counts@[o] < counts@[maxc as int]);
        }
        assert(is_max_members(av, k as int, n as int, maxc as int));
    }

    let mut result: Vec<Vec<i64>> = Vec::new();
    for c in 0..k
        invariant
            n == psv.len(),
            n == av.len(),
            n >= 1,
            psv == patients@,
            av == asg@,
            k == centroids@.len(),
            counts@.len() == k,
            dims == dims_of(psv),
            bounded_records(psv),
            same_dims(psv),
            forall|o: int| 0 <= o < n ==> (#[trigger] av[o]) < k,
            forall|o: int|
                0 <= o < k ==> #[trigger] counts@[o] as int == count_assigned(av, o, n as int),
            forall|o: int| 0 <= o < k ==> (#[trigger] centroids@[o]@).len() == dims,
            forall|o: int| 0 <= o < k ==> #[trigger] centroids.deep_view()[o] == centroids@[o]@,
            is_max_members(av, k as int, n as int, maxc as int),
            maxc < k,
            result@.len() == c,
            forall|o: int| 0 <= o < c ==> #[trigger] result.deep_view()[o] == result@[o]@,
            forall|o: int| 0 <= o < c ==> (#[trigger] result@[o]@).len() == dims,
            forall|o: int, j: int|
                0 <= o < c && 0 <= j < dims && count_assigned(av, o, n as int) > 0 ==> (
                #[trigger] result@[o]@[j]) as int == trunc_div(
                    sum_assigned(psv, av, o, j, n as int),
                    count_assigned(av, o, n as int),
                ) && col_min(psv, j) <= result@[o]@[j] as int <= col_max(psv, j),
            forall|o: int|
                0 <= o < c && count_assigned(av, o, n as int) == 0 ==> (#[trigger] result@[o]@)
                    == centroids@[maxc as int]@,
    {
        if counts[c] > 0 {
            let mut nc: Vec<i64> = Vec::new();
            for j in 0..dims
                invariant
                    n == psv.len(),
                    n == av.len(),
                    n >= 1,
                    psv == patients@,
                    av == asg@,
                    k == centroids@.len(),
                    counts@.len() == k,
                    c < k,
                    dims == dims_of(psv),
                    bounded_records(psv),
                    same_dims(psv),
                    forall|o: int| 0 <= o < n ==> (#[trigger] av[o]) < k,
                    counts@[c as int] as int == count_assigned(av, c as int, n as int),
                    counts@[c as int] > 0,
                    nc@.len() == j,
                    forall|o: int|
                        0 <= o < j ==> (#[trigger] nc@[o]) as int == trunc_div(
                            sum_assigned(psv, av, c as int, o, n as int),
                            count_assigned(av, c as int, n as int),
                        ) && col_min(psv, o) <= nc@[o] as int <= col_max(psv, o),
            {
                let mut s: i128 = 0;
                let mut cnt: usize = 0;
                proof {
                    lemma_col_bounds(psv, j as int, n as int);
                }
                for e in 0..n
                    invariant
                        n == psv.len(),
                        n == av.len(),
                        psv == patients@,
                        av == asg@,
                        c < k,
                        j < dims,
                        dims == dims_of(psv),
                        bounded_records(psv),
                        same_dims(psv),
                        in_limit(col_min(psv, j as int)),
                        in_limit(col_max(psv, j as int)),
                        col_min(psv, j as int) <= col_max(psv, j as int),
                        forall|o: int|
                            0 <= o < n ==> col_min(psv, j as int) <= (#[trigger] psv[o].features@[j as int]) as int <= col_max(psv, j as int),
                        cnt as int == count_assigned(av, c as int, e as int),
                        s as int == sum_assigned(psv, av, c as int, j as int, e as int),
                        cnt <= e,
                        cnt as int * col_min(psv, j as int) <= s as int,
                        s as int <= cnt as int * col_max(psv, j as int),
                        -(e as int) * (FEATURE_LIMIT as int) <= s as int <= (e as int) * (
                        FEATURE_LIMIT as int),
                {
                    if asg[e] == c {
                        let f = patients[e].features[j];
                        proof {
                            let ghost cm = col_min(psv, j as int);
                            let ghost cx = col_max(psv, j as int);
                            assert((cnt as int + 1) * cm == cnt as int * cm + cm)
                                by (nonlinear_arith);
                            assert((cnt as int + 1) * cx == cnt as int * cx + cx)
                                by (nonlinear_arith);
                            assert((e as int + 1) * (FEATURE_LIMIT as int) == (e as int) * (
                            FEATURE_LIMIT as int) + (FEATURE_LIMIT as int)) by (nonlinear_arith);
                            assert(-(e as int + 1) * (FEATURE_LIMIT as int) == -(e as int) * (
                            FEATURE_LIMIT as int) - (FEATURE_LIMIT as int)) by (nonlinear_arith);
                            assert((e as int) * (FEATURE_LIMIT as int) <= 0x1_0000_0000_0000_0000
                                * (FEATURE_LIMIT as int)) by (nonlinear_arith)
                                requires
                                    0 <= e as int <= 0x1_0000_0000_0000_0000,
                            ;
                            assert(-(e as int) * (FEATURE_LIMIT as int) >= -0x1_0000_0000_0000_0000
                                * (FEATURE_LIMIT as int)) by (nonlinear_arith)
                                requires
                                    0 <= e as int <= 0x1_0000_0000_0000_0000,
                            ;
                        }
                        s = s + f as i128;
                        cnt = cnt + 1;
                    } else {
                        proof {
                            assert(count_assigned(av, c as int, e as int + 1) == count_assigned(
                                av,
                                c as int,
                                e as int,
                            ));
                            assert(sum_assigned(psv, av, c as int, j as int, e as int + 1)
                                == sum_assigned(psv, av, c as int, j as int, e as int));
                        }
                    }
                }
                proof {
                    lemma_trunc_div_bounds(
                        s as int,
                        cnt as int,
                        col_min(psv, j as int),
                        col_max(psv, j as int),
                    );
                }
                let q = match s.checked_div(cnt as i128) {
                    Some(q) => q,
                    None => {
                        proof {
                            assert(false);
                        }
                        0
                    },
                };
                proof {
                    assert(q as int == trunc_div(s as int, cnt as int));
                }
                nc.push(q as i64);
            }
            result.push(nc);
            proof {
                assert(result.deep_view()[c as int] =~= result@[c as int]@);
                assert forall|o: int| 0 <= o < c + 1 implies #[trigger] result.deep_view()[o]
                    == result@[o]@ by {
                    assert(result@[o].deep_view() =~= result@[o]@);
                }
            }
        } else {
            result.push(centroids[maxc].clone());
            proof {
                assert(result@[c as int]@ =~= centroids@[maxc as int]@);
                assert forall|o: int| 0 <= o < c + 1 implies #[trigger] result.deep_view()[o]
                    == result@[o]@ by {
                    assert(result@[o].deep_view() =~= result@[o]@);
                }
            }
        }
    }
    proof {
        assert forall|c: int, j: int|
            0 <= c < result@.len() && 0 <= j < dims_of(patients@) && count_assigned(
                asg@,
                c,
                patients@.len() as int,
            ) > 0 implies #[trigger] result.deep_view()[c][j] == trunc_div(
                sum_assigned(patients@, asg@, c, j, patients@.len() as int),
                count_assigned(asg@, c, patients@.len() as int),
            ) && col_min(patients@, j) <= result.deep_view()[c][j] as int <= col_max(
            patients@,
            j,
        ) by {
            assert(result.deep_view()[c] == result@[c]@);
            assert(result@[c]@[j] as int == trunc_div(
                sum_assigned(psv, av, c, j, n as int),
                count_assigned(av, c, n as int),
            ) && col_min(psv, j) <= result@[c]@[j] as int <= col_max(psv, j));
        }
        assert forall|c: int|
            0 <= c < result@.len() && #[trigger] count_assigned(asg@, c, patients@.len() as int)
                == 0 implies exists|m: int|
            #[trigger] is_max_members(asg@, centroids@.len() as int, patients@.len() as int, m)
                && result.deep_view()[c] == centroids.deep_view()[m] by {
            assert(is_max_members(
                asg@,
                centroids@.len() as int,
                patients@.len() as int,
                maxc as int,
            ) && result.deep_view()[c] == centroids.deep_view()[maxc as int]);
        }
    }
    result
}

/// Per-dimension least and greatest feature values over the record set.
fn column_range(patients: &Vec<Patient>) -> (r: (Vec<i64>, Vec<i64>))
    requires
        patients@.len() >= 1,
        bounded_records(patients@),
        same_dims(patients@),
    ensures
        r.0@.len() == dims_of(patients@),
        r.1@.len() == dims_of(patients@),
        forall|j: int|
            0 <= j < dims_of(patients@) ==> (#[trigger] r.0@[j]) as int == col_min(patients@, j),
        forall|j: int|
            0 <= j < dims_of(patients@) ==> (#[trigger] r.1@[j]) as int == col_max(patients@, j),
{
    let n = patients.len();
    let dims = patients[0].features.len();
    let mut lo: Vec<i64> = Vec::new();
    let mut hi: Vec<i64> = Vec::new();
    for j in 0..dims
        invariant
            n == patients@.len(),
            n >= 1,
            dims == dims_of(patients@),
            same_dims(patients@),
            lo@.len() == j,
            hi@.len() == j,
            forall|o: int| 0 <= o < j ==> (#[trigger] lo@[o]) as int == col_min(patients@, o),
            forall|o: int| 0 <= o < j ==> (#[trigger] hi@[o]) as int == col_max(patients@, o),
    {
        let mut mn = patients[0].features[j];
        let mut mx = mn;
        for e in 1..n
            invariant
                n == patients@.len(),
                n >= 1,
                j < dims,
                dims == dims_of(patients@),
                same_dims(patients@),
                mn as int == col_min_to(patients@, j as int, e as int),
                mx as int == col_max_to(patients@, j as int, e as int),
        {
            let v = patients[e].features[j];
            if v < mn {
                mn = v;
            }
            if v > mx {
                mx = v;
            }
        }
        proof {
            assert(mn as int == col_min(patients@, j as int));
            assert(mx as int == col_max(patients@, j as int));
        }
        lo.push(mn);
        hi.push(mx);
    }
    (lo, hi)
}

/// Element-wise equality of two coordinate vectors.
fn vec_i64_eq(a: &Vec<i64>, b: &Vec<i64>) -> (r: bool)
    ensures
        r <==> a@ == b@,
{
    if a.len() != b.len() {
        return false;
    }
    let n = a.len();
    for j in 0..n
        invariant
            n == a@.len(),
            n == b@.len(),
            forall|o: int| 0 <= o < j ==> a@[o] == b@[o],
    {
        if a[j] != b[j] {
            return false;
        }
    }
    proof {
        assert(a@ =~= b@);
    }
    true
}

/// Lloyd-style k-means over the record set, with randomized initialization
/// drawn from the per-dimension range of the data through the
/// caller-supplied generator. The routine runs up to `max_iter` refinement
/// passes (assignment to a nearest centroid, then the mean update of
/// `update_centroids`), stopping early once an update changes no centroid.
/// An empty record set, `k == 0`, `k` above the record count, or records of
/// differing dimensionality are `InvalidInput`. On success there are
/// exactly `k` centroids of the records' dimensionality, every coordinate
/// within the range its feature column spans over the data.
pub fn clustering(
    k: usize,
    patients: &Vec<Patient>,
    max_iter: usize,
    rng: &mut rand::rngs::StdRng,
) -> (r: Result<Vec<Vec<i64>>, Error>)
    requires
        bounded_records(patients@),
    ensures
        r matches Ok(cents) ==> cents@.len() == k && (forall|c: int|
            0 <= c < cents@.len() ==> (#[trigger] cents.deep_view()[c]).len() == dims_of(
                patients@,
            )) && centroids_in_range(cents.deep_view(), patients@),
        (r matches Ok(_)) <==> (1 <= k <= patients@.len() && same_dims(patients@)),
        r matches Err(e) ==> e == Error::InvalidInput,
{
    if k == 0 || patients.len() == 0 || k > patients.len() {
        return Err(Error::InvalidInput);
    }
    let n = patients.len();
    let dims = patients[0].features.len();
    for e in 0..n
        invariant
            n == patients@.len(),
            n >= 1,
            dims == dims_of(patients@),
            forall|o: int| 0 <= o < e ==> (#[trigger] patients@[o].features@).len() == dims,
    {
        if patients[e].features.len() != dims {
            proof {
                assert(!same_dims(patients@));
            }
            return Err(Error::InvalidInput);
        }
    }
    proof {
        assert(same_dims(patients@));
    }

    let (lo, hi) = column_range(patients);
    let mut centroids: Vec<Vec<i64>> = Vec::new();
    for c in 0..k
        invariant
            n == patients@.len(),
            n >= 1,
            dims == dims_of(patients@),
            bounded_records(patients@),
            same_dims(patients@),
            lo@.len() == dims,
            hi@.len() == dims,
            forall|o: int| 0 <= o < dims ==> (#[trigger] lo@[o]) as int == col_min(patients@, o),
            forall|o: int| 0 <= o < dims ==> (#[trigger] hi@[o]) as int == col_max(patients@, o),
            centroids@.len() == c,
            forall|o: int| 0 <= o < c ==> (#[trigger] centroids@[o]@).len() == dims,
            forall|o: int, j: int|
                0 <= o < c && 0 <= j < dims ==> col_min(patients@, j) <= (
                #[trigger] centroids@[o]@[j]) as int <= col_max(patients@, j),
    {
        let mut cent: Vec<i64> = Vec::new();
        for j in 0..dims
            invariant
                n == patients@.len(),
                n >= 1,
                dims == dims_of(patients@),
                bounded_records(patients@),
                same_dims(patients@),
                lo@.len() == dims,
                hi@.len() == dims,
                forall|o: int|
                    0 <= o < dims ==> (#[trigger] lo@[o]) as int == col_min(patients@, o),
                forall|o: int|
                    0 <= o < dims ==> (#[trigger] hi@[o]) as int == col_max(patients@, o),
                cent@.len() == j,
                forall|o: int|
                    0 <= o < j ==> col_min(patients@, o) <= (#[trigger] cent@[o]) as int
                        <= col_max(patients@, o),
        {
            proof {
                lemma_col_bounds(patients@, j as int, n as int);
            }
            let v = gen_range_inclusive(rng, lo[j], hi[j]);
            cent.push(v);
        }
        centroids.push(cent);
    }
    proof {
        lemma_centroid_views(centroids);
        assert(centroids_in_range(centroids.deep_view(), patients@));
    }

    let mut it: usize = 0;
    while it < max_iter
        invariant
            it <= max_iter,
            n == patients@.len(),
            n >= 1,
            1 <= k <= n,
            dims == dims_of(patients@),
            bounded_records(patients@),
            same_dims(patients@),
            centroids@.len() == k,
            forall|o: int| 0 <= o < k ==> (#[trigger] centroids@[o]@).len() == dims,
            centroids_in_range(centroids.deep_view(), patients@),
        decreases max_iter - it,
    {
        proof {
            lemma_centroid_views(centroids);
            lemma_range_implies_fits(centroids.deep_view(), patients@);
            assert forall|o: int| 0 <= o < k implies vec_fits((#[trigger] centroids@[o])@) by {
                assert(vec_fits(centroids.deep_view()[o]));
            }
        }
        let asg = assign_core(patients, &centroids);
        proof {
            assert forall|e: int| 0 <= e < asg@.len() implies (#[trigger] asg@[e])
                < centroids@.len() by {
                assert(is_nearest(centroids.deep_view(), patients@[e].features@, asg@[e] as int));
            }
        }
        let new_cents = update_centroids(patients, &asg, &centroids);
        proof {
            lemma_centroid_views(new_cents);
            assert forall|o: int| 0 <= o < k implies (#[trigger] new_cents@[o]@).len() == dims by {
                assert(new_cents.deep_view()[o].len() == dims_of(patients@));
            }
            assert forall|c: int, j: int|
                0 <= c < new_cents@.len() && 0 <= j < dims implies col_min(patients@, j) <= (
            #[trigger] new_cents.deep_view()[c][j]) as int <= col_max(patients@, j) by {
                assert(new_cents@.len() == centroids@.len());
                assert(new_cents.deep_view()[c].len() == dims_of(patients@));
                if count_assigned(asg@, c, patients@.len() as int) > 0 {
                    assert(col_min(patients@, j) <= new_cents.deep_view()[c][j] as int <= col_max(
                        patients@,
                        j,
                    ));
                } else {
                    assert(0 <= c < new_cents@.len());
                    lemma_count_assigned_bounds(asg@, c, patients@.len() as int);
                    assert(count_assigned(asg@, c, patients@.len() as int) == 0);
                    assert(exists|m: int|
                        #[trigger] is_max_members(
                            asg@,
                            centroids@.len() as int,
                            patients@.len() as int,
                            m,
                        ) && new_cents.deep_view()[c] == centroids.deep_view()[m]);
                    let m = choose|m: int|
                        #[trigger] is_max_members(
                            asg@,
                            centroids@.len() as int,
                            patients@.len() as int,
                            m,
                        ) && new_cents.deep_view()[c] == centroids.deep_view()[m];
                    assert(centroids.deep_view()[m] == centroids@[m]@);
                    assert(col_min(patients@, j) <= (centroids.deep_view()[m][j]) as int
                        <= col_max(patients@, j));
                }
            }
            assert(centroids_in_range(new_cents.deep_view(), patients@));
        }
        let mut converged = true;
        for c in 0..k
            invariant
                k == centroids@.len(),
                k == new_cents@.len(),
        {
            if !vec_i64_eq(&new_cents[c], &centroids[c]) {
                converged = false;
            }
        }
        centroids = new_cents;
        it = it + 1;
        if converged {
            it = max_iter;
        }
    }
    proof {
        lemma_centroid_views(centroids);
    }
    Ok(centroids)
}

} // verus!
