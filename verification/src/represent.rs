//! The representative selector: one unmodified member per non-empty
//! cluster, the member closest to the cluster's centroid by mean absolute
//! deviation.

use crate::distance::l1_exec;
use crate::model::{is_best_rep, l1, lemma_nonempty_before_mono, nonempty_before, vec_fits};
use crate::patient::Patient;
use vstd::prelude::*;

verus! {

/// Picks, for every non-empty cluster, the member whose mean absolute
/// deviation to the cluster's centroid — the L1 distance divided by the
/// dimension count, so at one dimension count ordered exactly as the L1
/// distance — is least, ties resolved to the first-encountered member. The
/// selected pair is an unmodified member's feature vector and label. An
/// empty cluster contributes nothing, so the output can be shorter than
/// the cluster list. The `k` parameter is kept for callers that pass the
/// cluster count alongside; the cluster list itself decides the output.
pub fn find_best_representatives(
    k: usize,
    centroids: &Vec<Vec<i64>>,
    clusters: &Vec<Vec<Patient>>,
) -> (r: Vec<(Vec<i64>, u8)>)
    requires
        clusters@.len() == centroids@.len(),
        forall|c: int| 0 <= c < centroids@.len() ==> vec_fits((#[trigger] centroids@[c])@),
        forall|c: int, m: int|
            0 <= c < clusters@.len() && 0 <= m < clusters@[c]@.len() ==> (#[trigger] clusters@[c]@[m].features@).len() == centroids@[c]@.len() && vec_fits(
                clusters@[c]@[m].features@,
            ),
    ensures
        r@.len() == nonempty_before(clusters@, clusters@.len() as int),
        forall|c: int|
            0 <= c < clusters@.len() && (#[trigger] clusters@[c]@).len() > 0 ==> exists|m: int|
                #[trigger] is_best_rep(clusters@[c]@, centroids@[c]@, m) && r@[nonempty_before(
                    clusters@,
                    c,
                )].0@ == clusters@[c]@[m].features@ && r@[nonempty_before(clusters@, c)].1
                    == clusters@[c]@[m].diagnosis,
{
    let _ = k;
    let nclusters = clusters.len();
    let mut reps: Vec<(Vec<i64>, u8)> = Vec::new();
    for c in 0..nclusters
        invariant
            nclusters == clusters@.len(),
            clusters@.len() == centroids@.len(),
            forall|o: int| 0 <= o < centroids@.len() ==> vec_fits((#[trigger] centroids@[o])@),
            forall|o: int, m: int|
                0 <= o < clusters@.len() && 0 <= m < clusters@[o]@.len() ==> (#[trigger] clusters@[o]@[m].features@).len() == centroids@[o]@.len() && vec_fits(
                    clusters@[o]@[m].features@,
                ),
            reps@.len() == nonempty_before(clusters@, c as int),
            forall|o: int|
                0 <= o < c && (#[trigger] clusters@[o]@).len() > 0 ==> exists|m: int|
                    #[trigger] is_best_rep(clusters@[o]@, centroids@[o]@, m) && reps@[
                        nonempty_before(clusters@, o)
                    ].0@ == clusters@[o]@[m].features@ && reps@[nonempty_before(clusters@, o)].1
                        == clusters@[o]@[m].diagnosis,
    {
        let cluster = &clusters[c];
        let nm = cluster.len();
        if nm > 0 {
            let cent = &centroids[c];
            let mut best: usize = 0;
            let mut best_d: i128 = l1_exec(&cluster[0].features, cent);
            for m in 1..nm
                invariant
                    nm == cluster@.len(),
                    nm >= 1,
                    cluster@ == clusters@[c as int]@,
                    c < clusters@.len(),
                    clusters@.len() == centroids@.len(),
                    cent@ == centroids@[c as int]@,
                    vec_fits(cent@),
                    forall|o: int|
                        0 <= o < cluster@.len() ==> (#[trigger] cluster@[o].features@).len()
                            == cent@.len() && vec_fits(cluster@[o].features@),
                    best < m,
                    best_d == l1(cluster@[best as int].features@, cent@),
                    forall|o: int|
                        0 <= o < m ==> best_d <= l1((#[trigger] cluster@[o]).features@, cent@),
                    forall|o: int|
                        0 <= o < best ==> l1((#[trigger] cluster@[o]).features@, cent@) > best_d,
            {
                let d = l1_exec(&cluster[m].features, cent);
                if d < best_d {
                    best = m;
                    best_d = d;
                }
            }
            let ghost prev = reps@;
            reps.push((cluster[best].features.clone(), cluster[best].diagnosis));
            proof {
                assert(is_best_rep(clusters@[c as int]@, centroids@[c as int]@, best as int));
                assert(nonempty_before(clusters@, c + 1) == nonempty_before(clusters@, c as int)
                    + 1);
                assert(reps@[nonempty_before(clusters@, c as int)].0@ == clusters@[c as int]@[
                    best as int
                ].features@);
                assert forall|o: int|
                    0 <= o < c + 1 && (#[trigger] clusters@[o]@).len() > 0 implies exists|m: int|
                    #[trigger] is_best_rep(clusters@[o]@, centroids@[o]@, m) && reps@[
                        nonempty_before(clusters@, o)
                    ].0@ == clusters@[o]@[m].features@ && reps@[nonempty_before(clusters@, o)].1
                        == clusters@[o]@[m].diagnosis by {
                    lemma_nonempty_before_mono(clusters@, o, c as int);
                    if o < c {
                        lemma_nonempty_before_mono(clusters@, o + 1, c as int);
                        assert(reps@[nonempty_before(clusters@, o)] == prev[nonempty_before(
                            clusters@,
                            o,
                        )]);
                    }
                }
            }
        } else {
            proof {
                assert(nonempty_before(clusters@, c + 1) == nonempty_before(clusters@, c as int));
            }
        }
    }
    reps
}

} // verus!
