//! Per-column medians of a record set, computed on a verified sort.

use crate::model::{bounded_records, dims_of, fits, same_dims, trunc_div, vec_fits, FEATURE_LIMIT};
use crate::patient::Patient;
use vstd::prelude::*;

verus! {

/// The sequence is ordered ascending.
pub open spec fn sorted_asc(s: Seq<i64>) -> bool {
    forall|a: int, b: int| 0 <= a <= b < s.len() ==> s[a] <= s[b]
}

/// Feature column `j` of the record set, in record order.
pub open spec fn column(ps: Seq<Patient>, j: int) -> Seq<i64> {
    ps.map_values(|p: Patient| p.features@[j])
}

/// The median of an ascending sequence: the middle element, or for an even
/// length the mean of the two middle elements, truncated toward zero.
pub open spec fn median_of_sorted(t: Seq<i64>) -> int {
    if t.len() % 2 == 0 {
        trunc_div(t[t.len() as int / 2 - 1] + t[t.len() as int / 2], 2)
    } else {
        t[t.len() as int / 2] as int
    }
}

/// `v` is the median of the multiset of values in `col`: the median of the
/// ascending reordering of `col`.
pub open spec fn is_median(col: Seq<i64>, v: i64) -> bool {
    exists|t: Seq<i64>|
        #![trigger sorted_asc(t)]
        t.to_multiset() == col.to_multiset() && sorted_asc(t) && v as int == median_of_sorted(t)
}

/// Two sequences with one multiset of values are bounded together.
proof fn lemma_multiset_fits(a: Seq<i64>, b: Seq<i64>)
    requires
        a.to_multiset() == b.to_multiset(),
        vec_fits(b),
    ensures
        vec_fits(a),
        a.len() == b.len(),
{
    broadcast use vstd::seq_lib::group_to_multiset_ensures;

    assert(a.to_multiset().len() == a.len());
    assert(b.to_multiset().len() == b.len());
    assert forall|i: int| 0 <= i < a.len() implies fits(#[trigger] a[i]) by {
        assert(a.contains(a[i]));
        assert(a.to_multiset().count(a[i]) > 0);
        assert(b.contains(a[i]));
        let w = choose|w: int| 0 <= w < b.len() && b[w] == a[i];
        assert(fits(b[w]));
    }
}

/// Sorts the values ascending by repeatedly extracting a minimum; the
/// result holds exactly the input's multiset of values.
fn sort_i64(v: Vec<i64>) -> (r: Vec<i64>)
    ensures
        r@.to_multiset() == v@.to_multiset(),
        sorted_asc(r@),
        r@.len() == v@.len(),
{
    let ghost orig = v@;
    let mut work = v;
    let mut out: Vec<i64> = Vec::new();
    proof {
        broadcast use vstd::seq_lib::group_to_multiset_ensures;

        assert(out@.to_multiset().add(work@.to_multiset()) =~= orig.to_multiset());
    }
    while work.len() > 0
        invariant
            out@.to_multiset().add(work@.to_multiset()) == orig.to_multiset(),
            out@.len() + work@.len() == orig.len(),
            sorted_asc(out@),
            forall|i: int, w: int|
                0 <= i < out@.len() && 0 <= w < work@.len() ==> #[trigger] out@[i]
                    <= #[trigger] work@[w],
        decreases work@.len(),
    {
        let mut mi: usize = 0;
        let wn = work.len();
        for t in 1..wn
            invariant
                wn == work@.len(),
                wn >= 1,
                mi < t,
                forall|o: int| 0 <= o < t ==> work@[mi as int] <= #[trigger] work@[o],
        {
            if work[t] < work[mi] {
                mi = t;
            }
        }
        let ghost prev_out = out@;
        let ghost prev_work = work@;
        let x = work.remove(mi);
        out.push(x);
        proof {
            broadcast use vstd::seq_lib::group_to_multiset_ensures;

            assert(prev_work.contains(x));
            assert(work@.to_multiset() =~= prev_work.to_multiset().remove(x));
            assert(out@.to_multiset() =~= prev_out.to_multiset().insert(x));
            assert(out@.to_multiset().add(work@.to_multiset()) =~= prev_out.to_multiset().add(
                prev_work.to_multiset(),
            ));
            assert forall|i: int, w: int|
                0 <= i < out@.len() && 0 <= w < work@.len() implies #[trigger] out@[i]
                <= #[trigger] work@[w] by {
                if w < mi {
                    assert(work@[w] == prev_work[w]);
                } else {
                    assert(work@[w] == prev_work[w + 1]);
                }
            }
        }
    }
    out
}

/// For every feature column, the median of the values that the records
/// take in it: the middle of the ascending reordering of the column, or
/// for an even record count the mean of the two middle values, truncated
/// toward zero.
pub fn calculate_median(patients: &Vec<Patient>) -> (r: Vec<i64>)
    requires
        patients@.len() >= 1,
        bounded_records(patients@),
        same_dims(patients@),
    ensures
        r@.len() == dims_of(patients@),
        forall|j: int|
            0 <= j < dims_of(patients@) ==> is_median(column(patients@, j), #[trigger] r@[j]),
{
    let n = patients.len();
    let dims = patients[0].features.len();
    let mut medians: Vec<i64> = Vec::new();
    for j in 0..dims
        invariant
            n == patients@.len(),
            n >= 1,
            dims == dims_of(patients@),
            bounded_records(patients@),
            same_dims(patients@),
            medians@.len() == j,
            forall|o: int|
                0 <= o < j ==> is_median(column(patients@, o), #[trigger] medians@[o]),
    {
        let mut col: Vec<i64> = Vec::new();
        for e in 0..n
            invariant
                n == patients@.len(),
                j < dims,
                dims == dims_of(patients@),
                bounded_records(patients@),
                same_dims(patients@),
                col@.len() == e,
                forall|o: int| 0 <= o < e ==> #[trigger] col@[o] == patients@[o].features@[j as int],
        {
            col.push(patients[e].features[j]);
        }
        proof {
            assert(col@ =~= column(patients@, j as int));
            assert(vec_fits(col@));
        }
        let ghost colv = col@;
        let sorted = sort_i64(col);
        proof {
            lemma_multiset_fits(sorted@, colv);
        }
        let len = sorted.len();
        let med: i64;
        if len % 2 == 0 {
            let a = sorted[len / 2 - 1];
            let b = sorted[len / 2];
            let q = match (a as i128 + b as i128).checked_div(2) {
                Some(q) => q,
                None => {
                    proof {
                        assert(false);
                    }
                    0
                },
            };
            proof {
                assert(q as int == trunc_div(a as int + b as int, 2));
                assert(-(FEATURE_LIMIT as int) <= q as int <= FEATURE_LIMIT as int) by {
                    crate::model::lemma_trunc_div_bounds(
                        a as int + b as int,
                        2,
                        -(FEATURE_LIMIT as int),
                        FEATURE_LIMIT as int,
                    );
                }
            }
            med = q as i64;
        } else {
            med = sorted[len / 2];
        }
        medians.push(med);
        proof {
            assert(sorted_asc(sorted@) && sorted@.to_multiset() == column(
                patients@,
                j as int,
            ).to_multiset() && med as int == median_of_sorted(sorted@));
            assert(is_median(column(patients@, j as int), med));
        }
    }
    medians
}

} // verus!
