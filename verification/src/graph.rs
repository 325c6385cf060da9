//! The similarity graph builder: an undirected, loop-free graph over record
//! indices, with an edge wherever two records nearly match in a large
//! enough fraction of their feature dimensions.

use crate::model::{abs_of, bounded_records, same_dims, DIM_LIMIT};
use crate::patient::{Error, Patient};
use vstd::prelude::*;

verus! {

/// In how many of the first `n` dimensions the two vectors differ by less
/// than `eps`.
pub open spec fn near_count_to(a: Seq<i64>, b: Seq<i64>, eps: int, n: int) -> int
    decreases n,
{
    if n <= 0 {
        0
    } else {
        near_count_to(a, b, eps, n - 1) + if abs_of(a[n - 1] - b[n - 1]) < eps {
            1int
        } else {
            0int
        }
    }
}

/// In how many dimensions the two vectors differ by less than `eps`.
pub open spec fn near_count(a: Seq<i64>, b: Seq<i64>, eps: int) -> int {
    near_count_to(a, b, eps, a.len() as int)
}

/// The two records carry an edge: they are distinct, and the fraction of
/// near-matching dimensions reaches the threshold (in thousandths), checked
/// by cross-multiplication so the comparison is exact.
pub open spec fn sim_edge(ps: Seq<Patient>, thr: int, eps: int, i: int, j: int) -> bool {
    i != j && 1000 * near_count(ps[i].features@, ps[j].features@, eps) >= thr * ps[i].features@.len()
}

/// The adjacency matrix holds exactly the edges of the similarity graph of
/// the record set: building is a function of records, threshold and epsilon
/// alone.
pub open spec fn graph_built(adj: Seq<Seq<bool>>, ps: Seq<Patient>, thr: int, eps: int) -> bool {
    &&& adj.len() == ps.len()
    &&& forall|i: int| 0 <= i < adj.len() ==> (#[trigger] adj[i]).len() == ps.len()
    &&& forall|i: int, j: int|
        0 <= i < adj.len() && 0 <= j < adj.len() ==> #[trigger] adj[i][j] == sim_edge(
            ps,
            thr,
            eps,
            i,
            j,
        )
}

/// An undirected, loop-free graph over the node indices `0 .. n`, as a
/// square symmetric adjacency matrix with a false diagonal.
pub struct Graph {
    pub adj: Vec<Vec<bool>>,
}

impl Graph {
    /// The adjacency matrix as a mathematical value.
    pub open spec fn m(&self) -> Seq<Seq<bool>> {
        self.adj.deep_view()
    }

    /// The number of nodes.
    pub open spec fn n(&self) -> int {
        self.adj@.len() as int
    }

    /// Square, loop-free and symmetric.
    pub open spec fn wf(&self) -> bool {
        &&& self.m().len() == self.n()
        &&& forall|i: int| 0 <= i < self.n() ==> (#[trigger] self.m()[i]).len() == self.n()
        &&& forall|i: int| 0 <= i < self.n() ==> !(#[trigger] self.m()[i][i])
        &&& forall|i: int, j: int|
            0 <= i < self.n() && 0 <= j < self.n() ==> #[trigger] self.m()[i][j] == self.m()[j][i]
    }

    /// The number of nodes, for callers.
    pub fn node_count(&self) -> (r: usize)
        ensures
            r == self.n(),
    {
        self.adj.len()
    }
}

/// Counting near-matches does not depend on the order of the two vectors.
pub proof fn lemma_near_count_symm(a: Seq<i64>, b: Seq<i64>, eps: int, n: int)
    requires
        0 <= n,
    ensures
        near_count_to(a, b, eps, n) == near_count_to(b, a, eps, n),
    decreases n,
{
    if n > 0 {
        lemma_near_count_symm(a, b, eps, n - 1);
    }
}

/// The rows of the adjacency matrix index to the views of its vectors.
pub proof fn lemma_adj_views(adj: Vec<Vec<bool>>)
    ensures
        adj.deep_view().len() == adj@.len(),
        forall|i: int| 0 <= i < adj@.len() ==> #[trigger] adj.deep_view()[i] == adj@[i]@,
{
    assert forall|i: int| 0 <= i < adj@.len() implies #[trigger] adj.deep_view()[i] == adj@[i]@ by {
        assert(adj@[i].deep_view() =~= adj@[i]@);
    }
}

/// Whether two same-length vectors nearly match in a fraction of at least
/// `threshold_milli` thousandths of their dimensions.
fn similar(a: &Vec<i64>, b: &Vec<i64>, threshold_milli: u32, epsilon: i64) -> (r: bool)
    requires
        a@.len() == b@.len(),
        a@.len() <= DIM_LIMIT,
    ensures
        r == (1000 * near_count(a@, b@, epsilon as int) >= (threshold_milli as int) * a@.len()),
{
    let n = a.len();
    let mut matches: u64 = 0;
    for j in 0..n
        invariant
            n == a@.len(),
            n == b@.len(),
            n <= DIM_LIMIT,
            matches as int == near_count_to(a@, b@, epsilon as int, j as int),
            matches <= j,
    {
        let d: i128 = a[j] as i128 - b[j] as i128;
        let mag: i128 = if d < 0 {
            -d
        } else {
            d
        };
        if mag < epsilon as i128 {
            matches = matches + 1;
        }
    }
    proof {
        assert((threshold_milli as int) * (n as int) <= 0x1_0000_0000 * (DIM_LIMIT as int))
            by (nonlinear_arith)
            requires
                0 <= threshold_milli as int <= 0x1_0000_0000,
                0 <= n as int <= DIM_LIMIT as int,
        ;
    }
    1000 * matches >= (threshold_milli as u64) * (n as u64)
}

/// Builds the similarity graph over the record set: nodes are the record
/// indices, and an edge joins every unordered pair of distinct records
/// whose similarity — the count of dimensions differing by less than
/// `epsilon`, as a fraction of all dimensions — reaches `threshold_milli`
/// thousandths. The comparison is made by cross-multiplication, so it is
/// exact, and the result is a function of the inputs alone: building twice
/// from the same records and threshold yields an identical adjacency.
/// Records of differing dimensionality are `InvalidInput`.
pub fn build_graph(patients: &Vec<Patient>, threshold_milli: u32, epsilon: i64) -> (r: Result<
    Graph,
    Error,
>)
    requires
        bounded_records(patients@),
    ensures
        (r matches Ok(_)) <==> same_dims(patients@),
        r matches Err(e) ==> e == Error::InvalidInput,
        r matches Ok(g) ==> g.wf() && g.n() == patients@.len() && graph_built(
            g.m(),
            patients@,
            threshold_milli as int,
            epsilon as int,
        ),
{
    let n = patients.len();
    if n > 0 {
        let d0 = patients[0].features.len();
        for e in 0..n
            invariant
                n == patients@.len(),
                n >= 1,
                d0 == patients@[0].features@.len(),
                forall|o: int| 0 <= o < e ==> (#[trigger] patients@[o].features@).len() == d0,
        {
            if patients[e].features.len() != d0 {
                proof {
                    assert(!same_dims(patients@));
                }
                return Err(Error::InvalidInput);
            }
        }
    }
    proof {
        assert(same_dims(patients@));
    }
    let mut adj: Vec<Vec<bool>> = Vec::new();
    for i in 0..n
        invariant
            n == patients@.len(),
            bounded_records(patients@),
            same_dims(patients@),
            adj@.len() == i,
            forall|o: int| 0 <= o < i ==> (#[trigger] adj@[o]@).len() == n,
            forall|o: int, p: int|
                0 <= o < i && 0 <= p < n ==> #[trigger] adj@[o]@[p] == sim_edge(
                    patients@,
                    threshold_milli as int,
                    epsilon as int,
                    o,
                    p,
                ),
    {
        let mut row: Vec<bool> = Vec::new();
        for j in 0..n
            invariant
                n == patients@.len(),
                i < n,
                bounded_records(patients@),
                same_dims(patients@),
                row@.len() == j,
                forall|p: int|
                    0 <= p < j ==> #[trigger] row@[p] == sim_edge(
                        patients@,
                        threshold_milli as int,
                        epsilon as int,
                        i as int,
                        p,
                    ),
        {
            let v: bool = if i == j {
                false
            } else {
                similar(&patients[i].features, &patients[j].features, threshold_milli, epsilon)
            };
            row.push(v);
        }
        adj.push(row);
    }
    proof {
        lemma_adj_views(adj);
    }
    let g = Graph { adj };
    proof {
        assert(graph_built(g.m(), patients@, threshold_milli as int, epsilon as int));
        assert forall|i: int, j: int| 0 <= i < g.n() && 0 <= j < g.n() implies #[trigger] g.m(
        )[i][j] == g.m()[j][i] by {
            lemma_near_count_symm(
                patients@[i].features@,
                patients@[j].features@,
                epsilon as int,
                patients@[i].features@.len() as int,
            );
        }
        assert(g.wf());
    }
    Ok(g)
}

/// The similarity-graph build is deterministic, hence idempotent: two
/// adjacency matrices built from the same records, threshold and epsilon
/// are identical, row by row.
pub proof fn lemma_build_graph_deterministic(
    g1: Graph,
    g2: Graph,
    ps: Seq<Patient>,
    thr: int,
    eps: int,
)
    requires
        graph_built(g1.m(), ps, thr, eps),
        graph_built(g2.m(), ps, thr, eps),
    ensures
        g1.m().len() == g2.m().len(),
        forall|i: int| 0 <= i < g1.m().len() ==> #[trigger] g1.m()[i] == g2.m()[i],
{
    assert forall|i: int| 0 <= i < g1.m().len() implies #[trigger] g1.m()[i] == g2.m()[i] by {
        assert(g1.m()[i] =~= g2.m()[i]);
    }
}

} // verus!
