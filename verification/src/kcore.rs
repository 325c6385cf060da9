//! The k-core decomposition engine: a state machine over a working copy of
//! the graph that peels low-degree nodes to a fixpoint, extracts the
//! remaining dense core, strips it, and repeats.
//!
//! The working copy is an `alive` mask over the canonical adjacency: a
//! peeled node drops out of the mask, which removes all its edges at once,
//! so degrees are always counted within the mask.

use crate::graph::Graph;
use vstd::prelude::*;

verus! {

/// How many of the first `n` mask entries are set.
pub open spec fn count_true_to(sel: Seq<bool>, n: int) -> int
    decreases n,
{
    if n <= 0 {
        0
    } else {
        count_true_to(sel, n - 1) + if sel[n - 1] {
            1int
        } else {
            0int
        }
    }
}

/// How many mask entries are set: the size of the remaining node set.
pub open spec fn count_true(sel: Seq<bool>) -> int {
    count_true_to(sel, sel.len() as int)
}

/// Degree of `v` counted over the first `n` nodes of the mask `sel`.
pub open spec fn deg_to(adj: Seq<Seq<bool>>, sel: Seq<bool>, v: int, n: int) -> int
    decreases n,
{
    if n <= 0 {
        0
    } else {
        deg_to(adj, sel, v, n - 1) + if sel[n - 1] && adj[v][n - 1] {
            1int
        } else {
            0int
        }
    }
}

/// Degree of `v` within the node set `sel`: its neighbours in the mask.
pub open spec fn deg(adj: Seq<Seq<bool>>, sel: Seq<bool>, v: int) -> int {
    deg_to(adj, sel, v, sel.len() as int)
}

/// Every node of mask `a` is a node of mask `b`.
pub open spec fn subset_sel(a: Seq<bool>, b: Seq<bool>) -> bool {
    a.len() == b.len() && forall|v: int| 0 <= v < a.len() && #[trigger] a[v] ==> b[v]
}

/// The node set `d` is k-dense: every node of it has at least `k`
/// neighbours within it. The k-core is the greatest such set.
pub open spec fn dense(adj: Seq<Seq<bool>>, d: Seq<bool>, k: int) -> bool {
    d.len() == adj.len() && forall|v: int| 0 <= v < d.len() && #[trigger] d[v] ==> deg(adj, d, v)
        >= k
}

/// The node list as a mask over `0 .. n`.
pub open spec fn mask_of(core: Seq<usize>, n: int) -> Seq<bool> {
    Seq::new(n as nat, |v: int| core.contains(v as usize))
}

/// Degrees are non-negative and bounded by the nodes counted.
pub proof fn lemma_deg_bounds(adj: Seq<Seq<bool>>, sel: Seq<bool>, v: int, n: int)
    requires
        0 <= n,
    ensures
        0 <= deg_to(adj, sel, v, n) <= n,
    decreases n,
{
    if n > 0 {
        lemma_deg_bounds(adj, sel, v, n - 1);
    }
}

/// A larger node set gives every node at least the degree it had.
pub proof fn lemma_deg_mono(adj: Seq<Seq<bool>>, s1: Seq<bool>, s2: Seq<bool>, v: int, n: int)
    requires
        0 <= n <= s1.len(),
        subset_sel(s1, s2),
    ensures
        deg_to(adj, s1, v, n) <= deg_to(adj, s2, v, n),
    decreases n,
{
    if n > 0 {
        lemma_deg_mono(adj, s1, s2, v, n - 1);
    }
}

/// A positive degree names a neighbour in the mask.
pub proof fn lemma_deg_pos_witness(adj: Seq<Seq<bool>>, sel: Seq<bool>, v: int, n: int)
    requires
        0 <= n,
        deg_to(adj, sel, v, n) >= 1,
    ensures
        exists|w: int| 0 <= w < n && #[trigger] sel[w] && adj[v][w],
    decreases n,
{
    if n > 0 && deg_to(adj, sel, v, n - 1) >= 1 {
        lemma_deg_pos_witness(adj, sel, v, n - 1);
        let w = choose|w: int| 0 <= w < n - 1 && #[trigger] sel[w] && adj[v][w];
        assert(0 <= w < n && sel[w] && adj[v][w]);
    } else {
        assert(sel[n - 1] && adj[v][n - 1]);
    }
}

/// A neighbour in the mask gives a positive degree.
pub proof fn lemma_deg_at_least(adj: Seq<Seq<bool>>, sel: Seq<bool>, v: int, w: int, n: int)
    requires
        0 <= w < n,
        sel[w],
        adj[v][w],
    ensures
        deg_to(adj, sel, v, n) >= 1,
    decreases n,
{
    lemma_deg_bounds(adj, sel, v, n - 1);
    if w < n - 1 {
        lemma_deg_at_least(adj, sel, v, w, n - 1);
    }
}

/// Counting set entries is monotone under mask inclusion, and strictly so
/// past an entry only the larger mask sets.
pub proof fn lemma_count_true_le(a: Seq<bool>, b: Seq<bool>, n: int)
    requires
        subset_sel(a, b),
        0 <= n <= a.len(),
    ensures
        count_true_to(a, n) <= count_true_to(b, n),
        forall|v: int|
            0 <= v < n && !a[v] && #[trigger] b[v] ==> count_true_to(a, n) < count_true_to(b, n),
    decreases n,
{
    if n > 0 {
        lemma_count_true_le(a, b, n - 1);
    }
}

/// Clearing one mask entry lowers the count by one when it was set,
/// and by nothing when it was not.
pub proof fn lemma_count_true_clear(sel: Seq<bool>, i: int, n: int)
    requires
        0 <= i < sel.len(),
        0 <= n <= sel.len(),
    ensures
        count_true_to(sel.update(i, false), n) == count_true_to(sel, n) - if i < n && sel[i] {
            1int
        } else {
            0int
        },
    decreases n,
{
    if n > 0 {
        lemma_count_true_clear(sel, i, n - 1);
    }
}

/// A count of set entries lies between zero and the entries counted.
pub proof fn lemma_count_true_nonneg(sel: Seq<bool>, n: int)
    requires
        0 <= n,
    ensures
        0 <= count_true_to(sel, n) <= n,
    decreases n,
{
    if n > 0 {
        lemma_count_true_nonneg(sel, n - 1);
    }
}

/// Degree of `v` among the still-alive nodes.
fn degree_of(g: &Graph, alive: &Vec<bool>, v: usize) -> (d: usize)
    requires
        g.wf(),
        alive@.len() == g.n(),
        v < g.n(),
    ensures
        d as int == deg(g.m(), alive@, v as int),
{
    proof {
        crate::graph::lemma_adj_views(g.adj);
    }
    let n = alive.len();
    let mut d: usize = 0;
    for w in 0..n
        invariant
            g.wf(),
            n == alive@.len(),
            n == g.n(),
            v < n,
            forall|o: int| 0 <= o < n ==> #[trigger] g.m()[o] == g.adj@[o]@,
            d as int == deg_to(g.m(), alive@, v as int, w as int),
            d <= w,
    {
        if alive[w] && g.adj[v][w] {
            d = d + 1;
        }
    }
    d
}

/// Whether any node is still alive.
fn any_alive(alive: &Vec<bool>) -> (r: bool)
    ensures
        r == exists|v: int| 0 <= v < alive@.len() && #[trigger] alive@[v],
{
    let n = alive.len();
    for v in 0..n
        invariant
            n == alive@.len(),
            forall|o: int| 0 <= o < v ==> !(#[trigger] alive@[o]),
    {
        if alive[v] {
            return true;
        }
    }
    false
}

/// One peeling pass: every alive node whose current degree within the
/// alive set is below `k` is removed, all of them simultaneously, so the
/// removals of one pass only show in the next pass's degrees. Returns
/// whether the pass removed anything.
pub fn peel_once(g: &Graph, alive: &mut Vec<bool>, k: usize) -> (changed: bool)
    requires
        g.wf(),
        old(alive)@.len() == g.n(),
    ensures
        final(alive)@.len() == g.n(),
        forall|v: int|
            0 <= v < g.n() ==> #[trigger] final(alive)@[v] == (old(alive)@[v] && deg(
                g.m(),
                old(alive)@,
                v,
            ) >= k),
        changed ==> exists|v: int|
            0 <= v < g.n() && #[trigger] old(alive)@[v] && deg(g.m(), old(alive)@, v) < k,
        !changed ==> forall|v: int|
            0 <= v < g.n() && #[trigger] old(alive)@[v] ==> deg(g.m(), old(alive)@, v) >= k,
{
    let ghost prev = alive@;
    let n = alive.len();
    let mut next: Vec<bool> = Vec::new();
    let mut changed = false;
    for v in 0..n
        invariant
            g.wf(),
            n == alive@.len(),
            n == g.n(),
            alive@ == prev,
            next@.len() == v,
            forall|o: int|
                0 <= o < v ==> #[trigger] next@[o] == (prev[o] && deg(g.m(), prev, o) >= k),
            changed ==> exists|o: int|
                0 <= o < v && #[trigger] prev[o] && deg(g.m(), prev, o) < k,
            !changed ==> forall|o: int|
                0 <= o < v && #[trigger] prev[o] ==> deg(g.m(), prev, o) >= k,
    {
        let keep: bool = if alive[v] {
            degree_of(g, alive, v) >= k
        } else {
            false
        };
        if alive[v] && !keep {
            changed = true;
        }
        next.push(keep);
    }
    *alive = next;
    changed
}

/// Peeling run to its fixpoint: low-degree nodes are removed pass by pass
/// until every remaining node keeps at least `k` alive neighbours. No
/// k-dense node set that was alive is ever touched: the peel removes only
/// nodes that no k-core can hold.
pub fn peel_to_fixpoint(g: &Graph, alive: &mut Vec<bool>, k: usize)
    requires
        g.wf(),
        old(alive)@.len() == g.n(),
    ensures
        final(alive)@.len() == g.n(),
        subset_sel(final(alive)@, old(alive)@),
        forall|v: int|
            0 <= v < g.n() && #[trigger] final(alive)@[v] ==> deg(g.m(), final(alive)@, v) >= k,
        forall|d: Seq<bool>|
            #[trigger] dense(g.m(), d, k as int) && subset_sel(d, old(alive)@) ==> subset_sel(
                d,
                final(alive)@,
            ),
{
    let ghost initial = alive@;
    let mut changed = true;
    while changed
        invariant
            g.wf(),
            alive@.len() == g.n(),
            initial == old(alive)@,
            subset_sel(alive@, initial),
            forall|d: Seq<bool>|
                #[trigger] dense(g.m(), d, k as int) && subset_sel(d, initial) ==> subset_sel(
                    d,
                    alive@,
                ),
            !changed ==> forall|v: int|
                0 <= v < g.n() && #[trigger] alive@[v] ==> deg(g.m(), alive@, v) >= k,
        decreases count_true(alive@), (if changed {
            1int
        } else {
            0int
        }),
    {
        let ghost before = alive@;
        let ch = peel_once(g, alive, k);
        proof {
            assert(subset_sel(alive@, before));
            assert(subset_sel(alive@, initial));
            assert forall|d: Seq<bool>|
                #[trigger] dense(g.m(), d, k as int) && subset_sel(d, initial) implies subset_sel(
                d,
                alive@,
            ) by {
                assert(subset_sel(d, before));
                assert forall|v: int| 0 <= v < d.len() && #[trigger] d[v] implies alive@[v] by {
                    lemma_deg_mono(g.m(), d, before, v, d.len() as int);
                    assert(deg(g.m(), d, v) >= k);
                    assert(before[v]);
                }
            }
            if ch {
                let v = choose|v: int|
                    0 <= v < g.n() && #[trigger] before[v] && deg(g.m(), before, v) < k;
                assert(!alive@[v]);
                lemma_count_true_le(alive@, before, before.len() as int);
                assert(count_true(alive@) < count_true(before));
                lemma_count_true_nonneg(alive@, alive@.len() as int);
            } else {
                assert(alive@ =~= before);
                assert forall|v: int|
                    0 <= v < g.n() && #[trigger] alive@[v] implies deg(g.m(), alive@, v) >= k by {
                    assert(before[v]);
                    assert(deg(g.m(), before, v) >= k);
                }
            }
        }
        changed = ch;
    }
}

/// The extraction step: the alive nodes that still carry an edge, in
/// ascending order. They are the current core.
pub fn extract_core(g: &Graph, alive: &Vec<bool>) -> (core: Vec<usize>)
    requires
        g.wf(),
        alive@.len() == g.n(),
    ensures
        forall|i: int| 0 <= i < core@.len() ==> (#[trigger] core@[i]) < g.n(),
        forall|i: int, t: int|
            #![trigger core@[i], core@[t]]
            0 <= i < t < core@.len() ==> core@[i] < core@[t],
        forall|v: usize|
            #[trigger] core@.contains(v) <==> (v < g.n() && alive@[v as int] && deg(
                g.m(),
                alive@,
                v as int,
            ) >= 1),
{
    let n = alive.len();
    let mut core: Vec<usize> = Vec::new();
    for v in 0..n
        invariant
            g.wf(),
            n == alive@.len(),
            n == g.n(),
            forall|i: int| 0 <= i < core@.len() ==> (#[trigger] core@[i]) < v,
            forall|i: int, t: int|
                #![trigger core@[i], core@[t]]
                0 <= i < t < core@.len() ==> core@[i] < core@[t],
            forall|i: int|
                0 <= i < core@.len() ==> alive@[(#[trigger] core@[i]) as int] && deg(
                    g.m(),
                    alive@,
                    core@[i] as int,
                ) >= 1,
            forall|w: int|
                0 <= w < v && #[trigger] alive@[w] && deg(g.m(), alive@, w) >= 1 ==> exists|i: int|
                    0 <= i < core@.len() && #[trigger] core@[i] == w as usize,
    {
        if alive[v] && degree_of(g, alive, v) >= 1 {
            let ghost prev = core@;
            core.push(v);
            proof {
                assert forall|w: int|
                    0 <= w < v + 1 && #[trigger] alive@[w] && deg(g.m(), alive@, w)
                        >= 1 implies exists|i: int|
                    0 <= i < core@.len() && #[trigger] core@[i] == w as usize by {
                    if w < v {
                        let i = choose|i: int|
                            0 <= i < prev.len() && #[trigger] prev[i] == w as usize;
                        assert(core@[i] == w as usize);
                    } else {
                        assert(core@[core@.len() - 1] == w as usize);
                    }
                }
            }
        }
    }
    proof {
        assert forall|v: usize| #[trigger] core@.contains(v) implies (v < g.n()
            && alive@[v as int] && deg(g.m(), alive@, v as int) >= 1) by {
            let i = choose|i: int| 0 <= i < core@.len() && core@[i] == v;
        }
        assert forall|v: usize|
            (v < g.n() && alive@[v as int] && deg(g.m(), alive@, v as int)
                >= 1) implies #[trigger] core@.contains(v) by {
            let i = choose|i: int| 0 <= i < core@.len() && #[trigger] core@[i] == v as usize;
            assert(core@[i] == v);
        }
    }
    core
}

/// The strip step: the extracted core's nodes leave the working graph, and
/// with them their edges. Stripping a non-empty core of alive nodes leaves
/// a strictly smaller remaining node set, which bounds the decomposition
/// by the node count.
pub fn strip_core(alive: &mut Vec<bool>, core: &Vec<usize>)
    requires
        forall|i: int| 0 <= i < core@.len() ==> (#[trigger] core@[i]) < old(alive)@.len(),
    ensures
        final(alive)@.len() == old(alive)@.len(),
        forall|v: int|
            0 <= v < final(alive)@.len() ==> #[trigger] final(alive)@[v] == (old(alive)@[v]
                && !core@.contains(v as usize)),
        core@.len() > 0 && old(alive)@[core@[0] as int] ==> count_true(final(alive)@) < count_true(
            old(alive)@,
        ),
{
    let ghost initial = alive@;
    let n = alive.len();
    let m = core.len();
    for i in 0..m
        invariant
            m == core@.len(),
            n == initial.len(),
            alive@.len() == n,
            forall|t: int| 0 <= t < core@.len() ==> (#[trigger] core@[t]) < initial.len(),
            forall|v: int|
                0 <= v < alive@.len() ==> #[trigger] alive@[v] == (initial[v] && !(exists|t: int|
                    0 <= t < i && #[trigger] core@[t] == v as usize)),
            count_true(alive@) <= count_true(initial),
            i > 0 && initial[core@[0] as int] ==> count_true(alive@) < count_true(initial),
    {
        let ghost prev = alive@;
        let x = core[i];
        alive.set(x, false);
        proof {
            lemma_count_true_clear(prev, x as int, prev.len() as int);
            assert forall|v: int| 0 <= v < alive@.len() implies #[trigger] alive@[v] == (initial[v]
                && !(exists|t: int| 0 <= t < i + 1 && #[trigger] core@[t] == v as usize)) by {
                if v == x as int {
                    assert(core@[i as int] == v as usize);
                    assert(!alive@[v]);
                } else {
                    assert(alive@[v] == prev[v]);
                    assert(forall|t: int|
                        0 <= t < i + 1 && #[trigger] core@[t] == v as usize ==> t < i);
                }
            }
            if i == 0 && initial[core@[0] as int] {
                assert(prev == initial);
                assert(count_true(alive@) < count_true(initial));
            }
        }
    }
    proof {
        assert forall|v: int| 0 <= v < alive@.len() implies #[trigger] alive@[v] == (initial[v]
            && !core@.contains(v as usize)) by {
            if core@.contains(v as usize) {
                let t = choose|t: int| 0 <= t < core@.len() && core@[t] == v as usize;
                assert(exists|t: int| 0 <= t < m && #[trigger] core@[t] == v as usize);
            }
        }
    }
}

/// Peels, extracts and strips until nothing remains or an extraction comes
/// back empty. Every emitted core is non-empty (an empty extraction ends
/// the run and is not emitted), lists its nodes in ascending order, and
/// keeps every node at least `max(k, 1)` neighbours within the core
/// itself; the cores are pairwise disjoint subsets of the node set. For
/// `k >= 1` the first core is the k-core proper: it swallows every
/// non-empty k-dense node set of the graph.
pub fn k_core_decomposition(graph: &Graph, k: usize) -> (cores: Vec<Vec<usize>>)
    requires
        graph.wf(),
    ensures
        forall|c: int| 0 <= c < cores@.len() ==> (#[trigger] cores@[c]@).len() > 0,
        forall|c: int, i: int|
            #![trigger cores@[c]@[i]]
            0 <= c < cores@.len() && 0 <= i < cores@[c]@.len() ==> cores@[c]@[i] < graph.n(),
        forall|c: int, i: int, t: int|
            #![trigger cores@[c]@[i], cores@[c]@[t]]
            0 <= c < cores@.len() && 0 <= i < t < cores@[c]@.len() ==> cores@[c]@[i]
                < cores@[c]@[t],
        forall|c1: int, c2: int, x: usize|
            #![trigger cores@[c1]@.contains(x), cores@[c2]@.contains(x)]
            0 <= c1 < c2 < cores@.len() && cores@[c1]@.contains(x) ==> !cores@[c2]@.contains(x),
        forall|c: int, i: int|
            #![trigger cores@[c]@[i]]
            0 <= c < cores@.len() && 0 <= i < cores@[c]@.len() ==> deg(
                graph.m(),
                mask_of(cores@[c]@, graph.n()),
                cores@[c]@[i] as int,
            ) >= k as int && deg(
                graph.m(),
                mask_of(cores@[c]@, graph.n()),
                cores@[c]@[i] as int,
            ) >= 1,
        k >= 1 ==> forall|d: Seq<bool>|
            #[trigger] dense(graph.m(), d, k as int) && (exists|v: int|
                0 <= v < d.len() && #[trigger] d[v]) ==> cores@.len() >= 1 && (forall|v: int|
                0 <= v < d.len() && #[trigger] d[v] ==> cores@[0]@.contains(v as usize)),
{
    let n = graph.node_count();
    let mut alive: Vec<bool> = Vec::new();
    for v in 0..n
        invariant
            alive@.len() == v,
            forall|o: int| 0 <= o < v ==> #[trigger] alive@[o],
    {
        alive.push(true);
    }
    let mut cores: Vec<Vec<usize>> = Vec::new();
    let mut done = false;
    while !done
        invariant
            graph.wf(),
            n == graph.n(),
            alive@.len() == n,
            forall|c: int| 0 <= c < cores@.len() ==> (#[trigger] cores@[c]@).len() > 0,
            forall|c: int, i: int|
                #![trigger cores@[c]@[i]]
                0 <= c < cores@.len() && 0 <= i < cores@[c]@.len() ==> cores@[c]@[i] < n,
            forall|c: int, i: int, t: int|
                #![trigger cores@[c]@[i], cores@[c]@[t]]
                0 <= c < cores@.len() && 0 <= i < t < cores@[c]@.len() ==> cores@[c]@[i]
                    < cores@[c]@[t],
            forall|c: int, x: usize|
                #![trigger cores@[c]@.contains(x)]
                0 <= c < cores@.len() && cores@[c]@.contains(x) ==> x < n && !alive@[x as int],
            forall|c1: int, c2: int, x: usize|
                #![trigger cores@[c1]@.contains(x), cores@[c2]@.contains(x)]
                0 <= c1 < c2 < cores@.len() && cores@[c1]@.contains(x) ==> !cores@[c2]@.contains(
                    x,
                ),
            forall|c: int, i: int|
                #![trigger cores@[c]@[i]]
                0 <= c < cores@.len() && 0 <= i < cores@[c]@.len() ==> deg(
                    graph.m(),
                    mask_of(cores@[c]@, n as int),
                    cores@[c]@[i] as int,
                ) >= k as int && deg(
                    graph.m(),
                    mask_of(cores@[c]@, n as int),
                    cores@[c]@[i] as int,
                ) >= 1,
            k >= 1 && cores@.len() == 0 && !done ==> forall|d: Seq<bool>|
                #[trigger] dense(graph.m(), d, k as int) ==> subset_sel(d, alive@),
            k >= 1 && (cores@.len() >= 1 || done) ==> forall|d: Seq<bool>|
                #[trigger] dense(graph.m(), d, k as int) && (exists|v: int|
                    0 <= v < d.len() && #[trigger] d[v]) ==> cores@.len() >= 1 && (forall|v: int|
                    0 <= v < d.len() && #[trigger] d[v] ==> cores@[0]@.contains(v as usize)),
        decreases count_true(alive@), (if done {
            0int
        } else {
            1int
        }),
    {
        let ghost alive_at_entry = alive@;
        proof {
            lemma_count_true_nonneg(alive@, alive@.len() as int);
        }
        peel_to_fixpoint(graph, &mut alive, k);
        let core = extract_core(graph, &alive);
        proof {
            lemma_count_true_le(alive@, alive_at_entry, alive@.len() as int);
            lemma_count_true_nonneg(alive@, alive@.len() as int);
        }
        if core.len() == 0 {
            proof {
                if k >= 1 && cores@.len() == 0 {
                    assert forall|d: Seq<bool>|
                        #[trigger] dense(graph.m(), d, k as int) implies !(exists|v: int|
                        0 <= v < d.len() && #[trigger] d[v]) by {
                        assert(subset_sel(d, alive_at_entry));
                        assert(subset_sel(d, alive@));
                        if exists|v: int| 0 <= v < d.len() && #[trigger] d[v] {
                            let v = choose|v: int| 0 <= v < d.len() && #[trigger] d[v];
                            assert(deg(graph.m(), d, v) >= k);
                            lemma_deg_mono(graph.m(), d, alive@, v, d.len() as int);
                            assert(deg(graph.m(), alive@, v) >= 1);
                            assert(core@.contains(v as usize));
                        }
                    }
                }
            }
            done = true;
        } else {
            let ghost coremask = mask_of(core@, n as int);
            proof {
                // The core's mask and the alive set relate: a core node is
                // alive, and an alive neighbour of a core node is itself in
                // the core.
                assert forall|i: int|
                    0 <= i < core@.len() implies deg(
                    graph.m(),
                    coremask,
                    (#[trigger] core@[i]) as int,
                ) >= k as int && deg(graph.m(), coremask, core@[i] as int) >= 1 by {
                    let v = core@[i] as int;
                    assert(core@.contains(core@[i]));
                    assert(alive@[v] && deg(graph.m(), alive@, v) >= 1);
                    if k >= 1 {
                        // Every alive node has alive degree >= k >= 1, so the
                        // core mask coincides with the alive mask.
                        assert forall|w: int| 0 <= w < n implies coremask[w] == alive@[w] by {
                            if alive@[w] {
                                assert(deg(graph.m(), alive@, w) >= k);
                                assert(core@.contains(w as usize));
                            } else {
                                assert(!core@.contains(w as usize));
                            }
                        }
                        assert(coremask =~= alive@);
                        assert(deg(graph.m(), coremask, v) == deg(graph.m(), alive@, v));
                        assert(deg(graph.m(), alive@, v) >= k);
                    } else {
                        // k == 0: a core node has an alive neighbour, and that
                        // neighbour, seeing the node back, is in the core too.
                        lemma_deg_pos_witness(graph.m(), alive@, v, alive@.len() as int);
                        let w = choose|w: int|
                            0 <= w < alive@.len() && #[trigger] alive@[w] && graph.m()[v][w];
                        assert(graph.m()[w][v]);
                        lemma_deg_at_least(graph.m(), alive@, w, v, alive@.len() as int);
                        assert(core@.contains(w as usize));
                        assert(coremask[w]);
                        lemma_deg_at_least(graph.m(), coremask, v, w, coremask.len() as int);
                        lemma_deg_bounds(graph.m(), coremask, v, coremask.len() as int);
                    }
                }
                // For k >= 1 the first core swallows every dense set.
                if k >= 1 && cores@.len() == 0 {
                    assert forall|d: Seq<bool>|
                        #[trigger] dense(graph.m(), d, k as int) && (exists|v: int|
                            0 <= v < d.len() && #[trigger] d[v]) implies forall|v: int|
                        0 <= v < d.len() && #[trigger] d[v] ==> core@.contains(v as usize) by {
                        assert(subset_sel(d, alive_at_entry));
                        assert(subset_sel(d, alive@));
                        assert forall|v: int|
                            0 <= v < d.len() && #[trigger] d[v] implies core@.contains(
                            v as usize,
                        ) by {
                            assert(deg(graph.m(), d, v) >= k);
                            lemma_deg_mono(graph.m(), d, alive@, v, d.len() as int);
                            assert(alive@[v] && deg(graph.m(), alive@, v) >= 1);
                        }
                    }
                }
            }
            let ghost alive_before_strip = alive@;
            strip_core(&mut alive, &core);
            proof {
                assert(core@.contains(core@[0]));
                assert(alive_before_strip[core@[0] as int]);
                assert(count_true(alive@) < count_true(alive_before_strip));
                lemma_count_true_nonneg(alive@, alive@.len() as int);
            }
            let ghost prev_cores = cores@;
            cores.push(core);
            proof {
                assert(cores@[cores@.len() - 1]@ == core@);
                assert forall|c: int, x: usize|
                    #![trigger cores@[c]@.contains(x)]
                    0 <= c < cores@.len() && cores@[c]@.contains(x) implies x < n
                    && !alive@[x as int] by {
                    if c < cores@.len() - 1 {
                        assert(prev_cores[c]@.contains(x));
                        assert(subset_sel(alive@, alive_before_strip));
                        assert(subset_sel(alive_before_strip, alive_at_entry));
                    }
                }
                assert forall|c1: int, c2: int, x: usize|
                    #![trigger cores@[c1]@.contains(x), cores@[c2]@.contains(x)]
                    0 <= c1 < c2 < cores@.len() && cores@[c1]@.contains(x) implies !cores@[
                c2]@.contains(x) by {
                    if c2 == cores@.len() - 1 {
                        assert(prev_cores[c1]@.contains(x));
                        if core@.contains(x) {
                            assert(alive_before_strip[x as int]);
                            assert(!alive_at_entry[x as int]);
                            assert(subset_sel(alive_before_strip, alive_at_entry));
                        }
                    } else {
                        assert(prev_cores[c1]@.contains(x));
                        assert(!prev_cores[c2]@.contains(x));
                    }
                }
            }
            if !any_alive(&alive) {
                done = true;
            }
        }
    }
    cores
}

} // verus!
