//! Degree-based analytics over the directed graph: out-degree centrality,
//! minimum-degree filtering, and centrality tiers.
//!
//! "Degree centrality" here is out-degree only: the count of edges leaving a
//! node, not the count of all incident edges.

use vstd::prelude::*;
use crate::graph::{labels_view, DiEdge, DirectedGraph};

verus! {

/// A node is high-centrality when its degree strictly exceeds this bound.
pub const HIGH_DEGREE_LIMIT: usize = 1000;

/// A node is medium-centrality when its degree strictly exceeds this bound
/// without exceeding `HIGH_DEGREE_LIMIT`.
pub const MEDIUM_DEGREE_LIMIT: usize = 500;

/// Count of edges among the first `n` whose source is node `v`.
pub open spec fn out_degree_upto(edges: Seq<DiEdge>, v: int, n: int) -> int
    decreases n,
{
    if n <= 0 {
        0
    } else {
        out_degree_upto(edges, v, n - 1) + if edges[n - 1].src == v {
            1int
        } else {
            0int
        }
    }
}

/// Out-degree of node `v`: the count of edges leaving it.
pub open spec fn out_degree(edges: Seq<DiEdge>, v: int) -> int {
    out_degree_upto(edges, v, edges.len() as int)
}

/// Sum of the out-degrees of the nodes `0 .. n`, counting only the first `m`
/// edges.
pub open spec fn degree_sum_upto(edges: Seq<DiEdge>, n: int, m: int) -> int
    decreases n,
{
    if n <= 0 {
        0
    } else {
        degree_sum_upto(edges, n - 1, m) + out_degree_upto(edges, n - 1, m)
    }
}

/// Sum of the out-degrees of the nodes `0 .. n`.
pub open spec fn degree_sum(edges: Seq<DiEdge>, n: int) -> int {
    degree_sum_upto(edges, n, edges.len() as int)
}

proof fn lemma_degree_sum_no_edges(edges: Seq<DiEdge>, n: int)
    ensures
        degree_sum_upto(edges, n, 0) == 0,
    decreases n,
{
    if n > 0 {
        lemma_degree_sum_no_edges(edges, n - 1);
    }
}

/// Adding edge `m` to the counted prefix raises the degree sum by one,
/// provided that edge's source is one of the counted nodes.
proof fn lemma_degree_sum_step(edges: Seq<DiEdge>, n: int, m: int)
    requires
        0 <= m < edges.len(),
    ensures
        degree_sum_upto(edges, n, m + 1) == degree_sum_upto(edges, n, m) + if 0 <= edges[m].src
            < n {
            1int
        } else {
            0int
        },
    decreases n,
{
    if n > 0 {
        lemma_degree_sum_step(edges, n - 1, m);
    }
}

proof fn lemma_degree_sum_prefix(edges: Seq<DiEdge>, n: int, m: int)
    requires
        0 <= m <= edges.len(),
        forall|k: int| 0 <= k < edges.len() ==> (#[trigger] edges[k]).src < n,
    ensures
        degree_sum_upto(edges, n, m) == m,
    decreases m,
{
    if m == 0 {
        lemma_degree_sum_no_edges(edges, n);
    } else {
        lemma_degree_sum_prefix(edges, n, m - 1);
        lemma_degree_sum_step(edges, n, m - 1);
    }
}

/// The sum of all reported out-degrees equals the total edge count: each edge
/// leaves exactly one node.
pub proof fn lemma_degree_sum_is_edge_count(edges: Seq<DiEdge>, n: int)
    requires
        forall|k: int| 0 <= k < edges.len() ==> (#[trigger] edges[k]).src < n,
    ensures
        degree_sum(edges, n) == edges.len(),
{
    lemma_degree_sum_prefix(edges, n, edges.len() as int);
}

/// The sum of the out-degrees over the whole node set of a well-formed
/// directed graph equals its edge count.
pub proof fn lemma_out_degree_sum(g: DirectedGraph)
    requires
        g.wf(),
    ensures
        degree_sum(g.edges@, g.labels@.len() as int) == g.edges@.len(),
{
    lemma_degree_sum_is_edge_count(g.edges@, g.labels@.len() as int);
}

/// Sum of the degrees reported in the first `n` centrality pairs.
pub open spec fn reported_degree_sum(ps: Seq<(String, usize)>, n: int) -> int
    decreases n,
{
    if n <= 0 {
        0
    } else {
        reported_degree_sum(ps, n - 1) + ps[n - 1].1
    }
}

proof fn lemma_reported_sum_matches(ps: Seq<(String, usize)>, edges: Seq<DiEdge>, n: int)
    requires
        0 <= n <= ps.len(),
        forall|k: int| 0 <= k < ps.len() ==> (#[trigger] ps[k]).1 == out_degree(edges, k),
    ensures
        reported_degree_sum(ps, n) == degree_sum_upto(edges, n, edges.len() as int),
    decreases n,
{
    if n > 0 {
        lemma_reported_sum_matches(ps, edges, n - 1);
    }
}

/// The degrees that `compute_degree_centrality` reports sum to the total
/// edge count of the graph: each edge leaves exactly one node.
pub proof fn lemma_reported_degrees_sum_to_edge_count(
    g: DirectedGraph,
    ps: Seq<(String, usize)>,
)
    requires
        g.wf(),
        ps.len() == g.labels@.len(),
        forall|k: int| 0 <= k < ps.len() ==> (#[trigger] ps[k]).1 == out_degree(g.edges@, k),
    ensures
        reported_degree_sum(ps, ps.len() as int) == g.edges@.len(),
{
    lemma_reported_sum_matches(ps, g.edges@, ps.len() as int);
    lemma_degree_sum_is_edge_count(g.edges@, g.labels@.len() as int);
}

/// Out-degree centrality: one `(label, out-degree)` pair per node, in
/// node-creation order. The result is empty exactly when the graph has no
/// nodes; reporting that as a warning is the caller's concern.
pub fn compute_degree_centrality(g: &DirectedGraph) -> (res: Vec<(String, usize)>)
    ensures
        res@.len() == g.labels@.len(),
        forall|k: int|
            0 <= k < res@.len() ==> (#[trigger] res@[k]).0@ == g.labels_view()[k] && res@[k].1
                == out_degree(g.edges@, k),
{
    let mut res: Vec<(String, usize)> = Vec::new();
    let n = g.labels.len();
    let mut k: usize = 0;
    while k < n
        invariant
            k <= n,
            n == g.labels@.len(),
            res@.len() == k,
            forall|t: int|
                0 <= t < k ==> (#[trigger] res@[t]).0@ == g.labels_view()[t] && res@[t].1
                    == out_degree(g.edges@, t),
        decreases n - k,
    {
        let mut count: usize = 0;
        let mut t: usize = 0;
        let m = g.edges.len();
        while t < m
            invariant
                t <= m,
                m == g.edges@.len(),
                count == out_degree_upto(g.edges@, k as int, t as int),
                count <= t,
            decreases m - t,
        {
            if g.edges[t].src == k {
                count += 1;
            }
            t += 1;
        }
        res.push((g.labels[k].clone(), count));
        k += 1;
    }
    res
}

/// Labels of the nodes among `0 .. n` whose out-degree is at least `k`, in
/// node order.
pub open spec fn k_filter_upto(g: DirectedGraph, k: int, n: int) -> Seq<Seq<char>>
    decreases n,
{
    if n <= 0 {
        Seq::empty()
    } else {
        k_filter_upto(g, k, n - 1) + if out_degree(g.edges@, n - 1) >= k {
            seq![g.labels_view()[n - 1]]
        } else {
            Seq::empty()
        }
    }
}

/// Labels of all nodes whose out-degree is at least `k`.
pub open spec fn k_filter_spec(g: DirectedGraph, k: int) -> Seq<Seq<char>> {
    k_filter_upto(g, k, g.labels@.len() as int)
}

/// Minimum-degree filter: the labels of every node whose out-degree is at
/// least `k`, in node order. A single-pass threshold, not iterative k-core
/// peeling: degrees are not recomputed after a node fails the test.
pub fn compute_k_core(g: &DirectedGraph, k: usize) -> (res: Vec<String>)
    ensures
        labels_view(res@) == k_filter_spec(*g, k as int),
{
    let mut res: Vec<String> = Vec::new();
    let n = g.labels.len();
    let mut v: usize = 0;
    while v < n
        invariant
            v <= n,
            n == g.labels@.len(),
            labels_view(res@) =~= k_filter_upto(*g, k as int, v as int),
        decreases n - v,
    {
        let mut count: usize = 0;
        let mut t: usize = 0;
        let m = g.edges.len();
        while t < m
            invariant
                t <= m,
                m == g.edges@.len(),
                count == out_degree_upto(g.edges@, v as int, t as int),
                count <= t,
            decreases m - t,
        {
            if g.edges[t].src == v {
                count += 1;
            }
            t += 1;
        }
        let ghost pre = res@;
        if count >= k {
            res.push(g.labels[v].clone());
            proof {
                assert(labels_view(res@) =~= labels_view(pre).push(g.labels_view()[v as int]));
            }
        }
        proof {
            assert(labels_view(res@) =~= k_filter_upto(*g, k as int, v + 1));
        }
        v += 1;
    }
    res
}

proof fn lemma_label_concat_contains(a: Seq<Seq<char>>, b: Seq<Seq<char>>, x: Seq<char>)
    ensures
        (a + b).contains(x) <==> a.contains(x) || b.contains(x),
{
    if (a + b).contains(x) {
        let k = choose|k: int| 0 <= k < (a + b).len() && (a + b)[k] == x;
        if k < a.len() {
            assert(a[k] == x);
        } else {
            assert(b[k - a.len()] == x);
        }
    }
    if a.contains(x) {
        let k = choose|k: int| 0 <= k < a.len() && a[k] == x;
        assert((a + b)[k] == x);
    }
    if b.contains(x) {
        let k = choose|k: int| 0 <= k < b.len() && b[k] == x;
        assert((a + b)[k + a.len()] == x);
    }
}

proof fn lemma_k_filter_upto_monotone(g: DirectedGraph, k1: int, k2: int, n: int, x: Seq<char>)
    requires
        k1 <= k2,
        k_filter_upto(g, k2, n).contains(x),
    ensures
        k_filter_upto(g, k1, n).contains(x),
    decreases n,
{
    if n > 0 {
        let tail2 = if out_degree(g.edges@, n - 1) >= k2 {
            seq![g.labels_view()[n - 1]]
        } else {
            Seq::<Seq<char>>::empty()
        };
        let tail1 = if out_degree(g.edges@, n - 1) >= k1 {
            seq![g.labels_view()[n - 1]]
        } else {
            Seq::<Seq<char>>::empty()
        };
        lemma_label_concat_contains(k_filter_upto(g, k2, n - 1), tail2, x);
        lemma_label_concat_contains(k_filter_upto(g, k1, n - 1), tail1, x);
        if k_filter_upto(g, k2, n - 1).contains(x) {
            lemma_k_filter_upto_monotone(g, k1, k2, n - 1, x);
        } else {
            assert(tail2.contains(x));
            assert(tail2[0] == x);
            assert(tail1[0] == x);
        }
    }
}

/// Raising the degree threshold only shrinks the selection: everything that
/// passes the filter at `k2` also passes it at any `k1 <= k2`.
pub proof fn lemma_k_filter_monotone(g: DirectedGraph, k1: int, k2: int)
    requires
        k1 <= k2,
    ensures
        forall|x: Seq<char>|
            #[trigger] k_filter_spec(g, k2).contains(x) ==> k_filter_spec(g, k1).contains(x),
{
    assert forall|x: Seq<char>| #[trigger] k_filter_spec(g, k2).contains(x) implies k_filter_spec(
        g,
        k1,
    ).contains(x) by {
        lemma_k_filter_upto_monotone(g, k1, k2, g.labels@.len() as int, x);
    }
}

/// The labels among the first `n` centrality pairs whose degree exceeds
/// `HIGH_DEGREE_LIMIT`, in order.
pub open spec fn high_tier_upto(ps: Seq<(String, usize)>, n: int) -> Seq<Seq<char>>
    decreases n,
{
    if n <= 0 {
        Seq::empty()
    } else {
        high_tier_upto(ps, n - 1) + if ps[n - 1].1 > HIGH_DEGREE_LIMIT {
            seq![ps[n - 1].0@]
        } else {
            Seq::empty()
        }
    }
}

/// The labels among the first `n` centrality pairs whose degree lies in
/// `(MEDIUM_DEGREE_LIMIT, HIGH_DEGREE_LIMIT]`, in order.
pub open spec fn medium_tier_upto(ps: Seq<(String, usize)>, n: int) -> Seq<Seq<char>>
    decreases n,
{
    if n <= 0 {
        Seq::empty()
    } else {
        medium_tier_upto(ps, n - 1) + if ps[n - 1].1 > MEDIUM_DEGREE_LIMIT && ps[n - 1].1
            <= HIGH_DEGREE_LIMIT {
            seq![ps[n - 1].0@]
        } else {
            Seq::empty()
        }
    }
}

/// The labels among the first `n` centrality pairs whose degree is at most
/// `MEDIUM_DEGREE_LIMIT`, in order.
pub open spec fn low_tier_upto(ps: Seq<(String, usize)>, n: int) -> Seq<Seq<char>>
    decreases n,
{
    if n <= 0 {
        Seq::empty()
    } else {
        low_tier_upto(ps, n - 1) + if ps[n - 1].1 <= MEDIUM_DEGREE_LIMIT {
            seq![ps[n - 1].0@]
        } else {
            Seq::empty()
        }
    }
}

/// Partition centrality pairs into (high, medium, low) tiers by the fixed
/// degree thresholds, keeping the input order within each tier.
pub fn group_states_by_centrality(centrality: &Vec<(String, usize)>) -> (res: (
    Vec<String>,
    Vec<String>,
    Vec<String>,
))
    ensures
        labels_view(res.0@) == high_tier_upto(centrality@, centrality@.len() as int),
        labels_view(res.1@) == medium_tier_upto(centrality@, centrality@.len() as int),
        labels_view(res.2@) == low_tier_upto(centrality@, centrality@.len() as int),
{
    let ghost ps = centrality@;
    let mut high: Vec<String> = Vec::new();
    let mut medium: Vec<String> = Vec::new();
    let mut low: Vec<String> = Vec::new();
    let n = centrality.len();
    let mut k: usize = 0;
    while k < n
        invariant
            k <= n,
            n == ps.len(),
            ps == centrality@,
            labels_view(high@) =~= high_tier_upto(ps, k as int),
            labels_view(medium@) =~= medium_tier_upto(ps, k as int),
            labels_view(low@) =~= low_tier_upto(ps, k as int),
        decreases n - k,
    {
        let ghost pre_h = high@;
        let ghost pre_m = medium@;
        let ghost pre_l = low@;
        let degree = centrality[k].1;
        if degree > HIGH_DEGREE_LIMIT {
            high.push(centrality[k].0.clone());
            proof {
                assert(labels_view(high@) =~= labels_view(pre_h).push(ps[k as int].0@));
            }
        } else if degree > MEDIUM_DEGREE_LIMIT {
            medium.push(centrality[k].0.clone());
            proof {
                assert(labels_view(medium@) =~= labels_view(pre_m).push(ps[k as int].0@));
            }
        } else {
            low.push(centrality[k].0.clone());
            proof {
                assert(labels_view(low@) =~= labels_view(pre_l).push(ps[k as int].0@));
            }
        }
        proof {
            assert(labels_view(high@) =~= high_tier_upto(ps, k + 1));
            assert(labels_view(medium@) =~= medium_tier_upto(ps, k + 1));
            assert(labels_view(low@) =~= low_tier_upto(ps, k + 1));
        }
        k += 1;
    }
    (high, medium, low)
}

} // verus!
