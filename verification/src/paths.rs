//! Shortest paths across the directed rate-difference graph and their mean.
//!
//! A path is a sequence of edge indices; its cost is the sum of the edge
//! weights in milli-units. The analyzer runs a single-source shortest-path
//! sweep from every node and averages all computed distances, counting each
//! node's zero-distance path to itself.

use vstd::prelude::*;
use crate::graph::{DiEdge, DirectedGraph, RATE_GAP_LIMIT_MILLI};

verus! {

/// Upper bound on the node count the path analyzer accepts. It keeps every
/// distance and the grand total well inside `u64`; the datasets this engine
/// targets stay in the low hundreds of nodes.
pub const MAX_PATH_NODES: usize = 8192;

/// `p` lists edge indices forming a walk from node `s` to node `v`; the
/// empty sequence is the zero-cost walk from `s` to itself.
pub open spec fn is_path(edges: Seq<DiEdge>, p: Seq<int>, s: int, v: int) -> bool {
    if p.len() == 0 {
        s == v
    } else {
        &&& forall|k: int| 0 <= k < p.len() ==> 0 <= #[trigger] p[k] < edges.len()
        &&& edges[p[0]].src == s
        &&& edges[p[p.len() - 1]].dst == v
        &&& forall|k: int|
            0 <= k < p.len() - 1 ==> edges[#[trigger] p[k]].dst == edges[p[k + 1]].src
    }
}

/// Total weight of the walk, in milli-units.
pub open spec fn path_cost(edges: Seq<DiEdge>, p: Seq<int>) -> int
    decreases p.len(),
{
    if p.len() == 0 {
        0
    } else {
        path_cost(edges, p.drop_last()) + edges[p.last()].weight_milli
    }
}

/// The node reached after the first `k` steps of the walk.
pub open spec fn node_at(edges: Seq<DiEdge>, p: Seq<int>, s: int, k: int) -> int {
    if k <= 0 {
        s
    } else {
        edges[p[k - 1]].dst as int
    }
}

/// `v` is reachable from `s`.
pub open spec fn has_path(edges: Seq<DiEdge>, s: int, v: int) -> bool {
    exists|p: Seq<int>| is_path(edges, p, s, v)
}

/// `d` is the least cost of any walk from `s` to `v`.
pub open spec fn is_shortest(edges: Seq<DiEdge>, s: int, v: int, d: int) -> bool {
    &&& exists|p: Seq<int>| is_path(edges, p, s, v) && path_cost(edges, p) == d
    &&& forall|p: Seq<int>| is_path(edges, p, s, v) ==> path_cost(edges, p) >= d
}

/// The shortest distance from `s` to `v`; meaningful only when a path
/// exists.
pub open spec fn shortest_dist(edges: Seq<DiEdge>, s: int, v: int) -> int {
    choose|d: int| is_shortest(edges, s, v, d)
}

pub proof fn lemma_path_cost_nonneg(edges: Seq<DiEdge>, p: Seq<int>)
    ensures
        path_cost(edges, p) >= 0,
    decreases p.len(),
{
    if p.len() > 0 {
        lemma_path_cost_nonneg(edges, p.drop_last());
    }
}

/// The first `k` steps of a walk form a walk to the node they reach.
pub proof fn lemma_path_prefix(edges: Seq<DiEdge>, p: Seq<int>, s: int, v: int, k: int)
    requires
        is_path(edges, p, s, v),
        0 <= k <= p.len(),
    ensures
        is_path(edges, p.subrange(0, k), s, node_at(edges, p, s, k)),
{
    let q = p.subrange(0, k);
    if k > 0 {
        assert forall|i: int| 0 <= i < q.len() - 1 implies edges[#[trigger] q[i]].dst
            == edges[q[i + 1]].src by {
            assert(q[i] == p[i] && q[i + 1] == p[i + 1]);
        }
        assert(q[0] == p[0]);
        assert(q[q.len() - 1] == p[k - 1]);
    }
}

/// Taking one more step adds that edge's weight to the prefix cost.
pub proof fn lemma_path_cost_step(edges: Seq<DiEdge>, p: Seq<int>, k: int)
    requires
        0 <= k < p.len(),
    ensures
        path_cost(edges, p.subrange(0, k + 1)) == path_cost(edges, p.subrange(0, k)) + edges[p[
            k
        ]].weight_milli,
{
    let q = p.subrange(0, k + 1);
    assert(q.drop_last() =~= p.subrange(0, k));
    assert(q.last() == p[k]);
}

/// With non-negative weights, a prefix never costs more than the whole walk.
pub proof fn lemma_path_cost_prefix_le(edges: Seq<DiEdge>, p: Seq<int>, k: int)
    requires
        0 <= k <= p.len(),
    ensures
        path_cost(edges, p.subrange(0, k)) <= path_cost(edges, p),
    decreases p.len() - k,
{
    if k == p.len() {
        assert(p.subrange(0, k) =~= p);
    } else {
        lemma_path_cost_step(edges, p, k);
        lemma_path_cost_prefix_le(edges, p, k + 1);
    }
}

/// A walk extended along an edge leaving its end is again a walk.
pub proof fn lemma_path_extend(edges: Seq<DiEdge>, p: Seq<int>, s: int, u: int, ei: int)
    requires
        is_path(edges, p, s, u),
        0 <= ei < edges.len(),
        edges[ei].src == u,
    ensures
        is_path(edges, p.push(ei), s, edges[ei].dst as int),
        path_cost(edges, p.push(ei)) == path_cost(edges, p) + edges[ei].weight_milli,
{
    let q = p.push(ei);
    assert(q.drop_last() =~= p);
    assert(q.last() == ei);
    assert(q[q.len() - 1] == ei);
    if p.len() == 0 {
        assert(q[0] == ei);
    } else {
        assert(q[0] == p[0]);
        assert forall|k: int| 0 <= k < q.len() - 1 implies edges[#[trigger] q[k]].dst == edges[q[k
            + 1]].src by {
            if k < p.len() - 1 {
                assert(q[k] == p[k] && q[k + 1] == p[k + 1]);
            } else {
                assert(q[k] == p[p.len() - 1] && q[k + 1] == ei);
            }
        }
    }
}

/// Two least costs for the same pair agree, so `shortest_dist` names the one
/// least cost.
pub proof fn lemma_shortest_dist_of(edges: Seq<DiEdge>, s: int, v: int, d: int)
    requires
        is_shortest(edges, s, v, d),
    ensures
        shortest_dist(edges, s, v) == d,
        has_path(edges, s, v),
        d >= 0,
{
    let dd = shortest_dist(edges, s, v);
    assert(is_shortest(edges, s, v, dd)) by {
        assert(exists|d2: int| is_shortest(edges, s, v, d2));
    }
    let p1 = choose|p: Seq<int>| is_path(edges, p, s, v) && path_cost(edges, p) == d;
    let p2 = choose|p: Seq<int>| is_path(edges, p, s, v) && path_cost(edges, p) == dd;
    assert(path_cost(edges, p1) >= dd);
    assert(path_cost(edges, p2) >= d);
    lemma_path_cost_nonneg(edges, p1);
}

/// Every labelled node's label is witnessed by a walk of exactly that cost.
pub open spec fn label_sound(edges: Seq<DiEdge>, s: int, dist: Seq<Option<u64>>) -> bool {
    forall|v: int|
        0 <= v < dist.len() && (#[trigger] dist[v]) is Some ==> exists|p: Seq<int>|
            is_path(edges, p, s, v) && path_cost(edges, p) == dist[v]->0
}

/// Every settled node's label is the true shortest distance.
pub open spec fn settled_ok(
    edges: Seq<DiEdge>,
    s: int,
    dist: Seq<Option<u64>>,
    settled: Seq<bool>,
) -> bool {
    forall|v: int|
        0 <= v < settled.len() && (#[trigger] settled[v]) ==> dist[v] is Some && is_shortest(
            edges,
            s,
            v,
            dist[v]->0 as int,
        )
}

/// Every edge leaving a settled node has been relaxed: its head is labelled
/// and its label is at most the tail's label plus the edge weight.
pub open spec fn relaxed(edges: Seq<DiEdge>, dist: Seq<Option<u64>>, settled: Seq<bool>) -> bool {
    forall|k: int|
        0 <= k < edges.len() && (#[trigger] edges[k]).src < settled.len() && settled[edges[k].src as int]
            ==> dist[edges[k].dst as int] is Some && dist[edges[k].dst as int]->0 <= dist[edges[k].src as int]->0
            + edges[k].weight_milli
}

/// `d` is a lower bound on every unsettled label.
pub open spec fn min_selected(dist: Seq<Option<u64>>, settled: Seq<bool>, d: int) -> bool {
    forall|v: int|
        0 <= v < dist.len() && !settled[v] && (#[trigger] dist[v]) is Some ==> dist[v]->0 >= d
}

/// Every label is at most `c`.
pub open spec fn labels_bounded(dist: Seq<Option<u64>>, c: int) -> bool {
    forall|v: int| 0 <= v < dist.len() && (#[trigger] dist[v]) is Some ==> dist[v]->0 <= c
}

/// Count of settled nodes.
pub open spec fn count_settled(s: Seq<bool>) -> nat
    decreases s.len(),
{
    if s.len() == 0 {
        0
    } else {
        count_settled(s.drop_last()) + if s.last() {
            1nat
        } else {
            0nat
        }
    }
}

proof fn lemma_count_settled_le(s: Seq<bool>)
    ensures
        count_settled(s) <= s.len(),
    decreases s.len(),
{
    if s.len() > 0 {
        lemma_count_settled_le(s.drop_last());
    }
}

proof fn lemma_count_settled_update(s: Seq<bool>, i: int)
    requires
        0 <= i < s.len(),
        !s[i],
    ensures
        count_settled(s.update(i, true)) == count_settled(s) + 1,
    decreases s.len(),
{
    let su = s.update(i, true);
    if i == s.len() - 1 {
        assert(su.drop_last() =~= s.drop_last());
        assert(su.last());
    } else {
        assert(su.drop_last() =~= s.drop_last().update(i, true));
        assert(su.last() == s.last());
        lemma_count_settled_update(s.drop_last(), i);
    }
}

/// Index of the first node along the walk that is not settled, scanning from
/// position `lo`; the walk's end is known unsettled, so one exists.
proof fn first_unsettled_along(
    edges: Seq<DiEdge>,
    settled: Seq<bool>,
    p: Seq<int>,
    s: int,
    lo: int,
) -> (k: int)
    requires
        0 <= lo <= p.len(),
        forall|i: int| 0 <= i < lo ==> 0 <= node_at(edges, p, s, i) < settled.len() && settled[node_at(edges, p, s, i)],
        0 <= node_at(edges, p, s, p.len() as int) < settled.len(),
        !settled[node_at(edges, p, s, p.len() as int)],
        forall|i: int| 0 <= i <= p.len() ==> 0 <= #[trigger] node_at(edges, p, s, i) < settled.len(),
    ensures
        lo <= k <= p.len(),
        !settled[node_at(edges, p, s, k)],
        forall|i: int| 0 <= i < k ==> settled[node_at(edges, p, s, i)],
    decreases p.len() - lo,
{
    if lo == p.len() || !settled[node_at(edges, p, s, lo)] {
        lo
    } else {
        first_unsettled_along(edges, settled, p, s, lo + 1)
    }
}

/// Index of the first node along the walk that carries no label, scanning
/// from position `lo`; the walk's end is known unlabelled, so one exists.
proof fn first_unlabeled_along(
    edges: Seq<DiEdge>,
    dist: Seq<Option<u64>>,
    p: Seq<int>,
    s: int,
    lo: int,
) -> (k: int)
    requires
        0 <= lo <= p.len(),
        forall|i: int| 0 <= i < lo ==> 0 <= node_at(edges, p, s, i) < dist.len() && dist[node_at(edges, p, s, i)] is Some,
        0 <= node_at(edges, p, s, p.len() as int) < dist.len(),
        dist[node_at(edges, p, s, p.len() as int)] is None,
        forall|i: int| 0 <= i <= p.len() ==> 0 <= #[trigger] node_at(edges, p, s, i) < dist.len(),
    ensures
        lo <= k <= p.len(),
        dist[node_at(edges, p, s, k)] is None,
        forall|i: int| 0 <= i < k ==> dist[node_at(edges, p, s, i)] is Some,
    decreases p.len() - lo,
{
    if lo == p.len() || dist[node_at(edges, p, s, lo)] is None {
        lo
    } else {
        first_unlabeled_along(edges, dist, p, s, lo + 1)
    }
}

/// The heart of the settling step: when `u` carries the least label `d`
/// among the unsettled nodes, every walk from the source to `u` costs at
/// least `d`. Any such walk must first leave the settled region, and at that
/// crossing its cost has already reached the crossing node's label, which is
/// at least `d`.
proof fn lemma_cost_ge_settle(
    edges: Seq<DiEdge>,
    s: int,
    dist: Seq<Option<u64>>,
    settled: Seq<bool>,
    u: int,
    d: int,
    p: Seq<int>,
)
    requires
        dist.len() == settled.len(),
        0 <= s < dist.len(),
        dist[s] is Some,
        dist[s]->0 == 0,
        settled_ok(edges, s, dist, settled),
        relaxed(edges, dist, settled),
        min_selected(dist, settled, d),
        0 <= u < dist.len(),
        !settled[u],
        d >= 0,
        forall|k: int|
            0 <= k < edges.len() ==> (#[trigger] edges[k]).src < dist.len() && edges[k].dst
                < dist.len(),
        is_path(edges, p, s, u),
    ensures
        path_cost(edges, p) >= d,
{
    lemma_path_cost_nonneg(edges, p);
    let n = p.len() as int;
    assert(node_at(edges, p, s, n) == u);
    assert forall|i: int| 0 <= i <= p.len() implies 0 <= #[trigger] node_at(edges, p, s, i)
        < settled.len() by {
        if i > 0 {
            assert(0 <= p[i - 1] < edges.len());
        }
    }
    let k = first_unsettled_along(edges, settled, p, s, 0);
    let w = node_at(edges, p, s, k);
    if k == 0 {
        // the source itself is unsettled, so its zero label bounds d
        assert(w == s);
        assert(dist[s]->0 >= d);
    } else {
        let prev = node_at(edges, p, s, k - 1);
        assert(settled[prev]);
        let dp = dist[prev]->0 as int;
        lemma_path_prefix(edges, p, s, u, k - 1);
        assert(path_cost(edges, p.subrange(0, k - 1)) >= dp) by {
            assert(is_shortest(edges, s, prev, dp));
        }
        let ei = p[k - 1];
        assert(0 <= ei < edges.len());
        assert(edges[ei].src == prev) by {
            if k - 1 > 0 {
                assert(edges[p[k - 2]].dst == edges[p[k - 1]].src);
            }
        }
        assert(edges[ei].dst == w);
        assert(dist[w] is Some && dist[w]->0 <= dp + edges[ei].weight_milli);
        assert(dist[w]->0 >= d);
        lemma_path_cost_step(edges, p, k - 1);
        lemma_path_cost_prefix_le(edges, p, k);
        assert(path_cost(edges, p.subrange(0, k)) >= dp + edges[ei].weight_milli);
    }
}

/// Once every labelled node is settled and all their edges are relaxed, an
/// unlabelled node is unreachable: a walk to it would have to cross from the
/// labelled region to the unlabelled one along some edge, and relaxation
/// would have labelled that edge's head.
proof fn lemma_unlabeled_unreachable(
    edges: Seq<DiEdge>,
    s: int,
    dist: Seq<Option<u64>>,
    settled: Seq<bool>,
    v: int,
)
    requires
        dist.len() == settled.len(),
        0 <= s < dist.len(),
        dist[s] is Some,
        relaxed(edges, dist, settled),
        forall|x: int| 0 <= x < dist.len() && (#[trigger] dist[x]) is Some ==> settled[x],
        0 <= v < dist.len(),
        dist[v] is None,
        forall|k: int|
            0 <= k < edges.len() ==> (#[trigger] edges[k]).src < dist.len() && edges[k].dst
                < dist.len(),
    ensures
        !has_path(edges, s, v),
{
    if has_path(edges, s, v) {
        let p = choose|p: Seq<int>| is_path(edges, p, s, v);
        let n = p.len() as int;
        assert(node_at(edges, p, s, n) == v);
        assert forall|i: int| 0 <= i <= p.len() implies 0 <= #[trigger] node_at(edges, p, s, i)
            < dist.len() by {
            if i > 0 {
                assert(0 <= p[i - 1] < edges.len());
            }
        }
        let k = first_unlabeled_along(edges, dist, p, s, 0);
        let w = node_at(edges, p, s, k);
        assert(k > 0);
        let prev = node_at(edges, p, s, k - 1);
        assert(dist[prev] is Some);
        assert(settled[prev]);
        let ei = p[k - 1];
        assert(0 <= ei < edges.len());
        assert(edges[ei].src == prev) by {
            if k - 1 > 0 {
                assert(edges[p[k - 2]].dst == edges[p[k - 1]].src);
            }
        }
        assert(edges[ei].dst == w);
        assert(dist[w] is Some);
    }
}

/// Every edge leaving a settled node is relaxed, except that edges leaving
/// `u` are only guaranteed up to index `k` (the scan frontier).
spec fn relaxed_except(
    edges: Seq<DiEdge>,
    dist: Seq<Option<u64>>,
    settled: Seq<bool>,
    u: int,
    k: int,
) -> bool {
    forall|kk: int|
        0 <= kk < edges.len() && (#[trigger] edges[kk]).src < settled.len() && settled[edges[kk].src as int]
            && (edges[kk].src != u || kk < k) ==> dist[edges[kk].dst as int] is Some
            && dist[edges[kk].dst as int]->0 <= dist[edges[kk].src as int]->0 + edges[kk].weight_milli
}

/// Single-source shortest distances from `s`, by Dijkstra's method over the
/// non-negative edge weights. `Some(d)` means the least walk cost from `s`
/// to that node is exactly `d` milli-units; `None` means the node is
/// unreachable from `s`.
#[verifier::rlimit(100)]
pub fn dijkstra(g: &DirectedGraph, s: usize) -> (dist: Vec<Option<u64>>)
    requires
        g.wf(),
        s < g.labels@.len(),
        g.labels@.len() <= MAX_PATH_NODES,
    ensures
        dist@.len() == g.labels@.len(),
        forall|v: int|
            0 <= v < dist@.len() && (#[trigger] dist@[v]) is Some ==> is_shortest(
                g.edges@,
                s as int,
                v,
                dist@[v]->0 as int,
            ) && dist@[v]->0 <= g.labels@.len() * ((RATE_GAP_LIMIT_MILLI - 1) as int),
        forall|v: int|
            0 <= v < dist@.len() && (#[trigger] dist@[v]) is None ==> !has_path(
                g.edges@,
                s as int,
                v,
            ),
{
    let n = g.labels.len();
    let m = g.edges.len();
    let ghost edges = g.edges@;
    let mut dist: Vec<Option<u64>> = Vec::new();
    let mut settled: Vec<bool> = Vec::new();
    let mut t: usize = 0;
    while t < n
        invariant
            t <= n,
            dist@.len() == t,
            settled@.len() == t,
            forall|v: int| 0 <= v < t ==> (#[trigger] dist@[v]) is None,
            forall|v: int| 0 <= v < t ==> !(#[trigger] settled@[v]),
        decreases n - t,
    {
        dist.push(None);
        settled.push(false);
        t += 1;
    }
    dist.set(s, Some(0u64));
    proof {
        assert(is_path(edges, Seq::<int>::empty(), s as int, s as int));
        assert(path_cost(edges, Seq::<int>::empty()) == 0);
        lemma_count_settled_le(settled@);
    }
    let mut done = false;
    while !done
        invariant
            n == g.labels@.len(),
            n <= MAX_PATH_NODES,
            m == edges.len(),
            edges == g.edges@,
            g.wf(),
            s < n,
            dist@.len() == n,
            settled@.len() == n,
            dist@[s as int] is Some,
            dist@[s as int]->0 == 0,
            label_sound(edges, s as int, dist@),
            settled_ok(edges, s as int, dist@, settled@),
            relaxed(edges, dist@, settled@),
            labels_bounded(dist@, count_settled(settled@) * ((RATE_GAP_LIMIT_MILLI - 1) as int)),
            count_settled(settled@) <= n,
            done ==> forall|v: int| 0 <= v < n && !settled@[v] ==> (#[trigger] dist@[v]) is None,
        decreases 2 * (n - count_settled(settled@)) + (if done {
            0int
        } else {
            1int
        }),
    {
        let ghost entry_settled = settled@;
        let mut has_best = false;
        let mut best_u: usize = 0;
        let mut best_d: u64 = 0;
        let mut v: usize = 0;
        while v < n
            invariant
                v <= n,
                n == dist@.len(),
                settled@.len() == n,
                has_best ==> best_u < n && !settled@[best_u as int] && dist@[best_u as int] is Some
                    && dist@[best_u as int]->0 == best_d,
                has_best ==> forall|x: int|
                    0 <= x < v && !settled@[x] && (#[trigger] dist@[x]) is Some ==> dist@[x]->0
                        >= best_d,
                !has_best ==> forall|x: int|
                    0 <= x < v && !settled@[x] ==> (#[trigger] dist@[x]) is None,
            decreases n - v,
        {
            if !settled[v] {
                match dist[v] {
                    Some(dv) => {
                        if !has_best || dv < best_d {
                            has_best = true;
                            best_u = v;
                            best_d = dv;
                        }
                    },
                    None => {},
                }
            }
            v += 1;
        }
        if !has_best {
            done = true;
        } else {
            let u = best_u;
            let d = best_d;
            settled.set(u, true);
            proof {
                lemma_count_settled_update(entry_settled, u as int);
                lemma_count_settled_le(settled@);
                assert(is_shortest(edges, s as int, u as int, d as int)) by {
                    assert forall|p: Seq<int>| is_path(edges, p, s as int, u as int) implies
                        path_cost(edges, p) >= d by {
                        lemma_cost_ge_settle(
                            edges,
                            s as int,
                            dist@,
                            entry_settled,
                            u as int,
                            d as int,
                            p,
                        );
                    }
                }
                assert forall|x: int| 0 <= x < settled@.len() && (#[trigger] settled@[x]) implies
                    dist@[x] is Some && is_shortest(edges, s as int, x, dist@[x]->0 as int) by {
                    if x != u {
                        assert(entry_settled[x]);
                    }
                }
                assert(labels_bounded(
                    dist@,
                    count_settled(settled@) * ((RATE_GAP_LIMIT_MILLI - 1) as int),
                )) by {
                    let c0 = count_settled(entry_settled) as int;
                    let lim = (RATE_GAP_LIMIT_MILLI - 1) as int;
                    assert(c0 * lim <= (c0 + 1) * lim) by (nonlinear_arith)
                        requires
                            c0 >= 0,
                            lim >= 0,
                    ;
                }
            }
            let mut k: usize = 0;
            while k < m
                invariant
                    n == g.labels@.len(),
                    n <= MAX_PATH_NODES,
                    m == edges.len(),
                    edges == g.edges@,
                    g.wf(),
                    s < n,
                    k <= m,
                    u < n,
                    dist@.len() == n,
                    settled@.len() == n,
                    settled@[u as int],
                    dist@[u as int] is Some,
                    dist@[u as int]->0 == d,
                    is_shortest(edges, s as int, u as int, d as int),
                    dist@[s as int] is Some,
                    dist@[s as int]->0 == 0,
                    label_sound(edges, s as int, dist@),
                    settled_ok(edges, s as int, dist@, settled@),
                    relaxed_except(edges, dist@, settled@, u as int, k as int),
                    labels_bounded(
                        dist@,
                        count_settled(settled@) * ((RATE_GAP_LIMIT_MILLI - 1) as int),
                    ),
                    count_settled(settled@) <= n,
                    count_settled(settled@) == count_settled(entry_settled) + 1,
                    d <= count_settled(entry_settled) * ((RATE_GAP_LIMIT_MILLI - 1) as int),
                decreases m - k,
            {
                let src = g.edges[k].src;
                if src == u {
                    let dst = g.edges[k].dst;
                    let w = g.edges[k].weight_milli;
                    proof {
                        let c = count_settled(settled@) as int;
                        let lim = (RATE_GAP_LIMIT_MILLI - 1) as int;
                        assert(d <= c * lim);
                        assert(c * lim <= MAX_PATH_NODES * lim) by (nonlinear_arith)
                            requires
                                0 <= c <= MAX_PATH_NODES,
                                lim >= 0,
                        ;
                    }
                    let cand = d + w;
                    let ghost pre_dist = dist@;
                    if !settled[dst] {
                        let better: bool = match dist[dst] {
                            None => true,
                            Some(dc) => cand < dc,
                        };
                        if better {
                            dist.set(dst, Some(cand));
                            proof {
                                let pu = choose|p: Seq<int>|
                                    is_path(edges, p, s as int, u as int) && path_cost(edges, p)
                                        == d;
                                lemma_path_extend(edges, pu, s as int, u as int, k as int);
                                assert(is_path(edges, pu.push(k as int), s as int, dst as int));
                                assert(path_cost(edges, pu.push(k as int)) == cand);
                                assert forall|x: int|
                                    0 <= x < dist@.len() && (#[trigger] dist@[x]) is Some implies
                                    exists|p: Seq<int>|
                                        is_path(edges, p, s as int, x) && path_cost(edges, p)
                                            == dist@[x]->0 by {
                                    if x != dst {
                                        assert(pre_dist[x] == dist@[x]);
                                    }
                                }
                                let c = count_settled(settled@) as int;
                                let lim = (RATE_GAP_LIMIT_MILLI - 1) as int;
                                assert(cand <= c * lim) by {
                                    assert(d <= (c - 1) * lim);
                                    assert(w <= lim);
                                    assert((c - 1) * lim + lim == c * lim) by (nonlinear_arith);
                                }
                                assert forall|x: int|
                                    0 <= x < dist@.len() && (#[trigger] dist@[x]) is Some implies
                                    dist@[x]->0 <= c * lim by {
                                    if x != dst {
                                        assert(pre_dist[x] == dist@[x]);
                                    }
                                }
                            }
                        }
                    } else {
                        proof {
                            let ds = dist@[dst as int]->0 as int;
                            assert(is_shortest(edges, s as int, dst as int, ds));
                            let pu = choose|p: Seq<int>|
                                is_path(edges, p, s as int, u as int) && path_cost(edges, p) == d;
                            lemma_path_extend(edges, pu, s as int, u as int, k as int);
                            assert(is_path(edges, pu.push(k as int), s as int, dst as int));
                            assert(path_cost(edges, pu.push(k as int)) == cand);
                            assert(ds <= cand);
                        }
                    }
                }
                k += 1;
            }
        }
    }
    proof {
        assert forall|v: int| 0 <= v < n && (#[trigger] dist@[v]) is Some implies is_shortest(
            edges,
            s as int,
            v,
            dist@[v]->0 as int,
        ) && dist@[v]->0 <= n * ((RATE_GAP_LIMIT_MILLI - 1) as int) by {
            assert(settled@[v]);
            let c = count_settled(settled@) as int;
            let lim = (RATE_GAP_LIMIT_MILLI - 1) as int;
            assert(c * lim <= n * lim) by (nonlinear_arith)
                requires
                    0 <= c <= n,
                    lim >= 0,
            ;
        }
        assert forall|v: int| 0 <= v < n && (#[trigger] dist@[v]) is None implies !has_path(
            edges,
            s as int,
            v,
        ) by {
            lemma_unlabeled_unreachable(edges, s as int, dist@, settled@, v);
        }
    }
    dist
}

/// Sum of the shortest distances from `s` to the reachable targets among
/// `0 .. m`; unreachable targets contribute nothing.
pub open spec fn row_total_upto(edges: Seq<DiEdge>, s: int, m: int) -> int
    decreases m,
{
    if m <= 0 {
        0
    } else {
        row_total_upto(edges, s, m - 1) + if has_path(edges, s, m - 1) {
            shortest_dist(edges, s, m - 1)
        } else {
            0
        }
    }
}

/// Count of reachable targets among `0 .. m` from source `s`.
pub open spec fn row_pairs_upto(edges: Seq<DiEdge>, s: int, m: int) -> int
    decreases m,
{
    if m <= 0 {
        0
    } else {
        row_pairs_upto(edges, s, m - 1) + if has_path(edges, s, m - 1) {
            1int
        } else {
            0int
        }
    }
}

/// Sum of all shortest distances over the sources `0 .. si`, targets `0 .. n`.
pub open spec fn rows_total_upto(edges: Seq<DiEdge>, n: int, si: int) -> int
    decreases si,
{
    if si <= 0 {
        0
    } else {
        rows_total_upto(edges, n, si - 1) + row_total_upto(edges, si - 1, n)
    }
}

/// Count of all reachable (source, target) pairs over the sources `0 .. si`.
pub open spec fn rows_pairs_upto(edges: Seq<DiEdge>, n: int, si: int) -> int
    decreases si,
{
    if si <= 0 {
        0
    } else {
        rows_pairs_upto(edges, n, si - 1) + row_pairs_upto(edges, si - 1, n)
    }
}

/// Sum of the shortest distances over all ordered (source, reachable-target)
/// pairs of an `n`-node graph, each node's zero distance to itself included.
pub open spec fn total_path_length(edges: Seq<DiEdge>, n: int) -> int {
    rows_total_upto(edges, n, n)
}

/// Count of all ordered (source, reachable-target) pairs.
pub open spec fn total_path_pairs(edges: Seq<DiEdge>, n: int) -> int {
    rows_pairs_upto(edges, n, n)
}

/// Sum and count of all single-source shortest distances of the graph; the
/// mean path length is their quotient.
#[derive(Clone, Copy, Debug)]
pub struct PathLengthSummary {
    pub total_milli: u64,
    pub pairs: u64,
}

impl PathLengthSummary {
    /// The mean shortest-path length in milli-units, rounded down; zero when
    /// the graph has no (source, reachable-target) pairs at all, which
    /// guards the division on an empty node set.
    pub fn average_milli(&self) -> (r: u64)
        ensures
            self.pairs == 0 ==> r == 0,
            self.pairs > 0 ==> r == self.total_milli / self.pairs,
    {
        if self.pairs == 0 {
            0
        } else {
            self.total_milli / self.pairs
        }
    }
}

/// Run a shortest-path sweep from every node, and accumulate the sum of all
/// computed distances — each node's zero-distance path to itself included —
/// and the count of all (source, reachable-target) pairs. On a graph with
/// zero nodes both come out zero, and the reported mean is zero.
#[verifier::rlimit(100)]
pub fn compute_average_shortest_path(g: &DirectedGraph) -> (r: PathLengthSummary)
    requires
        g.wf(),
        g.labels@.len() <= MAX_PATH_NODES,
    ensures
        r.total_milli == total_path_length(g.edges@, g.labels@.len() as int),
        r.pairs == total_path_pairs(g.edges@, g.labels@.len() as int),
        g.labels@.len() == 0 ==> r.total_milli == 0 && r.pairs == 0,
{
    let n = g.labels.len();
    let ghost edges = g.edges@;
    let ghost ni = n as int;
    let ghost bound = ni * ((RATE_GAP_LIMIT_MILLI - 1) as int);
    proof {
        assert(bound <= 8192 * 49_999) by (nonlinear_arith)
            requires
                bound == ni * 49_999,
                0 <= ni <= 8192,
        ;
    }
    let mut total: u64 = 0;
    let mut pairs: u64 = 0;
    let mut si: usize = 0;
    while si < n
        invariant
            si <= n,
            n == g.labels@.len(),
            ni == n as int,
            n <= MAX_PATH_NODES,
            edges == g.edges@,
            g.wf(),
            bound == ni * ((RATE_GAP_LIMIT_MILLI - 1) as int),
            0 <= bound <= 8192 * 49_999,
            total == rows_total_upto(edges, ni, si as int),
            pairs == rows_pairs_upto(edges, ni, si as int),
            pairs <= (si as int) * ni,
            total <= pairs * bound,
        decreases n - si,
    {
        let drow = dijkstra(g, si);
        let mut w: usize = 0;
        while w < n
            invariant
                w <= n,
                si < n,
                n == g.labels@.len(),
                ni == n as int,
                n <= MAX_PATH_NODES,
                edges == g.edges@,
                g.wf(),
                bound == ni * ((RATE_GAP_LIMIT_MILLI - 1) as int),
                0 <= bound <= 8192 * 49_999,
                drow@.len() == n,
                forall|v: int|
                    0 <= v < n && (#[trigger] drow@[v]) is Some ==> is_shortest(
                        edges,
                        si as int,
                        v,
                        drow@[v]->0 as int,
                    ) && drow@[v]->0 <= bound,
                forall|v: int|
                    0 <= v < n && (#[trigger] drow@[v]) is None ==> !has_path(edges, si as int, v),
                total == rows_total_upto(edges, ni, si as int) + row_total_upto(
                    edges,
                    si as int,
                    w as int,
                ),
                pairs == rows_pairs_upto(edges, ni, si as int) + row_pairs_upto(
                    edges,
                    si as int,
                    w as int,
                ),
                pairs <= (si as int) * ni + w,
                total <= pairs * bound,
            decreases n - w,
        {
            match drow[w] {
                Some(dv) => {
                    proof {
                        lemma_shortest_dist_of(edges, si as int, w as int, dv as int);
                        let pi = pairs as int;
                        let ti = total as int;
                        assert(pi < ni * ni) by (nonlinear_arith)
                            requires
                                pi <= (si as int) * ni + w,
                                0 <= si < ni,
                                0 <= w < ni,
                        ;
                        assert(ni * ni <= 8192 * 8192) by (nonlinear_arith)
                            requires
                                0 <= ni <= 8192,
                        ;
                        assert(ti + dv <= (pi + 1) * bound && (pi + 1) * bound <= ni * ni * bound)
                            by (nonlinear_arith)
                            requires
                                ti <= pi * bound,
                                0 <= pi,
                                pi + 1 <= ni * ni,
                                0 <= dv <= bound,
                                0 <= bound,
                        ;
                        assert(ni * ni * bound <= 8192 * 8192 * (8192 * 49_999))
                            by (nonlinear_arith)
                            requires
                                0 <= ni <= 8192,
                                0 <= bound <= 8192 * 49_999,
                        ;
                    }
                    total = total + dv;
                    pairs = pairs + 1;
                },
                None => {},
            }
            w += 1;
        }
        proof {
            assert(((si as int) + 1) * ni == (si as int) * ni + ni) by (nonlinear_arith);
        }
        si += 1;
    }
    PathLengthSummary { total_milli: total, pairs }
}

} // verus!
