//! Partition of the undirected similarity graph into connected clusters.
//!
//! A cluster is a maximal set of nodes reachable from one another through
//! undirected edges; isolated nodes form one-element clusters of their own.

use vstd::prelude::*;
use crate::graph::{labels_view, UnEdge, UndirectedGraph};

verus! {

/// Nodes `u` and `v` are joined by some edge, in either orientation.
pub open spec fn adjacent(edges: Seq<UnEdge>, u: int, v: int) -> bool {
    exists|k: int|
        0 <= k < edges.len() && ((#[trigger] edges[k]).a == u && edges[k].b == v || edges[k].a == v
            && edges[k].b == u)
}

/// A walk from `u` to `v`: a nonempty node sequence that starts at `u`, ends
/// at `v`, and steps only along edges.
pub open spec fn is_walk(edges: Seq<UnEdge>, p: Seq<int>, u: int, v: int) -> bool {
    p.len() > 0 && p[0] == u && p.last() == v && forall|k: int|
        0 <= k < p.len() - 1 ==> adjacent(edges, #[trigger] p[k], p[k + 1])
}

/// `v` is reachable from `u` through the edges.
pub open spec fn connected(edges: Seq<UnEdge>, u: int, v: int) -> bool {
    exists|p: Seq<int>| is_walk(edges, p, u, v)
}

pub proof fn lemma_connected_refl(edges: Seq<UnEdge>, u: int)
    ensures
        connected(edges, u, u),
{
    let p = seq![u];
    assert(is_walk(edges, p, u, u));
}

pub proof fn lemma_connected_step(edges: Seq<UnEdge>, u: int, v: int, w: int)
    requires
        connected(edges, u, v),
        adjacent(edges, v, w),
    ensures
        connected(edges, u, w),
{
    let p = choose|p: Seq<int>| is_walk(edges, p, u, v);
    let q = p.push(w);
    assert forall|k: int| 0 <= k < q.len() - 1 implies adjacent(edges, #[trigger] q[k], q[k + 1]) by {
        if k < p.len() - 1 {
            assert(q[k] == p[k] && q[k + 1] == p[k + 1]);
        } else {
            assert(q[k] == p.last() && q[k + 1] == w);
        }
    }
    assert(is_walk(edges, q, u, w));
}

pub proof fn lemma_connected_sym(edges: Seq<UnEdge>, u: int, v: int)
    requires
        connected(edges, u, v),
    ensures
        connected(edges, v, u),
{
    let p = choose|p: Seq<int>| is_walk(edges, p, u, v);
    let n = p.len() as int;
    let q = Seq::new(p.len(), |i: int| p[n - 1 - i]);
    assert forall|k: int| 0 <= k < q.len() - 1 implies adjacent(edges, #[trigger] q[k], q[k + 1]) by {
        assert(adjacent(edges, p[n - 2 - k], p[n - 1 - k]));
    }
    assert(q[0] == p.last());
    assert(q.last() == p[0]);
    assert(is_walk(edges, q, v, u));
}

pub proof fn lemma_connected_trans(edges: Seq<UnEdge>, u: int, v: int, w: int)
    requires
        connected(edges, u, v),
        connected(edges, v, w),
    ensures
        connected(edges, u, w),
{
    let p = choose|p: Seq<int>| is_walk(edges, p, u, v);
    let r = choose|r: Seq<int>| is_walk(edges, r, v, w);
    let q = p + r.drop_first();
    if r.len() == 1 {
        assert(q =~= p);
        assert(is_walk(edges, q, u, w));
    } else {
        assert(q.last() == r.last());
        assert forall|k: int| 0 <= k < q.len() - 1 implies adjacent(
            edges,
            #[trigger] q[k],
            q[k + 1],
        ) by {
            if k < p.len() - 1 {
                assert(q[k] == p[k] && q[k + 1] == p[k + 1]);
            } else if k == p.len() - 1 {
                assert(q[k] == p.last());
                assert(q[k + 1] == r[1]);
                assert(adjacent(edges, r[0], r[1]));
            } else {
                let t = k - p.len() + 1;
                assert(q[k] == r[t] && q[k + 1] == r[t + 1]);
                assert(adjacent(edges, r[t], r[t + 1]));
            }
        }
        assert(is_walk(edges, q, u, w));
    }
}

/// Number of occurrences of `v` in one group.
pub open spec fn occ(s: Seq<usize>, v: usize) -> nat
    decreases s.len(),
{
    if s.len() == 0 {
        0
    } else {
        occ(s.drop_last(), v) + if s.last() == v {
            1nat
        } else {
            0nat
        }
    }
}

/// Number of occurrences of `v` across all groups.
pub open spec fn total_occ(gss: Seq<Seq<usize>>, v: usize) -> nat
    decreases gss.len(),
{
    if gss.len() == 0 {
        0
    } else {
        total_occ(gss.drop_last(), v) + occ(gss.last(), v)
    }
}

pub proof fn lemma_occ_contains(s: Seq<usize>, v: usize)
    ensures
        occ(s, v) >= 1 <==> s.contains(v),
    decreases s.len(),
{
    if s.len() > 0 {
        lemma_occ_contains(s.drop_last(), v);
        if s.contains(v) {
            let k = choose|k: int| 0 <= k < s.len() && s[k] == v;
            if k < s.len() - 1 {
                assert(s.drop_last()[k] == v);
            }
        }
        if s.drop_last().contains(v) {
            let k = choose|k: int| 0 <= k < s.len() - 1 && s.drop_last()[k] == v;
            assert(s[k] == v);
        }
    }
}

pub proof fn lemma_occ_push(s: Seq<usize>, x: usize, v: usize)
    ensures
        occ(s.push(x), v) == occ(s, v) + if x == v {
            1nat
        } else {
            0nat
        },
{
    assert(s.push(x).drop_last() =~= s);
}

pub proof fn lemma_total_occ_push(gss: Seq<Seq<usize>>, g: Seq<usize>, v: usize)
    ensures
        total_occ(gss.push(g), v) == total_occ(gss, v) + occ(g, v),
{
    assert(gss.push(g).drop_last() =~= gss);
}

/// One group's occurrences never exceed the total across all groups.
pub proof fn lemma_total_occ_bounds_group(gss: Seq<Seq<usize>>, i: int, v: usize)
    requires
        0 <= i < gss.len(),
    ensures
        total_occ(gss, v) >= occ(gss[i], v),
    decreases gss.len(),
{
    if i == gss.len() - 1 {
        assert(gss.last() == gss[i]);
    } else {
        lemma_total_occ_bounds_group(gss.drop_last(), i, v);
        assert(gss.drop_last()[i] == gss[i]);
    }
}

/// Two distinct groups that share a member force a total count of two.
pub proof fn lemma_total_occ_two_groups(gss: Seq<Seq<usize>>, i: int, j: int, v: usize)
    requires
        0 <= i < j < gss.len(),
        gss[i].contains(v),
        gss[j].contains(v),
    ensures
        total_occ(gss, v) >= 2,
    decreases gss.len(),
{
    lemma_occ_contains(gss[i], v);
    lemma_occ_contains(gss[j], v);
    if j == gss.len() - 1 {
        lemma_total_occ_bounds_group(gss.drop_last(), i, v);
        assert(gss.drop_last()[i] == gss[i]);
        assert(gss.last() == gss[j]);
    } else {
        assert(gss.drop_last()[i] == gss[i]);
        assert(gss.drop_last()[j] == gss[j]);
        lemma_total_occ_two_groups(gss.drop_last(), i, j, v);
    }
}

/// Some group holds `v` whenever the total count is positive.
pub proof fn lemma_total_occ_some_group(gss: Seq<Seq<usize>>, v: usize)
    requires
        total_occ(gss, v) >= 1,
    ensures
        exists|i: int| 0 <= i < gss.len() && (#[trigger] gss[i]).contains(v),
    decreases gss.len(),
{
    if gss.len() > 0 {
        if occ(gss.last(), v) >= 1 {
            lemma_occ_contains(gss.last(), v);
            assert(gss[gss.len() - 1].contains(v));
        } else {
            lemma_total_occ_some_group(gss.drop_last(), v);
            let i = choose|i: int|
                0 <= i < gss.drop_last().len() && (#[trigger] gss.drop_last()[i]).contains(v);
            assert(gss[i].contains(v));
        }
    }
}

/// Some group of the partition holds node `v`.
pub open spec fn in_some_group(gss: Seq<Seq<usize>>, v: usize) -> bool {
    exists|i: int| 0 <= i < gss.len() && (#[trigger] gss[i]).contains(v)
}

/// Every node of a walk stays in whatever group holds the walk's start:
/// each step crosses an edge, and no edge leaves a group.
proof fn lemma_walk_stays_in_group(
    edges: Seq<UnEdge>,
    gss: Seq<Seq<usize>>,
    p: Seq<int>,
    i: int,
    k: int,
)
    requires
        forall|ii: int, kk: int|
            0 <= ii < gss.len() && 0 <= kk < edges.len() ==> (#[trigger] gss[ii].contains(
                (#[trigger] edges[kk]).a,
            ) <==> gss[ii].contains(edges[kk].b)),
        0 <= i < gss.len(),
        0 <= k < p.len(),
        forall|t: int| 0 <= t < p.len() - 1 ==> adjacent(edges, #[trigger] p[t], p[t + 1]),
        forall|t: int| 0 <= t < p.len() ==> 0 <= #[trigger] p[t] < usize::MAX,
        gss[i].contains(p[0] as usize),
    ensures
        gss[i].contains(p[k] as usize),
    decreases k,
{
    if k > 0 {
        lemma_walk_stays_in_group(edges, gss, p, i, k - 1);
        assert(adjacent(edges, p[k - 1], p[k]));
        let e = choose|kk: int|
            0 <= kk < edges.len() && ((#[trigger] edges[kk]).a == p[k - 1] && edges[kk].b == p[k]
                || edges[kk].a == p[k] && edges[kk].b == p[k - 1]);
        assert(gss[i].contains(edges[e].a) <==> gss[i].contains(edges[e].b));
    }
}

/// Connected nodes always land in one and the same cluster: the groups of a
/// component partition are maximal, never a component split in two.
pub proof fn lemma_connected_same_group(
    n: int,
    edges: Seq<UnEdge>,
    gss: Seq<Seq<usize>>,
    i: int,
    u: usize,
    v: usize,
)
    requires
        is_component_partition(n, edges, gss),
        forall|k: int| 0 <= k < edges.len() ==> (#[trigger] edges[k]).a < n && edges[k].b < n,
        n <= usize::MAX,
        connected(edges, u as int, v as int),
        0 <= i < gss.len(),
        gss[i].contains(u),
        v < n,
    ensures
        gss[i].contains(v),
{
    let p = choose|p: Seq<int>| is_walk(edges, p, u as int, v as int);
    assert forall|t: int| 0 <= t < p.len() implies 0 <= #[trigger] p[t] < usize::MAX by {
        if t == 0 {
        } else if t == p.len() - 1 {
        } else {
            assert(adjacent(edges, p[t - 1], p[t]));
            let e = choose|kk: int|
                0 <= kk < edges.len() && ((#[trigger] edges[kk]).a == p[t - 1] && edges[kk].b
                    == p[t] || edges[kk].a == p[t] && edges[kk].b == p[t - 1]);
        }
    }
    lemma_walk_stays_in_group(edges, gss, p, i, p.len() - 1);
    assert(p[p.len() - 1] == v as int);
}

/// The groups of one partition, viewed as node-index sequences.
pub open spec fn groups_view(gs: Seq<Vec<usize>>) -> Seq<Seq<usize>> {
    gs.map_values(|g: Vec<usize>| g@)
}

/// What it means for `gss` to be exactly the connected-component partition of
/// a graph with `n` nodes and the given edges: every node lies in exactly one
/// group, groups are nonempty and internally connected, and no edge leaves a
/// group.
pub open spec fn is_component_partition(n: int, edges: Seq<UnEdge>, gss: Seq<Seq<usize>>) -> bool {
    &&& forall|v: usize| v < n ==> total_occ(gss, v) == 1
    &&& forall|v: usize| total_occ(gss, v) >= 1 ==> v < n
    &&& forall|i: int| 0 <= i < gss.len() ==> (#[trigger] gss[i]).len() > 0
    &&& forall|i: int, t: int|
        0 <= i < gss.len() && 0 <= t < gss[i].len() ==> connected(
            edges,
            gss[i][0] as int,
            #[trigger] gss[i][t] as int,
        )
    &&& forall|i: int, k: int|
        0 <= i < gss.len() && 0 <= k < edges.len() ==> ((#[trigger] gss[i]).contains(
            (#[trigger] edges[k]).a,
        ) <==> gss[i].contains(edges[k].b))
}

/// The component partition in plain set terms: the groups cover the node set
/// exactly, no two distinct groups overlap, and members of one group are
/// pairwise connected.
pub proof fn lemma_component_partition_exact(n: int, edges: Seq<UnEdge>, gss: Seq<Seq<usize>>)
    requires
        is_component_partition(n, edges, gss),
    ensures
        forall|v: usize| #[trigger] in_some_group(gss, v) <==> v < n,
        forall|i: int, j: int, v: usize|
            0 <= i < gss.len() && 0 <= j < gss.len() && i != j ==> !(#[trigger] gss[i].contains(v)
                && #[trigger] gss[j].contains(v)),
        forall|i: int, t1: int, t2: int|
            0 <= i < gss.len() && 0 <= t1 < gss[i].len() && 0 <= t2 < gss[i].len() ==> connected(
                edges,
                #[trigger] gss[i][t1] as int,
                #[trigger] gss[i][t2] as int,
            ),
{
    assert forall|v: usize| #[trigger] in_some_group(gss, v) <==> v < n by {
        if in_some_group(gss, v) {
            let i = choose|i: int| 0 <= i < gss.len() && (#[trigger] gss[i]).contains(v);
            lemma_occ_contains(gss[i], v);
            lemma_total_occ_bounds_group(gss, i, v);
            assert(total_occ(gss, v) >= 1);
            assert(v < n);
        }
        if v < n {
            assert(total_occ(gss, v) == 1);
            lemma_total_occ_some_group(gss, v);
        }
    }
    assert forall|i: int, j: int, v: usize|
        0 <= i < gss.len() && 0 <= j < gss.len() && i != j implies !(#[trigger] gss[i].contains(v)
        && #[trigger] gss[j].contains(v)) by {
        if gss[i].contains(v) && gss[j].contains(v) {
            if i < j {
                lemma_total_occ_two_groups(gss, i, j, v);
            } else {
                lemma_total_occ_two_groups(gss, j, i, v);
            }
            lemma_occ_contains(gss[i], v);
            lemma_total_occ_bounds_group(gss, i, v);
        }
    }
    assert forall|i: int, t1: int, t2: int|
        0 <= i < gss.len() && 0 <= t1 < gss[i].len() && 0 <= t2 < gss[i].len() implies connected(
        edges,
        #[trigger] gss[i][t1] as int,
        #[trigger] gss[i][t2] as int,
    ) by {
        lemma_connected_sym(edges, gss[i][0] as int, gss[i][t1] as int);
        lemma_connected_trans(edges, gss[i][t1] as int, gss[i][0] as int, gss[i][t2] as int);
    }
}

/// Count of nodes not yet visited.
pub open spec fn count_unvisited(s: Seq<bool>) -> nat
    decreases s.len(),
{
    if s.len() == 0 {
        0
    } else {
        count_unvisited(s.drop_last()) + if s.last() {
            0nat
        } else {
            1nat
        }
    }
}

proof fn lemma_count_unvisited_update(s: Seq<bool>, i: int)
    requires
        0 <= i < s.len(),
        !s[i],
    ensures
        count_unvisited(s) == count_unvisited(s.update(i, true)) + 1,
    decreases s.len(),
{
    let su = s.update(i, true);
    if i == s.len() - 1 {
        assert(su.drop_last() =~= s.drop_last());
        assert(su.last());
    } else {
        assert(su.drop_last() =~= s.drop_last().update(i, true));
        assert(su.last() == s.last());
        lemma_count_unvisited_update(s.drop_last(), i);
    }
}

/// State shared by the cluster search while one cluster is being grown:
/// `gss` holds the finished groups, `comp` the members already collected for
/// the current group, `stack` the members still waiting to be expanded.
spec fn search_inv(
    n: int,
    edges: Seq<UnEdge>,
    gss: Seq<Seq<usize>>,
    visited: Seq<bool>,
    comp: Seq<usize>,
    stack: Seq<usize>,
    start: int,
) -> bool {
    &&& visited.len() == n
    &&& 0 <= start < n
    &&& forall|v: usize|
        #[trigger] total_occ(gss, v) + occ(comp, v) + occ(stack, v) == if v < n && visited[v as int] {
            1nat
        } else {
            0nat
        }
    &&& forall|t: int|
        0 <= t < comp.len() ==> (#[trigger] comp[t]) < n && connected(edges, start, comp[t] as int)
    &&& forall|t: int|
        0 <= t < stack.len() ==> (#[trigger] stack[t]) < n && connected(
            edges,
            start,
            stack[t] as int,
        )
    &&& forall|t: int, k: int|
        0 <= t < comp.len() && 0 <= k < edges.len() ==> (((#[trigger] edges[k]).a
            == #[trigger] comp[t] ==> visited[edges[k].b as int]) && (edges[k].b == comp[t]
            ==> visited[edges[k].a as int]))
}

/// The finished groups: nonempty, internally connected, closed under edges.
spec fn groups_inv(n: int, edges: Seq<UnEdge>, gss: Seq<Seq<usize>>) -> bool {
    &&& forall|i: int| 0 <= i < gss.len() ==> (#[trigger] gss[i]).len() > 0
    &&& forall|i: int, t: int|
        0 <= i < gss.len() && 0 <= t < gss[i].len() ==> connected(
            edges,
            gss[i][0] as int,
            #[trigger] gss[i][t] as int,
        )
    &&& forall|i: int, k: int|
        0 <= i < gss.len() && 0 <= k < edges.len() ==> (#[trigger] gss[i].contains(
            (#[trigger] edges[k]).a,
        ) <==> gss[i].contains(edges[k].b))
}

/// A finished cluster may join the finished groups: it is nonempty,
/// internally connected, and — because every member's neighbours were
/// visited, and every visited node already lies in some group or in the
/// cluster itself — closed under edges.
proof fn lemma_groups_inv_extend(
    n: int,
    edges: Seq<UnEdge>,
    gss: Seq<Seq<usize>>,
    comp: Seq<usize>,
    visited: Seq<bool>,
    start: int,
)
    requires
        search_inv(n, edges, gss, visited, comp, Seq::<usize>::empty(), start),
        groups_inv(n, edges, gss),
        comp.len() > 0,
        forall|k: int| 0 <= k < edges.len() ==> (#[trigger] edges[k]).a < n && edges[k].b < n,
    ensures
        groups_inv(n, edges, gss.push(comp)),
{
    let gss2 = gss.push(comp);
    assert forall|i: int| 0 <= i < gss2.len() implies (#[trigger] gss2[i]).len() > 0 by {
        if i < gss.len() {
            assert(gss2[i] == gss[i]);
        } else {
            assert(gss2[i] == comp);
        }
    }
    assert forall|i: int, t: int| 0 <= i < gss2.len() && 0 <= t < gss2[i].len() implies connected(
        edges,
        gss2[i][0] as int,
        #[trigger] gss2[i][t] as int,
    ) by {
        if i < gss.len() {
            assert(gss2[i] == gss[i]);
        } else {
            assert(gss2[i] == comp);
            lemma_connected_sym(edges, start, comp[0] as int);
            lemma_connected_trans(edges, comp[0] as int, start, comp[t] as int);
        }
    }
    // An edge with one endpoint in the cluster has its other endpoint there
    // too: the other endpoint is visited, and a visited node in an older
    // group would pull the first endpoint into that group as well, which the
    // exactly-once count rules out.
    assert forall|k: int| 0 <= k < edges.len() && comp.contains((#[trigger] edges[k]).a) implies
        comp.contains(edges[k].b) by {
        lemma_comp_closed_one(n, edges, gss, comp, visited, start, k, true);
    }
    assert forall|k: int| 0 <= k < edges.len() && comp.contains((#[trigger] edges[k]).b) implies
        comp.contains(edges[k].a) by {
        lemma_comp_closed_one(n, edges, gss, comp, visited, start, k, false);
    }
    assert forall|i: int, k: int| 0 <= i < gss2.len() && 0 <= k < edges.len() implies (
    #[trigger] gss2[i].contains((#[trigger] edges[k]).a) <==> gss2[i].contains(edges[k].b)) by {
        if i < gss.len() {
            assert(gss2[i] == gss[i]);
        } else {
            assert(gss2[i] == comp);
        }
    }
}

/// One direction of the closure argument: if the cluster holds one endpoint
/// of edge `k`, it holds the other.
proof fn lemma_comp_closed_one(
    n: int,
    edges: Seq<UnEdge>,
    gss: Seq<Seq<usize>>,
    comp: Seq<usize>,
    visited: Seq<bool>,
    start: int,
    k: int,
    from_a: bool,
)
    requires
        search_inv(n, edges, gss, visited, comp, Seq::<usize>::empty(), start),
        groups_inv(n, edges, gss),
        0 <= k < edges.len(),
        forall|kk: int| 0 <= kk < edges.len() ==> (#[trigger] edges[kk]).a < n && edges[kk].b < n,
        from_a ==> comp.contains(edges[k].a),
        !from_a ==> comp.contains(edges[k].b),
    ensures
        from_a ==> comp.contains(edges[k].b),
        !from_a ==> comp.contains(edges[k].a),
{
    let x = if from_a {
        edges[k].a
    } else {
        edges[k].b
    };
    let y = if from_a {
        edges[k].b
    } else {
        edges[k].a
    };
    let t = choose|t: int| 0 <= t < comp.len() && comp[t] == x;
    assert(visited[y as int]);
    assert(occ(Seq::<usize>::empty(), y) == 0);
    assert(total_occ(gss, y) + occ(comp, y) == 1);
    if occ(comp, y) == 0 {
        lemma_occ_contains(comp, y);
        assert(total_occ(gss, y) == 1);
        lemma_total_occ_some_group(gss, y);
        let i = choose|i: int| 0 <= i < gss.len() && (#[trigger] gss[i]).contains(y);
        assert(gss[i].contains(edges[k].a) <==> gss[i].contains(edges[k].b));
        assert(gss[i].contains(x));
        lemma_occ_contains(gss[i], x);
        lemma_total_occ_bounds_group(gss, i, x);
        assert(total_occ(gss, x) >= 1);
        lemma_occ_contains(comp, x);
        assert(total_occ(gss, x) + occ(comp, x) >= 2);
        assert(x < n && visited[x as int]);
        assert(false);
    } else {
        lemma_occ_contains(comp, y);
    }
}

/// Partition the graph's nodes into maximal connected clusters. Clusters are
/// reported as groups of node handles: every node lies in exactly one group,
/// each group hangs together through its edges, and no edge joins two
/// groups. Nodes are taken up in handle order, so the result is
/// deterministic.
pub fn connected_components(g: &UndirectedGraph) -> (res: Vec<Vec<usize>>)
    requires
        g.wf(),
    ensures
        is_component_partition(g.labels@.len() as int, g.edges@, groups_view(res@)),
{
    let n = g.labels.len();
    let m = g.edges.len();
    let ghost edges = g.edges@;
    let mut visited: Vec<bool> = Vec::new();
    let mut t: usize = 0;
    while t < n
        invariant
            t <= n,
            visited@.len() == t,
            forall|v: int| 0 <= v < t ==> !(#[trigger] visited@[v]),
        decreases n - t,
    {
        visited.push(false);
        t += 1;
    }
    let mut groups: Vec<Vec<usize>> = Vec::new();
    proof {
        assert(groups_view(groups@) =~= Seq::<Seq<usize>>::empty());
        assert forall|v: usize| #[trigger] total_occ(groups_view(groups@), v) == (if v < n
            && visited@[v as int] {
            1nat
        } else {
            0nat
        }) by {
            if v < n {
                assert(!visited@[v as int]);
            }
        }
    }
    let mut start: usize = 0;
    while start < n
        invariant
            start <= n,
            n == g.labels@.len(),
            m == edges.len(),
            edges == g.edges@,
            g.wf(),
            visited@.len() == n,
            forall|v: usize|
                #[trigger] total_occ(groups_view(groups@), v) == (if v < n && visited@[v as int] {
                    1nat
                } else {
                    0nat
                }),
            forall|v: int| 0 <= v < start ==> #[trigger] visited@[v],
            groups_inv(n as int, edges, groups_view(groups@)),
        decreases n - start,
    {
        if !visited[start] {
            let ghost gss = groups_view(groups@);
            let mut comp: Vec<usize> = Vec::new();
            let mut stack: Vec<usize> = Vec::new();
            let ghost pre_visited = visited@;
            visited.set(start, true);
            stack.push(start);
            proof {
                lemma_connected_refl(edges, start as int);
                assert forall|v: usize|
                    #[trigger] total_occ(gss, v) + occ(comp@, v) + occ(stack@, v) == (if v < n
                    && visited@[v as int] {
                    1nat
                } else {
                    0nat
                }) by {
                    lemma_occ_push(Seq::<usize>::empty(), start, v);
                }
            }
            while stack.len() > 0
                invariant
                    n == g.labels@.len(),
                    m == edges.len(),
                    edges == g.edges@,
                    g.wf(),
                    gss == groups_view(groups@),
                    search_inv(n as int, edges, gss, visited@, comp@, stack@, start as int),
                    groups_inv(n as int, edges, gss),
                    forall|v: int| 0 <= v < start ==> #[trigger] visited@[v],
                    visited@[start as int],
                    comp@.len() + stack@.len() > 0,
                decreases 2 * count_unvisited(visited@) + stack@.len(),
            {
                let ghost entry_visited = visited@;
                let ghost entry_stack = stack@;
                let u = stack.pop().unwrap();
                proof {
                    assert(stack@ =~= entry_stack.drop_last());
                    assert(entry_stack[entry_stack.len() - 1] == u);
                    assert(u < n && connected(edges, start as int, u as int));
                    assert(stack@.push(u) =~= entry_stack);
                    assert(occ(entry_stack, u) == occ(stack@, u) + 1nat);
                    assert(total_occ(gss, u) + occ(comp@, u) + occ(entry_stack, u) == (if u < n
                        && visited@[u as int] {
                        1nat
                    } else {
                        0nat
                    }));
                    assert(visited@[u as int]);
                }
                let mut k: usize = 0;
                while k < m
                    invariant
                        n == g.labels@.len(),
                        m == edges.len(),
                        edges == g.edges@,
                        g.wf(),
                        gss == groups_view(groups@),
                        u < n,
                        connected(edges, start as int, u as int),
                        k <= m,
                        search_inv(
                            n as int,
                            edges,
                            gss,
                            visited@,
                            comp@,
                            stack@.push(u),
                            start as int,
                        ),
                        groups_inv(n as int, edges, gss),
                        visited@[u as int],
                        visited@[start as int],
                        forall|v: int| 0 <= v < start ==> #[trigger] visited@[v],
                        forall|kk: int|
                            0 <= kk < k ==> (((#[trigger] edges[kk]).a == u ==> visited@[edges[kk].b as int])
                                && (edges[kk].b == u ==> visited@[edges[kk].a as int])),
                        2 * count_unvisited(visited@) + stack@.len() + 1 <= 2 * count_unvisited(
                            entry_visited,
                        ) + entry_stack.len(),
                    decreases m - k,
                {
                    let a = g.edges[k].a;
                    let b = g.edges[k].b;
                    let w: usize = if a == u {
                        b
                    } else if b == u {
                        a
                    } else {
                        u
                    };
                    if w != u && !visited[w] {
                        let ghost mid_visited = visited@;
                        let ghost mid_stack = stack@;
                        visited.set(w, true);
                        stack.push(w);
                        proof {
                            lemma_count_unvisited_update(mid_visited, w as int);
                            assert(adjacent(edges, u as int, w as int)) by {
                                let ki = k as int;
                                assert(0 <= ki < edges.len() && ((edges[ki].a == u && edges[ki].b
                                    == w) || (edges[ki].a == w && edges[ki].b == u)));
                            }
                            lemma_connected_step(edges, start as int, u as int, w as int);
                            assert forall|v: usize|
                                #[trigger] total_occ(gss, v) + occ(comp@, v) + occ(
                                stack@.push(u),
                                v,
                            ) == (if v < n && visited@[v as int] {
                                1nat
                            } else {
                                0nat
                            }) by {
                                lemma_occ_push(mid_stack, w, v);
                                lemma_occ_push(mid_stack, u, v);
                                lemma_occ_push(mid_stack.push(w), u, v);
                                lemma_occ_push(mid_stack.push(u), w, v);
                            }
                            assert forall|t2: int| 0 <= t2 < stack@.push(u).len() implies (
                            #[trigger] stack@.push(u)[t2]) < n && connected(
                                edges,
                                start as int,
                                stack@.push(u)[t2] as int,
                            ) by {
                                if t2 < mid_stack.len() {
                                    assert(stack@.push(u)[t2] == mid_stack.push(u)[t2]);
                                } else if t2 == mid_stack.len() {
                                    assert(stack@.push(u)[t2] == w);
                                } else {
                                    assert(stack@.push(u)[t2] == u);
                                    assert(mid_stack.push(u)[mid_stack.len() as int] == u);
                                }
                            }
                        }
                    }
                    k += 1;
                }
                let ghost pre_comp = comp@;
                let ghost scan_stack = stack@;
                comp.push(u);
                proof {
                    assert(comp@ =~= pre_comp.push(u));
                    assert forall|v: usize|
                        #[trigger] total_occ(gss, v) + occ(comp@, v) + occ(stack@, v) == (if v < n
                        && visited@[v as int] {
                        1nat
                    } else {
                        0nat
                    }) by {
                        lemma_occ_push(pre_comp, u, v);
                        lemma_occ_push(scan_stack, u, v);
                    }
                    assert forall|t2: int, k2: int|
                        0 <= t2 < comp@.len() && 0 <= k2 < edges.len() implies (((
                    #[trigger] edges[k2]).a == #[trigger] comp@[t2] ==> visited@[edges[k2].b as int])
                        && (edges[k2].b == comp@[t2] ==> visited@[edges[k2].a as int])) by {
                        if t2 < pre_comp.len() {
                            assert(comp@[t2] == pre_comp[t2]);
                        } else {
                            assert(comp@[t2] == u);
                        }
                    }
                    assert forall|t2: int| 0 <= t2 < comp@.len() implies (#[trigger] comp@[t2]) < n
                        && connected(edges, start as int, comp@[t2] as int) by {
                        if t2 < pre_comp.len() {
                            assert(comp@[t2] == pre_comp[t2]);
                        } else {
                            assert(comp@[t2] == u);
                        }
                    }
                    assert forall|t2: int| 0 <= t2 < stack@.len() implies (#[trigger] stack@[t2])
                        < n && connected(edges, start as int, stack@[t2] as int) by {
                        assert(stack@[t2] == scan_stack.push(u)[t2]);
                    }
                }
            }
            let ghost final_comp = comp@;
            let ghost final_visited = visited@;
            proof {
                assert(stack@ =~= Seq::<usize>::empty());
                lemma_groups_inv_extend(
                    n as int,
                    edges,
                    gss,
                    final_comp,
                    final_visited,
                    start as int,
                );
            }
            groups.push(comp);
            proof {
                assert(groups_view(groups@) =~= gss.push(final_comp));
                assert forall|v: usize|
                    #[trigger] total_occ(groups_view(groups@), v) == (if v < n
                    && final_visited[v as int] {
                    1nat
                } else {
                    0nat
                }) by {
                    lemma_total_occ_push(gss, final_comp, v);
                    assert(occ(Seq::<usize>::empty(), v) == 0);
                }
            }
        }
        start += 1;
    }
    proof {
        let gss = groups_view(groups@);
        assert forall|v: usize| v < n implies #[trigger] total_occ(gss, v) == 1 by {
            assert(visited@[v as int]);
        }
    }
    groups
}

/// How a grouping of labels reflects a grouping of node handles: group for
/// group, member for member, each handle replaced by its label.
pub open spec fn labels_of_groups(
    labels: Seq<Seq<char>>,
    gss: Seq<Seq<usize>>,
    res: Seq<Seq<Seq<char>>>,
) -> bool {
    &&& res.len() == gss.len()
    &&& forall|i: int| 0 <= i < gss.len() ==> (#[trigger] res[i]).len() == gss[i].len()
    &&& forall|i: int, t: int|
        0 <= i < gss.len() && 0 <= t < gss[i].len() ==> #[trigger] res[i][t] == labels[gss[i][t] as int]
}

/// The label groups, viewed as sequences of character sequences.
pub open spec fn label_groups_view(gs: Seq<Vec<String>>) -> Seq<Seq<Seq<char>>> {
    gs.map_values(|g: Vec<String>| labels_view(g@))
}

/// Cluster the similarity graph and report each cluster as the labels of its
/// member nodes: the label image of an exact connected-component partition
/// of the node set.
pub fn cluster_states(g: &UndirectedGraph) -> (res: Vec<Vec<String>>)
    requires
        g.wf(),
    ensures
        exists|gss: Seq<Seq<usize>>|
            #[trigger] is_component_partition(g.labels@.len() as int, g.edges@, gss)
                && labels_of_groups(g.labels_view(), gss, label_groups_view(res@)),
{
    let comps = connected_components(g);
    let ghost gss = groups_view(comps@);
    let n = g.labels.len();
    let mut res: Vec<Vec<String>> = Vec::new();
    let mut i: usize = 0;
    while i < comps.len()
        invariant
            i <= comps@.len(),
            n == g.labels@.len(),
            gss == groups_view(comps@),
            gss.len() == comps@.len(),
            is_component_partition(n as int, g.edges@, gss),
            label_groups_view(res@).len() == i,
            res@.len() == i,
            forall|ii: int|
                0 <= ii < i ==> (#[trigger] label_groups_view(res@)[ii]).len() == gss[ii].len(),
            forall|ii: int, t: int|
                0 <= ii < i && 0 <= t < gss[ii].len() ==> #[trigger] label_groups_view(res@)[ii][t]
                    == g.labels_view()[gss[ii][t] as int],
        decreases comps@.len() - i,
    {
        let comp = &comps[i];
        let mut row: Vec<String> = Vec::new();
        let mut t: usize = 0;
        while t < comp.len()
            invariant
                t <= comp@.len(),
                n == g.labels@.len(),
                gss == groups_view(comps@),
                gss.len() == comps@.len(),
                i < comps@.len(),
                comp@ == gss[i as int],
                is_component_partition(n as int, g.edges@, gss),
                row@.len() == t,
                forall|tt: int|
                    0 <= tt < t ==> (#[trigger] row@[tt])@ == g.labels_view()[comp@[tt] as int],
            decreases comp@.len() - t,
        {
            let idx = comp[t];
            proof {
                assert(gss[i as int].contains(idx));
                lemma_occ_contains(gss[i as int], idx);
                lemma_total_occ_bounds_group(gss, i as int, idx);
                assert(total_occ(gss, idx) >= 1);
            }
            row.push(g.labels[idx].clone());
            t += 1;
        }
        let ghost pre = res@;
        res.push(row);
        proof {
            assert(label_groups_view(res@) =~= label_groups_view(pre).push(labels_view(row@)));
            assert forall|ii: int, t2: int|
                0 <= ii < i + 1 && 0 <= t2 < gss[ii].len() implies #[trigger] label_groups_view(
                res@,
            )[ii][t2] == g.labels_view()[gss[ii][t2] as int] by {
                if ii < i {
                    assert(label_groups_view(res@)[ii] == label_groups_view(pre)[ii]);
                } else {
                    assert(label_groups_view(res@)[ii] == labels_view(row@));
                    assert(labels_view(row@)[t2] == row@[t2]@);
                }
            }
        }
        i += 1;
    }
    proof {
        assert(labels_of_groups(g.labels_view(), gss, label_groups_view(res@)));
    }
    res
}

} // verus!
