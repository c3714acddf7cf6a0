//! The two graph variants over jurisdiction-year records and their builders.
//!
//! Nodes are jurisdiction labels addressed by small integer handles; edges sit
//! in a flat list. The directed variant links records whose incarceration
//! rates are close; the undirected variant links records whose whole rate
//! profiles are similar. All thresholds are stated in exact fixed-point
//! (milli-unit) integer arithmetic.

use vstd::prelude::*;
use crate::records::CleanRecord;

verus! {

/// A directed edge is admitted when the incarceration-rate gap is strictly
/// below 50 rate units, i.e. 50,000 stored milli-units.
pub const RATE_GAP_LIMIT_MILLI: u64 = 50_000;

/// An undirected edge is admitted when the similarity score strictly exceeds
/// 0.7, i.e. 700 stored milli-units.
pub const SIMILARITY_LIMIT_MILLI: u64 = 700;

/// Directed edge: `src` and `dst` are node handles; the weight is the
/// incarceration-rate gap between the two records, in milli-units.
#[derive(Clone, Copy, Debug)]
pub struct DiEdge {
    pub src: usize,
    pub dst: usize,
    pub weight_milli: u64,
}

/// Directed rate-difference graph: one node per distinct jurisdiction name.
#[derive(Debug)]
pub struct DirectedGraph {
    pub labels: Vec<String>,
    pub edges: Vec<DiEdge>,
}

/// Undirected edge between node handles `a` and `b`, carrying the similarity
/// score of the two records in milli-units.
#[derive(Clone, Copy, Debug)]
pub struct UnEdge {
    pub a: usize,
    pub b: usize,
    pub similarity_milli: u64,
}

/// Undirected similarity graph: one node per input record, so repeated
/// jurisdictions yield distinct nodes sharing a label.
#[derive(Debug)]
pub struct UndirectedGraph {
    pub labels: Vec<String>,
    pub edges: Vec<UnEdge>,
}

pub open spec fn labels_view(labels: Seq<String>) -> Seq<Seq<char>> {
    labels.map_values(|s: String| s@)
}

pub open spec fn juris_view(rs: Seq<CleanRecord>) -> Seq<Seq<char>> {
    rs.map_values(|r: CleanRecord| r.jurisdiction@)
}

pub open spec fn abs_diff(a: u64, b: u64) -> int {
    if a >= b {
        a - b
    } else {
        b - a
    }
}

/// Incarceration-rate gap of two records, in milli-units.
pub open spec fn rate_gap_milli(r1: CleanRecord, r2: CleanRecord) -> int {
    abs_diff(r1.incarceration_rate_milli, r2.incarceration_rate_milli)
}

/// Whether the incarceration rates are close enough for a directed edge.
pub open spec fn rates_close(r1: CleanRecord, r2: CleanRecord) -> bool {
    rate_gap_milli(r1, r2) < RATE_GAP_LIMIT_MILLI
}

/// Sum of all four rates of the pair, in milli-units.
pub open spec fn pair_sum_milli(r1: CleanRecord, r2: CleanRecord) -> int {
    r1.crime_rate_milli + r2.crime_rate_milli + r1.incarceration_rate_milli
        + r2.incarceration_rate_milli
}

/// The denominator of the similarity score: the pair sum, floored at one
/// whole rate unit (1,000 milli-units).
pub open spec fn sim_scale_milli(r1: CleanRecord, r2: CleanRecord) -> int {
    if pair_sum_milli(r1, r2) < 1000 {
        1000
    } else {
        pair_sum_milli(r1, r2)
    }
}

/// The numerator of the similarity score: crime-rate gap plus
/// incarceration-rate gap, in milli-units.
pub open spec fn sim_gap_milli(r1: CleanRecord, r2: CleanRecord) -> int {
    abs_diff(r1.crime_rate_milli, r2.crime_rate_milli) + abs_diff(
        r1.incarceration_rate_milli,
        r2.incarceration_rate_milli,
    )
}

/// The similarity score `1 - gap / scale` exceeds 0.7 exactly when
/// `10 * gap < 3 * scale`; this is the exact rational comparison, free of any
/// rounding.
pub open spec fn is_similar(r1: CleanRecord, r2: CleanRecord) -> bool {
    10 * sim_gap_milli(r1, r2) < 3 * sim_scale_milli(r1, r2)
}

/// The similarity score in milli-units, rounded down: 1,000 stands for a
/// score of 1.0 (identical rate profiles).
pub open spec fn similarity_milli_spec(r1: CleanRecord, r2: CleanRecord) -> int {
    1000 - (1000 * sim_gap_milli(r1, r2)) / sim_scale_milli(r1, r2)
}

/// The gap never exceeds the scale, so the similarity score lies in
/// `[0, 1000]` milli-units.
pub proof fn lemma_similarity_bounds(r1: CleanRecord, r2: CleanRecord)
    ensures
        0 <= sim_gap_milli(r1, r2) <= sim_scale_milli(r1, r2),
        0 <= similarity_milli_spec(r1, r2) <= 1000,
{
    let g = sim_gap_milli(r1, r2);
    let m = sim_scale_milli(r1, r2);
    assert(g <= pair_sum_milli(r1, r2));
    assert(1000 * g <= 1000 * m) by (nonlinear_arith)
        requires
            0 <= g <= m,
    ;
    assert(0 <= (1000 * g) / m <= 1000) by (nonlinear_arith)
        requires
            m >= 1000,
            0 <= 1000 * g <= 1000 * m,
    ;
}

/// A similar pair scores strictly more than 700 milli-units (0.7).
pub proof fn lemma_similar_scores_above_limit(r1: CleanRecord, r2: CleanRecord)
    requires
        is_similar(r1, r2),
    ensures
        similarity_milli_spec(r1, r2) > SIMILARITY_LIMIT_MILLI,
{
    let g = sim_gap_milli(r1, r2);
    let m = sim_scale_milli(r1, r2);
    assert((1000 * g) / m < 300) by (nonlinear_arith)
        requires
            m >= 1000,
            0 <= g,
            10 * g < 3 * m,
    ;
}

/// Similarity score of two records, in milli-units (1,000 = score 1.0),
/// rounded down to the nearest milli-unit.
pub fn calculate_similarity(r1: &CleanRecord, r2: &CleanRecord) -> (s: u64)
    ensures
        s == similarity_milli_spec(*r1, *r2),
        s <= 1000,
{
    proof {
        lemma_similarity_bounds(*r1, *r2);
    }
    let cd: u64 = if r1.crime_rate_milli >= r2.crime_rate_milli {
        r1.crime_rate_milli - r2.crime_rate_milli
    } else {
        r2.crime_rate_milli - r1.crime_rate_milli
    };
    let id: u64 = if r1.incarceration_rate_milli >= r2.incarceration_rate_milli {
        r1.incarceration_rate_milli - r2.incarceration_rate_milli
    } else {
        r2.incarceration_rate_milli - r1.incarceration_rate_milli
    };
    let sum: u128 = r1.crime_rate_milli as u128 + r2.crime_rate_milli as u128
        + r1.incarceration_rate_milli as u128 + r2.incarceration_rate_milli as u128;
    let scale: u128 = if sum < 1000 {
        1000
    } else {
        sum
    };
    let gap: u128 = cd as u128 + id as u128;
    let quot: u128 = (1000 * gap) / scale;
    1000 - (quot as u64)
}

/// Whether two records are similar enough for an undirected edge: the exact
/// test `similarity > 0.7`, evaluated without rounding.
pub fn records_similar(r1: &CleanRecord, r2: &CleanRecord) -> (b: bool)
    ensures
        b == is_similar(*r1, *r2),
{
    let cd: u64 = if r1.crime_rate_milli >= r2.crime_rate_milli {
        r1.crime_rate_milli - r2.crime_rate_milli
    } else {
        r2.crime_rate_milli - r1.crime_rate_milli
    };
    let id: u64 = if r1.incarceration_rate_milli >= r2.incarceration_rate_milli {
        r1.incarceration_rate_milli - r2.incarceration_rate_milli
    } else {
        r2.incarceration_rate_milli - r1.incarceration_rate_milli
    };
    let sum: u128 = r1.crime_rate_milli as u128 + r2.crime_rate_milli as u128
        + r1.incarceration_rate_milli as u128 + r2.incarceration_rate_milli as u128;
    let scale: u128 = if sum < 1000 {
        1000
    } else {
        sum
    };
    let gap: u128 = cd as u128 + id as u128;
    10 * gap < 3 * scale
}

/// First-seen deduplication: the distinct elements of `s` in the order of
/// their first occurrence.
pub open spec fn dedup_first_seen(s: Seq<Seq<char>>) -> Seq<Seq<char>>
    decreases s.len(),
{
    if s.len() == 0 {
        Seq::empty()
    } else {
        let pre = dedup_first_seen(s.drop_last());
        if pre.contains(s.last()) {
            pre
        } else {
            pre.push(s.last())
        }
    }
}

/// Index of the first occurrence of `name` in `labels`, or -1 if absent.
pub open spec fn find_index(labels: Seq<Seq<char>>, name: Seq<char>) -> int
    decreases labels.len(),
{
    if labels.len() == 0 {
        -1
    } else if labels[0] == name {
        0
    } else {
        let r = find_index(labels.drop_first(), name);
        if r < 0 {
            -1
        } else {
            1 + r
        }
    }
}

/// `find_index` finds exactly the first occurrence.
pub proof fn lemma_find_index(labels: Seq<Seq<char>>, name: Seq<char>)
    ensures
        labels.contains(name) <==> find_index(labels, name) >= 0,
        find_index(labels, name) >= 0 ==> find_index(labels, name) < labels.len()
            && labels[find_index(labels, name)] == name,
        forall|m: int| 0 <= m < find_index(labels, name) ==> labels[m] != name,
    decreases labels.len(),
{
    if labels.len() > 0 && labels[0] != name {
        lemma_find_index(labels.drop_first(), name);
        let rest = labels.drop_first();
        let r = find_index(rest, name);
        assert(labels.contains(name) ==> rest.contains(name)) by {
            if labels.contains(name) {
                let k = choose|k: int| 0 <= k < labels.len() && labels[k] == name;
                assert(rest[k - 1] == name);
            }
        }
        assert(rest.contains(name) ==> labels.contains(name)) by {
            if rest.contains(name) {
                let k = choose|k: int| 0 <= k < rest.len() && rest[k] == name;
                assert(labels[k + 1] == name);
            }
        }
        if r >= 0 {
            assert(labels[1 + r] == rest[r]);
            assert forall|m: int| 0 <= m < 1 + r implies labels[m] != name by {
                if m >= 1 {
                    assert(labels[m] == rest[m - 1]);
                }
            }
        }
    }
}

/// Deduplication keeps exactly the members of the original sequence.
pub proof fn lemma_dedup_contains(s: Seq<Seq<char>>, x: Seq<char>)
    ensures
        dedup_first_seen(s).contains(x) <==> s.contains(x),
    decreases s.len(),
{
    if s.len() > 0 {
        lemma_dedup_contains(s.drop_last(), x);
        let pre = dedup_first_seen(s.drop_last());
        let d = dedup_first_seen(s);
        assert(s.drop_last().contains(x) ==> s.contains(x)) by {
            if s.drop_last().contains(x) {
                let k = choose|k: int| 0 <= k < s.len() - 1 && s.drop_last()[k] == x;
                assert(s[k] == x);
            }
        }
        assert(pre.contains(x) ==> d.contains(x)) by {
            if pre.contains(x) {
                let j = choose|j: int| 0 <= j < pre.len() && pre[j] == x;
                assert(d[j] == pre[j]);
            }
        }
        if s.contains(x) {
            let k = choose|k: int| 0 <= k < s.len() && s[k] == x;
            if k < s.len() - 1 {
                assert(s.drop_last()[k] == x);
            } else {
                assert(x == s.last());
                if !pre.contains(s.last()) {
                    assert(d[pre.len() as int] == x);
                }
            }
        }
        if d.contains(x) {
            let k = choose|k: int| 0 <= k < d.len() && d[k] == x;
            if k < pre.len() {
                assert(d[k] == pre[k]);
                assert(pre.contains(x));
            } else {
                assert(x == s.last());
                assert(s[s.len() - 1] == x);
                assert(s.contains(x));
            }
        }
    }
}

/// Deduplication never repeats an element.
pub proof fn lemma_dedup_no_duplicates(s: Seq<Seq<char>>)
    ensures
        dedup_first_seen(s).no_duplicates(),
    decreases s.len(),
{
    if s.len() > 0 {
        lemma_dedup_no_duplicates(s.drop_last());
    }
}

/// The node count of the first-seen deduplication equals the number of
/// distinct elements.
pub proof fn lemma_dedup_counts_distinct(s: Seq<Seq<char>>)
    ensures
        dedup_first_seen(s).len() == s.to_set().len(),
{
    let d = dedup_first_seen(s);
    lemma_dedup_no_duplicates(s);
    assert forall|x: Seq<char>| d.contains(x) <==> s.contains(x) by {
        lemma_dedup_contains(s, x);
    }
    assert(d.to_set() =~= s.to_set());
    d.unique_seq_to_set();
}

/// Deduplication never grows a sequence, so the directed graph has at most
/// one node per input record.
pub proof fn lemma_dedup_len_le(s: Seq<Seq<char>>)
    ensures
        dedup_first_seen(s).len() <= s.len(),
    decreases s.len(),
{
    if s.len() > 0 {
        lemma_dedup_len_le(s.drop_last());
    }
}

impl DirectedGraph {
    pub open spec fn labels_view(&self) -> Seq<Seq<char>> {
        labels_view(self.labels@)
    }

    pub open spec fn node_count(&self) -> nat {
        self.labels@.len()
    }

    /// Every edge joins two distinct in-range nodes and its weight lies
    /// strictly below the gap that admitted it.
    pub open spec fn wf(&self) -> bool {
        forall|k: int|
            0 <= k < self.edges@.len() ==> (#[trigger] self.edges@[k]).src < self.labels@.len()
                && self.edges@[k].dst < self.labels@.len() && self.edges@[k].src
                != self.edges@[k].dst && self.edges@[k].weight_milli < RATE_GAP_LIMIT_MILLI
    }
}

impl UndirectedGraph {
    pub open spec fn labels_view(&self) -> Seq<Seq<char>> {
        labels_view(self.labels@)
    }

    pub open spec fn node_count(&self) -> nat {
        self.labels@.len()
    }

    /// Every edge joins two distinct in-range nodes and carries a similarity
    /// score strictly above the threshold that admitted it.
    pub open spec fn wf(&self) -> bool {
        forall|k: int|
            0 <= k < self.edges@.len() ==> (#[trigger] self.edges@[k]).a < self.labels@.len()
                && self.edges@[k].b < self.labels@.len() && self.edges@[k].a != self.edges@[k].b
                && self.edges@[k].similarity_milli > SIMILARITY_LIMIT_MILLI
    }
}

/// The directed edge produced by the record pair `(r1, r2)`, once the node
/// labels are fixed.
pub open spec fn dir_edge_of(labels: Seq<Seq<char>>, r1: CleanRecord, r2: CleanRecord) -> DiEdge {
    DiEdge {
        src: find_index(labels, r1.jurisdiction@) as usize,
        dst: find_index(labels, r2.jurisdiction@) as usize,
        weight_milli: rate_gap_milli(r1, r2) as u64,
    }
}

/// A record pair yields a directed edge when the rates are close and the two
/// records belong to distinct nodes (no self-loops).
pub open spec fn dir_pair_admits(labels: Seq<Seq<char>>, r1: CleanRecord, r2: CleanRecord) -> bool {
    rates_close(r1, r2) && find_index(labels, r1.jurisdiction@) != find_index(
        labels,
        r2.jurisdiction@,
    )
}

/// Directed edges contributed by the pairs `(i, i+1) .. (i, j-1)`, in order.
pub open spec fn dir_row_upto(
    rs: Seq<CleanRecord>,
    labels: Seq<Seq<char>>,
    i: int,
    j: int,
) -> Seq<DiEdge>
    decreases j - i,
{
    if j <= i + 1 {
        Seq::empty()
    } else {
        dir_row_upto(rs, labels, i, j - 1) + if dir_pair_admits(labels, rs[i], rs[j - 1]) {
            seq![dir_edge_of(labels, rs[i], rs[j - 1])]
        } else {
            Seq::empty()
        }
    }
}

/// Directed edges contributed by all pairs with first index below `i`.
pub open spec fn dir_rows_upto(rs: Seq<CleanRecord>, labels: Seq<Seq<char>>, i: int) -> Seq<DiEdge>
    decreases i,
{
    if i <= 0 {
        Seq::empty()
    } else {
        dir_rows_upto(rs, labels, i - 1) + dir_row_upto(rs, labels, i - 1, rs.len() as int)
    }
}

/// All directed edges: every unordered record pair scanned in input order,
/// earlier record first.
pub open spec fn dir_edges_spec(rs: Seq<CleanRecord>, labels: Seq<Seq<char>>) -> Seq<DiEdge> {
    dir_rows_upto(rs, labels, rs.len() as int)
}

/// The undirected edge produced by the record pair at positions `(i, j)`.
pub open spec fn un_edge_of(rs: Seq<CleanRecord>, i: int, j: int) -> UnEdge {
    UnEdge { a: i as usize, b: j as usize, similarity_milli: similarity_milli_spec(rs[i], rs[j]) as u64 }
}

/// Undirected edges contributed by the pairs `(i, i+1) .. (i, j-1)`, in order.
pub open spec fn un_row_upto(rs: Seq<CleanRecord>, i: int, j: int) -> Seq<UnEdge>
    decreases j - i,
{
    if j <= i + 1 {
        Seq::empty()
    } else {
        un_row_upto(rs, i, j - 1) + if is_similar(rs[i], rs[j - 1]) {
            seq![un_edge_of(rs, i, j - 1)]
        } else {
            Seq::empty()
        }
    }
}

/// Undirected edges contributed by all pairs with first index below `i`.
pub open spec fn un_rows_upto(rs: Seq<CleanRecord>, i: int) -> Seq<UnEdge>
    decreases i,
{
    if i <= 0 {
        Seq::empty()
    } else {
        un_rows_upto(rs, i - 1) + un_row_upto(rs, i - 1, rs.len() as int)
    }
}

/// All undirected edges: every record pair in input order.
pub open spec fn un_edges_spec(rs: Seq<CleanRecord>) -> Seq<UnEdge> {
    un_rows_upto(rs, rs.len() as int)
}

/// Position of `name` among `labels`, scanning from the front.
fn find_label(labels: &Vec<String>, name: &String) -> (r: Option<usize>)
    ensures
        match r {
            Some(k) => k == find_index(labels_view(labels@), name@),
            None => find_index(labels_view(labels@), name@) == -1,
        },
{
    let ghost lv = labels_view(labels@);
    proof {
        lemma_find_index(lv, name@);
    }
    let mut k: usize = 0;
    while k < labels.len()
        invariant
            k <= labels.len(),
            lv == labels_view(labels@),
            lv.len() == labels@.len(),
            forall|m: int| 0 <= m < k ==> lv[m] != name@,
            lv.contains(name@) <==> find_index(lv, name@) >= 0,
            find_index(lv, name@) >= 0 ==> find_index(lv, name@) < lv.len() && lv[find_index(
                lv,
                name@,
            )] == name@,
            forall|m: int| 0 <= m < find_index(lv, name@) ==> lv[m] != name@,
        decreases labels.len() - k,
    {
        if labels[k] == *name {
            proof {
                assert(lv[k as int] == name@);
                assert(lv.contains(name@));
            }
            return Some(k);
        }
        k += 1;
    }
    proof {
        if lv.contains(name@) {
            let m = choose|m: int| 0 <= m < lv.len() && lv[m] == name@;
            assert(false);
        }
    }
    None
}

/// Build the directed rate-difference graph: one node per distinct
/// jurisdiction in first-seen order, and one edge per ordered record pair
/// whose incarceration rates lie within the gap limit. Record pairs of one
/// and the same jurisdiction yield no edge, so the graph has no self-loops.
pub fn construct_graph(records: &Vec<CleanRecord>) -> (g: DirectedGraph)
    ensures
        g.labels_view() == dedup_first_seen(juris_view(records@)),
        g.edges@ == dir_edges_spec(records@, g.labels_view()),
        g.wf(),
{
    let ghost rs = records@;
    let mut labels: Vec<String> = Vec::new();
    let mut idx: usize = 0;
    while idx < records.len()
        invariant
            idx <= records.len(),
            rs == records@,
            labels_view(labels@) == dedup_first_seen(juris_view(rs.subrange(0, idx as int))),
        decreases records.len() - idx,
    {
        let name = &records[idx].jurisdiction;
        let ghost prefix = juris_view(rs.subrange(0, idx as int));
        proof {
            lemma_find_index(labels_view(labels@), name@);
            assert(juris_view(rs.subrange(0, idx + 1)).drop_last() =~= prefix);
            assert(juris_view(rs.subrange(0, idx + 1)).last() == name@);
        }
        match find_label(&labels, name) {
            Some(_) => {
                proof {
                    assert(labels_view(labels@).contains(name@));
                }
            },
            None => {
                let ghost old_labels = labels@;
                labels.push(name.clone());
                proof {
                    assert(!labels_view(old_labels).contains(name@));
                    assert(labels_view(labels@) =~= labels_view(old_labels).push(name@));
                }
            },
        }
        idx += 1;
    }
    proof {
        assert(rs.subrange(0, rs.len() as int) =~= rs);
    }
    let ghost lv = labels_view(labels@);

    // Every record's jurisdiction has a node.
    proof {
        assert forall|m: int| 0 <= m < rs.len() implies 0 <= find_index(
            lv,
            (#[trigger] rs[m]).jurisdiction@,
        ) < lv.len() by {
            lemma_dedup_contains(juris_view(rs), rs[m].jurisdiction@);
            assert(juris_view(rs)[m] == rs[m].jurisdiction@);
            assert(juris_view(rs).contains(rs[m].jurisdiction@));
            lemma_find_index(lv, rs[m].jurisdiction@);
        }
    }

    // Node handle of each record, in record order.
    let mut node_ids: Vec<usize> = Vec::new();
    let mut m: usize = 0;
    while m < records.len()
        invariant
            m <= records.len(),
            rs == records@,
            lv == labels_view(labels@),
            lv.len() == labels@.len(),
            node_ids@.len() == m,
            forall|t: int| 0 <= t < rs.len() ==> 0 <= find_index(lv, (#[trigger] rs[t]).jurisdiction@) < lv.len(),
            forall|t: int| 0 <= t < m ==> #[trigger] node_ids@[t] == find_index(lv, rs[t].jurisdiction@),
        decreases records.len() - m,
    {
        match find_label(&labels, &records[m].jurisdiction) {
            Some(k) => { node_ids.push(k) },
            None => {
                // unreachable: every jurisdiction was entered above
                proof {
                    assert(false);
                }
                node_ids.push(0)
            },
        }
        m += 1;
    }

    let n = records.len();
    let mut edges: Vec<DiEdge> = Vec::new();
    let mut i: usize = 0;
    while i < n
        invariant
            i <= n,
            n == rs.len(),
            rs == records@,
            lv == labels_view(labels@),
            lv.len() == labels@.len(),
            node_ids@.len() == n,
            forall|t: int| 0 <= t < rs.len() ==> 0 <= find_index(lv, (#[trigger] rs[t]).jurisdiction@) < lv.len(),
            forall|t: int| 0 <= t < n ==> #[trigger] node_ids@[t] == find_index(lv, rs[t].jurisdiction@),
            edges@ == dir_rows_upto(rs, lv, i as int),
            forall|k: int|
                0 <= k < edges@.len() ==> (#[trigger] edges@[k]).src < lv.len() && edges@[k].dst
                    < lv.len() && edges@[k].src != edges@[k].dst && edges@[k].weight_milli
                    < RATE_GAP_LIMIT_MILLI,
        decreases n - i,
    {
        let mut j: usize = i + 1;
        while j < n
            invariant
                i < n,
                i + 1 <= j <= n,
                n == rs.len(),
                rs == records@,
                lv == labels_view(labels@),
                lv.len() == labels@.len(),
                node_ids@.len() == n,
                forall|t: int|
                    0 <= t < rs.len() ==> 0 <= find_index(lv, (#[trigger] rs[t]).jurisdiction@) < lv.len(),
                forall|t: int| 0 <= t < n ==> #[trigger] node_ids@[t] == find_index(lv, rs[t].jurisdiction@),
                edges@ == dir_rows_upto(rs, lv, i as int) + dir_row_upto(
                    rs,
                    lv,
                    i as int,
                    j as int,
                ),
                forall|k: int|
                    0 <= k < edges@.len() ==> (#[trigger] edges@[k]).src < lv.len() && edges@[k].dst
                        < lv.len() && edges@[k].src != edges@[k].dst && edges@[k].weight_milli
                        < RATE_GAP_LIMIT_MILLI,
            decreases n - j,
        {
            let r1 = &records[i];
            let r2 = &records[j];
            let gap: u64 = if r1.incarceration_rate_milli >= r2.incarceration_rate_milli {
                r1.incarceration_rate_milli - r2.incarceration_rate_milli
            } else {
                r2.incarceration_rate_milli - r1.incarceration_rate_milli
            };
            let src = node_ids[i];
            let dst = node_ids[j];
            if gap < RATE_GAP_LIMIT_MILLI && src != dst {
                edges.push(DiEdge { src, dst, weight_milli: gap });
            }
            proof {
                assert(dir_row_upto(rs, lv, i as int, j + 1) == dir_row_upto(
                    rs,
                    lv,
                    i as int,
                    j as int,
                ) + if dir_pair_admits(lv, rs[i as int], rs[j as int]) {
                    seq![dir_edge_of(lv, rs[i as int], rs[j as int])]
                } else {
                    Seq::<DiEdge>::empty()
                });
                if dir_pair_admits(lv, rs[i as int], rs[j as int]) {
                    assert(edges@ =~= dir_rows_upto(rs, lv, i as int) + dir_row_upto(
                        rs,
                        lv,
                        i as int,
                        j + 1,
                    ));
                } else {
                    assert(edges@ =~= dir_rows_upto(rs, lv, i as int) + dir_row_upto(
                        rs,
                        lv,
                        i as int,
                        j + 1,
                    ));
                }
            }
            j += 1;
        }
        proof {
            assert(dir_rows_upto(rs, lv, i + 1) == dir_rows_upto(rs, lv, i as int) + dir_row_upto(
                rs,
                lv,
                i as int,
                n as int,
            ));
        }
        i += 1;
    }
    DirectedGraph { labels, edges }
}

/// Build the undirected similarity graph: one node per input record, and one
/// edge per record pair whose similarity score exceeds the threshold.
pub fn construct_similarity_graph(records: &Vec<CleanRecord>) -> (g: UndirectedGraph)
    ensures
        g.labels_view() == juris_view(records@),
        g.node_count() == records@.len(),
        g.edges@ == un_edges_spec(records@),
        g.wf(),
{
    let ghost rs = records@;
    let mut labels: Vec<String> = Vec::new();
    let mut idx: usize = 0;
    while idx < records.len()
        invariant
            idx <= records.len(),
            rs == records@,
            labels@.len() == idx,
            labels_view(labels@) =~= juris_view(rs).subrange(0, idx as int),
        decreases records.len() - idx,
    {
        let ghost old_labels = labels@;
        labels.push(records[idx].jurisdiction.clone());
        proof {
            assert(labels_view(labels@) =~= labels_view(old_labels).push(
                rs[idx as int].jurisdiction@,
            ));
            assert(labels_view(labels@) =~= juris_view(rs).subrange(0, idx + 1));
        }
        idx += 1;
    }
    proof {
        assert(juris_view(rs).subrange(0, rs.len() as int) =~= juris_view(rs));
    }

    let n = records.len();
    let mut edges: Vec<UnEdge> = Vec::new();
    let mut i: usize = 0;
    while i < n
        invariant
            i <= n,
            n == rs.len(),
            rs == records@,
            labels@.len() == n,
            edges@ == un_rows_upto(rs, i as int),
            forall|k: int|
                0 <= k < edges@.len() ==> (#[trigger] edges@[k]).a < n && edges@[k].b < n
                    && edges@[k].a != edges@[k].b && edges@[k].similarity_milli
                    > SIMILARITY_LIMIT_MILLI,
        decreases n - i,
    {
        let mut j: usize = i + 1;
        while j < n
            invariant
                i < n,
                i + 1 <= j <= n,
                n == rs.len(),
                rs == records@,
                labels@.len() == n,
                edges@ == un_rows_upto(rs, i as int) + un_row_upto(rs, i as int, j as int),
                forall|k: int|
                    0 <= k < edges@.len() ==> (#[trigger] edges@[k]).a < n && edges@[k].b < n
                        && edges@[k].a != edges@[k].b && edges@[k].similarity_milli
                        > SIMILARITY_LIMIT_MILLI,
            decreases n - j,
        {
            if records_similar(&records[i], &records[j]) {
                let sim = calculate_similarity(&records[i], &records[j]);
                proof {
                    lemma_similar_scores_above_limit(rs[i as int], rs[j as int]);
                }
                edges.push(UnEdge { a: i, b: j, similarity_milli: sim });
            }
            proof {
                assert(un_row_upto(rs, i as int, j + 1) == un_row_upto(rs, i as int, j as int)
                    + if is_similar(rs[i as int], rs[j as int]) {
                    seq![un_edge_of(rs, i as int, j as int)]
                } else {
                    Seq::<UnEdge>::empty()
                });
                assert(edges@ =~= un_rows_upto(rs, i as int) + un_row_upto(rs, i as int, j + 1));
            }
            j += 1;
        }
        proof {
            assert(un_rows_upto(rs, i + 1) == un_rows_upto(rs, i as int) + un_row_upto(
                rs,
                i as int,
                n as int,
            ));
        }
        i += 1;
    }
    UndirectedGraph { labels, edges }
}

/// The directed graph's node count equals the number of distinct jurisdiction
/// names among the records.
pub proof fn lemma_directed_node_count(records: Seq<CleanRecord>, g: DirectedGraph)
    requires
        g.labels_view() == dedup_first_seen(juris_view(records)),
    ensures
        g.node_count() == juris_view(records).to_set().len(),
{
    lemma_dedup_counts_distinct(juris_view(records));
    assert(g.labels@.len() == g.labels_view().len());
}

proof fn lemma_dir_row_member(
    rs: Seq<CleanRecord>,
    labels: Seq<Seq<char>>,
    i: int,
    j: int,
    k: int,
)
    requires
        0 <= i,
        i + 1 <= j <= rs.len(),
        0 <= k < dir_row_upto(rs, labels, i, j).len(),
    ensures
        exists|j2: int|
            i < j2 < j && dir_pair_admits(labels, rs[i], #[trigger] rs[j2]) && dir_row_upto(
                rs,
                labels,
                i,
                j,
            )[k] == dir_edge_of(labels, rs[i], rs[j2]),
    decreases j - i,
{
    let row = dir_row_upto(rs, labels, i, j);
    let pre = dir_row_upto(rs, labels, i, j - 1);
    if k < pre.len() {
        lemma_dir_row_member(rs, labels, i, j - 1, k);
        let j2 = choose|j2: int|
            i < j2 < j - 1 && dir_pair_admits(labels, rs[i], rs[j2]) && pre[k] == dir_edge_of(
                labels,
                rs[i],
                rs[j2],
            );
        assert(row[k] == pre[k]);
        assert(dir_pair_admits(labels, rs[i], rs[j2]) && row[k] == dir_edge_of(
            labels,
            rs[i],
            rs[j2],
        ));
    } else {
        assert(dir_pair_admits(labels, rs[i], rs[j - 1]));
        assert(row[k] == dir_edge_of(labels, rs[i], rs[j - 1]));
    }
}

proof fn lemma_dir_rows_member(rs: Seq<CleanRecord>, labels: Seq<Seq<char>>, i: int, k: int)
    requires
        0 <= i <= rs.len(),
        0 <= k < dir_rows_upto(rs, labels, i).len(),
    ensures
        exists|i2: int, j2: int|
            0 <= i2 < j2 < rs.len() && dir_pair_admits(labels, #[trigger] rs[i2], #[trigger] rs[j2])
                && dir_rows_upto(rs, labels, i)[k] == dir_edge_of(labels, rs[i2], rs[j2]),
    decreases i,
{
    let rows = dir_rows_upto(rs, labels, i);
    let pre = dir_rows_upto(rs, labels, i - 1);
    let row = dir_row_upto(rs, labels, i - 1, rs.len() as int);
    if k < pre.len() {
        lemma_dir_rows_member(rs, labels, i - 1, k);
        let (i2, j2) = choose|i2: int, j2: int|
            0 <= i2 < j2 < rs.len() && dir_pair_admits(labels, rs[i2], rs[j2]) && pre[k]
                == dir_edge_of(labels, rs[i2], rs[j2]);
        assert(rows[k] == pre[k]);
        assert(dir_pair_admits(labels, rs[i2], rs[j2]) && rows[k] == dir_edge_of(
            labels,
            rs[i2],
            rs[j2],
        ));
    } else {
        lemma_dir_row_member(rs, labels, i - 1, rs.len() as int, k - pre.len());
        let j2 = choose|j2: int|
            i - 1 < j2 < rs.len() && dir_pair_admits(labels, rs[i - 1], #[trigger] rs[j2]) && row[k
                - pre.len()] == dir_edge_of(labels, rs[i - 1], rs[j2]);
        assert(rows[k] == row[k - pre.len()]);
        assert(dir_pair_admits(labels, rs[i - 1], rs[j2]) && rows[k] == dir_edge_of(
            labels,
            rs[i - 1],
            rs[j2],
        ));
    }
}

/// `e` is the edge of some admitted record pair, earlier record first.
pub open spec fn edge_from_admitted_pair(
    rs: Seq<CleanRecord>,
    labels: Seq<Seq<char>>,
    e: DiEdge,
) -> bool {
    exists|i: int, j: int|
        0 <= i < j < rs.len() && dir_pair_admits(labels, #[trigger] rs[i], #[trigger] rs[j]) && e
            == dir_edge_of(labels, rs[i], rs[j])
}

/// Soundness of the directed builder: every edge of the edge sequence is the
/// edge of some admitted record pair.
pub proof fn lemma_directed_edges_sound(rs: Seq<CleanRecord>, labels: Seq<Seq<char>>)
    ensures
        forall|k: int|
            0 <= k < dir_edges_spec(rs, labels).len() ==> edge_from_admitted_pair(
                rs,
                labels,
                #[trigger] dir_edges_spec(rs, labels)[k],
            ),
{
    assert forall|k: int| 0 <= k < dir_edges_spec(rs, labels).len() implies edge_from_admitted_pair(
        rs,
        labels,
        #[trigger] dir_edges_spec(rs, labels)[k],
    ) by {
        lemma_dir_rows_member(rs, labels, rs.len() as int, k);
        let (i2, j2) = choose|i2: int, j2: int|
            0 <= i2 < j2 < rs.len() && dir_pair_admits(labels, #[trigger] rs[i2], #[trigger] rs[j2])
                && dir_rows_upto(rs, labels, rs.len() as int)[k] == dir_edge_of(
                labels,
                rs[i2],
                rs[j2],
            );
        assert(0 <= i2 < j2 < rs.len() && dir_pair_admits(labels, rs[i2], rs[j2])
            && dir_edges_spec(rs, labels)[k] == dir_edge_of(labels, rs[i2], rs[j2]));
    }
}

proof fn lemma_dir_row_has_pair(
    rs: Seq<CleanRecord>,
    labels: Seq<Seq<char>>,
    i: int,
    j: int,
    j2: int,
)
    requires
        0 <= i < j2 < j <= rs.len(),
        dir_pair_admits(labels, rs[i], rs[j2]),
    ensures
        dir_row_upto(rs, labels, i, j).contains(dir_edge_of(labels, rs[i], rs[j2])),
    decreases j - i,
{
    let row = dir_row_upto(rs, labels, i, j);
    let pre = dir_row_upto(rs, labels, i, j - 1);
    if j2 == j - 1 {
        assert(row[pre.len() as int] == dir_edge_of(labels, rs[i], rs[j2]));
    } else {
        lemma_dir_row_has_pair(rs, labels, i, j - 1, j2);
        let k = choose|k: int|
            0 <= k < pre.len() && pre[k] == dir_edge_of(labels, rs[i], rs[j2]);
        assert(row[k] == pre[k]);
    }
}

/// Completeness of the directed builder: every admitted record pair puts its
/// edge into the edge sequence.
pub proof fn lemma_directed_edges_complete(
    rs: Seq<CleanRecord>,
    labels: Seq<Seq<char>>,
    i: int,
    j: int,
)
    requires
        0 <= i < j < rs.len(),
        dir_pair_admits(labels, rs[i], rs[j]),
    ensures
        dir_edges_spec(rs, labels).contains(dir_edge_of(labels, rs[i], rs[j])),
    decreases rs.len() - i,
{
    lemma_dir_rows_has_pair(rs, labels, rs.len() as int, i, j);
}

proof fn lemma_dir_rows_has_pair(
    rs: Seq<CleanRecord>,
    labels: Seq<Seq<char>>,
    n: int,
    i: int,
    j: int,
)
    requires
        0 <= i < j < rs.len(),
        i < n <= rs.len(),
        dir_pair_admits(labels, rs[i], rs[j]),
    ensures
        dir_rows_upto(rs, labels, n).contains(dir_edge_of(labels, rs[i], rs[j])),
    decreases n,
{
    let rows = dir_rows_upto(rs, labels, n);
    let pre = dir_rows_upto(rs, labels, n - 1);
    let row = dir_row_upto(rs, labels, n - 1, rs.len() as int);
    if i == n - 1 {
        lemma_dir_row_has_pair(rs, labels, i, rs.len() as int, j);
        let k = choose|k: int| 0 <= k < row.len() && row[k] == dir_edge_of(labels, rs[i], rs[j]);
        assert(rows[pre.len() + k] == row[k]);
    } else {
        lemma_dir_rows_has_pair(rs, labels, n - 1, i, j);
        let k = choose|k: int| 0 <= k < pre.len() && pre[k] == dir_edge_of(labels, rs[i], rs[j]);
        assert(rows[k] == pre[k]);
    }
}

proof fn lemma_un_row_member(rs: Seq<CleanRecord>, i: int, j: int, k: int)
    requires
        0 <= i,
        i + 1 <= j <= rs.len(),
        0 <= k < un_row_upto(rs, i, j).len(),
    ensures
        exists|j2: int|
            i < j2 < j && is_similar(rs[i], #[trigger] rs[j2]) && un_row_upto(rs, i, j)[k]
                == un_edge_of(rs, i, j2),
    decreases j - i,
{
    let row = un_row_upto(rs, i, j);
    let pre = un_row_upto(rs, i, j - 1);
    if k < pre.len() {
        lemma_un_row_member(rs, i, j - 1, k);
        let j2 = choose|j2: int|
            i < j2 < j - 1 && is_similar(rs[i], #[trigger] rs[j2]) && pre[k] == un_edge_of(
                rs,
                i,
                j2,
            );
        assert(row[k] == pre[k]);
        assert(is_similar(rs[i], rs[j2]) && row[k] == un_edge_of(rs, i, j2));
    } else {
        assert(is_similar(rs[i], rs[j - 1]));
        assert(row[k] == un_edge_of(rs, i, j - 1));
    }
}

proof fn lemma_un_rows_member(rs: Seq<CleanRecord>, i: int, k: int)
    requires
        0 <= i <= rs.len(),
        0 <= k < un_rows_upto(rs, i).len(),
    ensures
        exists|i2: int, j2: int|
            0 <= i2 < j2 < rs.len() && is_similar(#[trigger] rs[i2], #[trigger] rs[j2])
                && un_rows_upto(rs, i)[k] == un_edge_of(rs, i2, j2),
    decreases i,
{
    let rows = un_rows_upto(rs, i);
    let pre = un_rows_upto(rs, i - 1);
    let row = un_row_upto(rs, i - 1, rs.len() as int);
    if k < pre.len() {
        lemma_un_rows_member(rs, i - 1, k);
        let (i2, j2) = choose|i2: int, j2: int|
            0 <= i2 < j2 < rs.len() && is_similar(#[trigger] rs[i2], #[trigger] rs[j2]) && pre[k]
                == un_edge_of(rs, i2, j2);
        assert(rows[k] == pre[k]);
        assert(is_similar(rs[i2], rs[j2]) && rows[k] == un_edge_of(rs, i2, j2));
    } else {
        lemma_un_row_member(rs, i - 1, rs.len() as int, k - pre.len());
        let j2 = choose|j2: int|
            i - 1 < j2 < rs.len() && is_similar(rs[i - 1], #[trigger] rs[j2]) && row[k - pre.len()]
                == un_edge_of(rs, i - 1, j2);
        assert(rows[k] == row[k - pre.len()]);
        assert(is_similar(rs[i - 1], rs[j2]) && rows[k] == un_edge_of(rs, i - 1, j2));
    }
}

/// `e` is the edge of some record pair whose similarity passes the
/// threshold.
pub open spec fn edge_from_similar_pair(rs: Seq<CleanRecord>, e: UnEdge) -> bool {
    exists|i: int, j: int|
        0 <= i < j < rs.len() && is_similar(#[trigger] rs[i], #[trigger] rs[j]) && e == un_edge_of(
            rs,
            i,
            j,
        )
}

/// Soundness of the similarity builder: every edge of the edge sequence is
/// the edge of some similar record pair.
pub proof fn lemma_similarity_edges_sound(rs: Seq<CleanRecord>)
    ensures
        forall|k: int|
            0 <= k < un_edges_spec(rs).len() ==> edge_from_similar_pair(
                rs,
                #[trigger] un_edges_spec(rs)[k],
            ),
{
    assert forall|k: int| 0 <= k < un_edges_spec(rs).len() implies edge_from_similar_pair(
        rs,
        #[trigger] un_edges_spec(rs)[k],
    ) by {
        lemma_un_rows_member(rs, rs.len() as int, k);
        let (i2, j2) = choose|i2: int, j2: int|
            0 <= i2 < j2 < rs.len() && is_similar(#[trigger] rs[i2], #[trigger] rs[j2])
                && un_rows_upto(rs, rs.len() as int)[k] == un_edge_of(rs, i2, j2);
        assert(0 <= i2 < j2 < rs.len() && is_similar(rs[i2], rs[j2]) && un_edges_spec(rs)[k]
            == un_edge_of(rs, i2, j2));
    }
}

proof fn lemma_un_row_has_pair(rs: Seq<CleanRecord>, i: int, j: int, j2: int)
    requires
        0 <= i < j2 < j <= rs.len(),
        is_similar(rs[i], rs[j2]),
    ensures
        un_row_upto(rs, i, j).contains(un_edge_of(rs, i, j2)),
    decreases j - i,
{
    let row = un_row_upto(rs, i, j);
    let pre = un_row_upto(rs, i, j - 1);
    if j2 == j - 1 {
        assert(row[pre.len() as int] == un_edge_of(rs, i, j2));
    } else {
        lemma_un_row_has_pair(rs, i, j - 1, j2);
        let k = choose|k: int| 0 <= k < pre.len() && pre[k] == un_edge_of(rs, i, j2);
        assert(row[k] == pre[k]);
    }
}

proof fn lemma_un_rows_has_pair(rs: Seq<CleanRecord>, n: int, i: int, j: int)
    requires
        0 <= i < j < rs.len(),
        i < n <= rs.len(),
        is_similar(rs[i], rs[j]),
    ensures
        un_rows_upto(rs, n).contains(un_edge_of(rs, i, j)),
    decreases n,
{
    let rows = un_rows_upto(rs, n);
    let pre = un_rows_upto(rs, n - 1);
    let row = un_row_upto(rs, n - 1, rs.len() as int);
    if i == n - 1 {
        lemma_un_row_has_pair(rs, i, rs.len() as int, j);
        let k = choose|k: int| 0 <= k < row.len() && row[k] == un_edge_of(rs, i, j);
        assert(rows[pre.len() + k] == row[k]);
    } else {
        lemma_un_rows_has_pair(rs, n - 1, i, j);
        let k = choose|k: int| 0 <= k < pre.len() && pre[k] == un_edge_of(rs, i, j);
        assert(rows[k] == pre[k]);
    }
}

/// Completeness of the similarity builder: every similar record pair puts
/// its edge into the edge sequence.
pub proof fn lemma_similarity_edges_complete(rs: Seq<CleanRecord>, i: int, j: int)
    requires
        0 <= i < j < rs.len(),
        is_similar(rs[i], rs[j]),
    ensures
        un_edges_spec(rs).contains(un_edge_of(rs, i, j)),
{
    lemma_un_rows_has_pair(rs, rs.len() as int, i, j);
}

} // verus!

