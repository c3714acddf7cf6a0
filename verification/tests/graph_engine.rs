use mass_incarceration_analysis::centrality::{
    compute_degree_centrality, compute_k_core, group_states_by_centrality,
};
use mass_incarceration_analysis::clusters::{cluster_states, connected_components};
use mass_incarceration_analysis::graph::{
    calculate_similarity, construct_graph, construct_similarity_graph, records_similar,
};
use mass_incarceration_analysis::paths::{compute_average_shortest_path, dijkstra};
use mass_incarceration_analysis::records::CleanRecord;

fn record(name: &str, year: u32, inc_milli: u64, crime_milli: u64) -> CleanRecord {
    CleanRecord {
        jurisdiction: name.to_string(),
        year,
        prisoner_count: 0,
        state_population: 1,
        violent_crime_total: 0,
        incarceration_rate_milli: inc_milli,
        crime_rate_milli: crime_milli,
    }
}

#[test]
fn directed_graph_scenario() {
    // rates 100.0, 120.0, 300.0: only the A-B gap (20.0) is under 50.0
    let records = vec![
        record("A", 2001, 100_000, 200_000),
        record("B", 2001, 120_000, 210_000),
        record("C", 2001, 300_000, 50_000),
    ];
    let g = construct_graph(&records);
    assert_eq!(g.labels.len(), 3);
    assert_eq!(g.labels[0], "A");
    assert_eq!(g.labels[1], "B");
    assert_eq!(g.labels[2], "C");
    assert_eq!(g.edges.len(), 1);
    assert_eq!(g.edges[0].src, 0);
    assert_eq!(g.edges[0].dst, 1);
    assert_eq!(g.edges[0].weight_milli, 20_000);

    let centrality = compute_degree_centrality(&g);
    assert_eq!(centrality.len(), 3);
    assert_eq!(centrality[0], ("A".to_string(), 1));
    assert_eq!(centrality[1], ("B".to_string(), 0));
    assert_eq!(centrality[2], ("C".to_string(), 0));
}

#[test]
fn directed_graph_deduplicates_jurisdictions() {
    let records = vec![
        record("A", 2001, 10_000, 0),
        record("A", 2002, 20_000, 0),
        record("B", 2001, 15_000, 0),
    ];
    let g = construct_graph(&records);
    assert_eq!(g.labels.len(), 2);
    // the two A-records are close in rate but map to one node: no self-loop
    for e in &g.edges {
        assert_ne!(e.src, e.dst);
    }
    // pairs (A,B): both A-records are within 50.0 of B
    assert_eq!(g.edges.len(), 2);
}

#[test]
fn degree_sum_equals_edge_count() {
    let records = vec![
        record("A", 2000, 0, 0),
        record("B", 2000, 10_000, 0),
        record("C", 2000, 20_000, 0),
        record("D", 2000, 30_000, 0),
    ];
    let g = construct_graph(&records);
    let centrality = compute_degree_centrality(&g);
    let total: usize = centrality.iter().map(|p| p.1).sum();
    assert_eq!(total, g.edges.len());
}

#[test]
fn k_core_is_degree_threshold_and_monotone() {
    let records = vec![
        record("A", 2000, 0, 0),
        record("B", 2000, 10_000, 0),
        record("C", 2000, 20_000, 0),
    ];
    let g = construct_graph(&records);
    // out-degrees: A=2, B=1, C=0
    let k0 = compute_k_core(&g, 0);
    let k1 = compute_k_core(&g, 1);
    let k2 = compute_k_core(&g, 2);
    assert_eq!(k0, vec!["A".to_string(), "B".to_string(), "C".to_string()]);
    assert_eq!(k1, vec!["A".to_string(), "B".to_string()]);
    assert_eq!(k2, vec!["A".to_string()]);
    for label in &k2 {
        assert!(k1.contains(label));
    }
    for label in &k1 {
        assert!(k0.contains(label));
    }
}

#[test]
fn identical_rates_give_full_similarity() {
    let r1 = record("A", 2001, 400_000, 300_000);
    let r2 = record("B", 2001, 400_000, 300_000);
    assert_eq!(calculate_similarity(&r1, &r2), 1000);
    assert!(records_similar(&r1, &r2));
    let g = construct_similarity_graph(&vec![r1, r2]);
    assert_eq!(g.labels.len(), 2);
    assert_eq!(g.edges.len(), 1);
    assert_eq!(g.edges[0].a, 0);
    assert_eq!(g.edges[0].b, 1);
    assert_eq!(g.edges[0].similarity_milli, 1000);
}

#[test]
fn similarity_threshold_is_strict() {
    // gap 300 over scale 1000 gives a score of exactly 0.7: no edge
    let r1 = record("A", 2001, 0, 650);
    let r2 = record("B", 2001, 0, 350);
    assert!(!records_similar(&r1, &r2));
    assert_eq!(calculate_similarity(&r1, &r2), 700);
    // one milli-unit closer and the score crosses the threshold
    let r3 = record("C", 2001, 0, 351);
    assert!(records_similar(&r1, &r3));
    assert!(calculate_similarity(&r1, &r3) > 700);
}

#[test]
fn similarity_graph_keeps_one_node_per_record() {
    let records = vec![
        record("A", 2001, 100_000, 100_000),
        record("A", 2002, 100_000, 100_000),
        record("B", 2001, 100_000, 100_000),
    ];
    let g = construct_similarity_graph(&records);
    assert_eq!(g.labels.len(), 3);
    assert_eq!(g.edges.len(), 3);
}

#[test]
fn three_isolated_nodes_make_three_singleton_clusters() {
    // profiles so far apart that no pair passes the similarity threshold
    let records = vec![
        record("A", 2001, 1_000_000, 0),
        record("B", 2001, 0, 1_000_000_000),
        record("C", 2001, 5_000_000_000, 0),
    ];
    let g = construct_similarity_graph(&records);
    assert_eq!(g.edges.len(), 0);
    let clusters = cluster_states(&g);
    assert_eq!(
        clusters,
        vec![vec!["A".to_string()], vec!["B".to_string()], vec!["C".to_string()]]
    );
}

#[test]
fn clusters_partition_the_node_set() {
    let records = vec![
        record("A", 2001, 100_000, 100_000),
        record("B", 2001, 100_000, 100_000),
        record("C", 2001, 900_000_000, 900_000_000),
        record("D", 2001, 900_000_000, 900_000_000),
        record("E", 2001, 50_000_000_000, 0),
    ];
    let g = construct_similarity_graph(&records);
    let comps = connected_components(&g);
    let mut seen = vec![false; 5];
    for comp in &comps {
        for &v in comp {
            assert!(v < 5);
            assert!(!seen[v], "node {} appears in two clusters", v);
            seen[v] = true;
        }
    }
    assert!(seen.iter().all(|&s| s));
    assert_eq!(comps.len(), 3);
    assert_eq!(comps[0], vec![0, 1]);
    assert_eq!(comps[1], vec![2, 3]);
    assert_eq!(comps[2], vec![4]);
}

#[test]
fn average_shortest_path_on_empty_graph_is_zero() {
    let records: Vec<CleanRecord> = vec![];
    let g = construct_graph(&records);
    assert_eq!(g.labels.len(), 0);
    let summary = compute_average_shortest_path(&g);
    assert_eq!(summary.total_milli, 0);
    assert_eq!(summary.pairs, 0);
    assert_eq!(summary.average_milli(), 0);
}

#[test]
fn average_shortest_path_single_edge() {
    let records = vec![
        record("A", 2001, 100_000, 200_000),
        record("B", 2001, 120_000, 210_000),
        record("C", 2001, 300_000, 50_000),
    ];
    let g = construct_graph(&records);
    // pairs: (A,A) 0, (A,B) 20000, (B,B) 0, (C,C) 0
    let summary = compute_average_shortest_path(&g);
    assert_eq!(summary.pairs, 4);
    assert_eq!(summary.total_milli, 20_000);
    assert_eq!(summary.average_milli(), 5_000);
}

#[test]
fn shortest_paths_add_along_a_chain() {
    // rates 0.0, 40.0, 80.0: edges A->B and B->C only
    let records = vec![
        record("A", 2001, 0, 0),
        record("B", 2001, 40_000, 0),
        record("C", 2001, 80_000, 0),
    ];
    let g = construct_graph(&records);
    assert_eq!(g.edges.len(), 2);
    let dist = dijkstra(&g, 0);
    assert_eq!(dist, vec![Some(0), Some(40_000), Some(80_000)]);
    let dist_b = dijkstra(&g, 1);
    assert_eq!(dist_b, vec![None, Some(0), Some(40_000)]);
    let summary = compute_average_shortest_path(&g);
    assert_eq!(summary.pairs, 6);
    assert_eq!(summary.total_milli, 160_000);
    assert_eq!(summary.average_milli(), 26_666);
}

#[test]
fn dijkstra_picks_the_cheaper_route() {
    // rates 0.0, 45.0, 49.0: direct gap A-C is 49.0, the detour costs more
    let records = vec![
        record("A", 2001, 0, 0),
        record("B", 2001, 45_000, 0),
        record("C", 2001, 49_000, 0),
    ];
    let g = construct_graph(&records);
    // edges: A->B 45.0, A->C 49.0, B->C 4.0
    assert_eq!(g.edges.len(), 3);
    let dist = dijkstra(&g, 0);
    assert_eq!(dist, vec![Some(0), Some(45_000), Some(49_000)]);
}

#[test]
fn centrality_tiers_split_at_the_fixed_thresholds() {
    let centrality = vec![
        ("huge".to_string(), 1500usize),
        ("upper".to_string(), 1001),
        ("edge_high".to_string(), 1000),
        ("middle".to_string(), 700),
        ("edge_medium".to_string(), 501),
        ("low_edge".to_string(), 500),
        ("tiny".to_string(), 0),
    ];
    let (high, medium, low) = group_states_by_centrality(&centrality);
    assert_eq!(high, vec!["huge".to_string(), "upper".to_string()]);
    assert_eq!(
        medium,
        vec!["edge_high".to_string(), "middle".to_string(), "edge_medium".to_string()]
    );
    assert_eq!(low, vec!["low_edge".to_string(), "tiny".to_string()]);
}

#[test]
fn empty_centrality_yields_empty_tiers() {
    let (high, medium, low) = group_states_by_centrality(&vec![]);
    assert!(high.is_empty());
    assert!(medium.is_empty());
    assert!(low.is_empty());
}

#[test]
fn parallel_edges_between_two_jurisdictions() {
    // two records per jurisdiction, all rates close: every cross pair adds
    // its own A->B edge, while same-jurisdiction pairs add none
    let records = vec![
        record("A", 2001, 0, 0),
        record("A", 2002, 1_000, 0),
        record("B", 2001, 2_000, 0),
        record("B", 2002, 3_000, 0),
    ];
    let g = construct_graph(&records);
    assert_eq!(g.labels.len(), 2);
    assert_eq!(g.edges.len(), 4);
    for e in &g.edges {
        assert_eq!(e.src, 0);
        assert_eq!(e.dst, 1);
    }
    let centrality = compute_degree_centrality(&g);
    assert_eq!(centrality[0].1, 4);
    assert_eq!(centrality[1].1, 0);
    // the cheapest of the parallel edges decides the distance
    let dist = dijkstra(&g, 0);
    assert_eq!(dist, vec![Some(0), Some(1_000)]);
    let summary = compute_average_shortest_path(&g);
    assert_eq!(summary.pairs, 3);
    assert_eq!(summary.total_milli, 1_000);
    assert_eq!(summary.average_milli(), 333);
}
