//! Network analysis of per-jurisdiction incarceration and crime statistics.
//!
//! The crate builds two relationship graphs over jurisdiction-year records —
//! a directed rate-difference graph and an undirected similarity graph — and
//! analyses them: out-degree centrality, minimum-degree filtering, shortest
//! paths and their mean, connected clusters, and centrality tiers.
//!
//! Rates are held in fixed point (thousandths of a rate unit), so every rule
//! of the engine is stated and proved over exact integer arithmetic.

pub mod centrality;
pub mod clusters;
pub mod graph;
pub mod paths;
pub mod records;

pub use centrality::{compute_degree_centrality, compute_k_core, group_states_by_centrality};
pub use clusters::{cluster_states, connected_components};
pub use graph::{
    calculate_similarity, construct_graph, construct_similarity_graph, records_similar,
    DirectedGraph, UndirectedGraph,
};
pub use paths::{compute_average_shortest_path, dijkstra, PathLengthSummary};
pub use records::{
    clean_record, compare_states, filter_by_state, parse_float_to_u32, CleanRecord, DirtyRecord,
};
