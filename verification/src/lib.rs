//! Graph algorithm exercises, with Johnson's all-pairs shortest-path
//! pipeline (Bellman-Ford potentials, Dijkstra per source, restoration
//! and aggregation) as the centrepiece.

pub mod bellman_ford;
pub mod bits;
pub mod cluster_graph;
pub mod clustering;
pub mod dijkstra;
pub mod gosper_subset;
pub mod graph;
pub mod graph_builder;
pub mod job;
pub mod johnson;
pub mod knapsack;
pub mod prim_graph;
pub mod scc_graph;
pub mod schedule;
pub mod undirected_edge;
pub mod union_find;
