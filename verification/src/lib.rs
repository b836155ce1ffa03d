//! Graph structures kept as adjacency lists, with a cost-ordered search
//! over the edge-attributed undirected graph.

pub mod adjacency;
pub mod cost;
pub mod directed;
pub mod edge_attributed_directed;
pub mod edge_attributed_undirected;
pub mod error;
pub mod search;
pub mod shortest_path;
pub mod undirected;
