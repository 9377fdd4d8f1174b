//! The search engines and the theory their contracts are stated in.

pub mod paths;
pub mod search_core;
pub mod stop;
pub mod dijkstra;
pub mod witness_search;
pub mod a_star;
pub mod frontier;
pub mod bd_dijkstra;
pub mod unwrap_shortcuts;
pub mod cn_search;
pub mod cn_graph_creator;
pub mod cell_tree;
pub mod polygon_test;
pub mod nearest_neighbor;
