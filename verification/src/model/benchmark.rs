use vstd::prelude::*;
use crate::model::grid_graph::Node;

verus! {

/// What one engine found for one query, and what it took.
#[derive(Clone, Copy, Debug)]
pub struct BenchmarkResult {
    pub query_id: usize,
    pub start_node: Node,
    pub end_node: Node,
    pub nmb_nodes: usize,
    pub distance: u32,
    pub amount_nodes_popped: u32,
    pub time: u64,
}

impl BenchmarkResult {
    /// A result with nothing in it.
    pub fn new() -> (r: BenchmarkResult)
        ensures
            r.query_id == 0,
            r.nmb_nodes == 0,
            r.distance == 0,
            r.amount_nodes_popped == 0,
            r.time == 0,
            r.start_node.lat == 0 && r.start_node.lon == 0,
            r.end_node.lat == 0 && r.end_node.lon == 0,
    {
        BenchmarkResult {
            query_id: 0,
            start_node: Node { lat: 0, lon: 0 },
            end_node: Node { lat: 0, lon: 0 },
            nmb_nodes: 0,
            distance: 0,
            amount_nodes_popped: 0,
            time: 0,
        }
    }
}

/// The results of one engine.
pub struct AlgoBenchmark {
    pub results: Vec<BenchmarkResult>,
}

impl AlgoBenchmark {
    /// No results yet.
    pub fn new() -> (a: AlgoBenchmark)
        ensures
            a.results@.len() == 0,
    {
        AlgoBenchmark { results: Vec::new() }
    }
}

/// The results of all engines.
pub struct CollectedBenchmarks {
    pub dijkstra: AlgoBenchmark,
    pub a_star: AlgoBenchmark,
    pub bd_dijkstra: AlgoBenchmark,
    pub ch: AlgoBenchmark,
}

} // verus!
