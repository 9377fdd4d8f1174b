use std::cmp::Ordering;
use std::collections::HashMap;

use osm_tasks::config::Config;
use osm_tasks::model::benchmark::{AlgoBenchmark, BenchmarkResult};
use osm_tasks::model::cn_model::CNMetadata;
use osm_tasks::model::grid_graph::{Edge, GridGraph, Node};
use osm_tasks::model::heap_item::HeapItem;
use osm_tasks::model::min_heap::MinHeap;
use osm_tasks::model::priority_heap_item::PriorityHeapItem;
use osm_tasks::persistence::in_memory_navigator::{held_in_64_bits, InMemoryGraph};

fn grid() -> GridGraph {
    let links: [(u32, u32, u32); 12] = [
        (0, 1, 2),
        (0, 4, 1),
        (1, 2, 2),
        (1, 4, 1),
        (2, 3, 1),
        (2, 4, 2),
        (3, 4, 1),
        (3, 6, 2),
        (4, 5, 3),
        (5, 6, 1),
        (5, 7, 3),
        (6, 7, 1),
    ];
    let mut edges: Vec<Vec<Edge>> = vec![Vec::new(); 8];
    for (a, b, d) in links {
        edges[a as usize].push(Edge { source: a, target: b, distance: d });
        edges[b as usize].push(Edge { source: b, target: a, distance: d });
    }
    let nodes: Vec<Node> = (0..8u64).map(|i| Node { lat: i, lon: 100 + i }).collect();
    GridGraph { number_edges: 24, number_nodes: 8, edges, nodes }
}

#[test]
fn benchmarks_keep_what_agrees_with_the_baseline() {
    let contraction = CNMetadata { graph: grid(), get_shortcuts: HashMap::new() };
    let navigator = InMemoryGraph::new(grid(), contraction);
    assert_eq!(navigator.get_number_nodes(), 8);
    let queries: Vec<(u32, u32)> = vec![(0, 7), (7, 0), (2, 5), (0, 4), (3, 3)];
    let estimates: Vec<Vec<u64>> = vec![vec![0; 8]; 5];
    let results = navigator.run_benchmarks(&queries, &estimates);
    let lengths: Vec<u32> = results.dijkstra.results.iter().map(|r| r.distance).collect();
    assert_eq!(lengths, vec![5, 5, 4, 1, 0]);
    let ids: Vec<usize> = results.dijkstra.results.iter().map(|r| r.query_id).collect();
    assert_eq!(ids, vec![0, 1, 2, 3, 4]);
    assert_eq!(results.a_star.results.len(), 5);
    assert_eq!(results.dijkstra.results[0].nmb_nodes, 5);
    assert_eq!(results.dijkstra.results[0].start_node.lat, 0);
    assert_eq!(results.dijkstra.results[0].end_node.lon, 107);
    for list in [&results.a_star, &results.bd_dijkstra, &results.ch] {
        for r in list.results.iter() {
            let baseline = &results.dijkstra.results[r.query_id];
            assert_eq!(r.distance, baseline.distance);
            assert_eq!(r.nmb_nodes, baseline.nmb_nodes);
        }
    }
    let kept: Vec<usize> = results.bd_dijkstra.results.iter().map(|r| r.query_id).collect();
    assert_eq!(kept, vec![0, 1, 2, 3, 4]);
}

#[test]
fn single_engines_report_their_query() {
    let contraction = CNMetadata { graph: grid(), get_shortcuts: HashMap::new() };
    let navigator = InMemoryGraph::new(grid(), contraction);
    let found = navigator.benchmark_dijkstra(0, 7, 3).unwrap();
    assert_eq!((found.query_id, found.distance, found.nmb_nodes), (3, 5, 5));
    let found = navigator.benchmark_a_star(0, 7, 4, &vec![0; 8]).unwrap();
    assert_eq!((found.query_id, found.distance, found.nmb_nodes), (4, 5, 5));
    let found = navigator.benchmark_bd_dijkstra(0, 7, 5).unwrap();
    assert_eq!((found.query_id, found.distance, found.nmb_nodes), (5, 5, 5));
    let found = navigator.benchmark_ch(0, 7, 6).unwrap();
    assert_eq!((found.query_id, found.distance, found.nmb_nodes), (6, 5, 5));
}

#[test]
fn random_nodes_are_nodes_and_none_twice() {
    let contraction = CNMetadata { graph: grid(), get_shortcuts: HashMap::new() };
    let navigator = InMemoryGraph::new(grid(), contraction);
    let picked = navigator.random_nodes(4);
    assert_eq!(picked.len(), 5);
    let mut sorted = picked.clone();
    sorted.sort();
    sorted.dedup();
    assert_eq!(sorted.len(), 5);
    assert!(picked.iter().all(|v| *v < 8));
    assert_eq!(navigator.random_nodes(20).len(), 8);
}

#[test]
fn empty_results() {
    let r = BenchmarkResult::new();
    assert_eq!((r.query_id, r.nmb_nodes, r.distance, r.amount_nodes_popped, r.time), (0, 0, 0, 0, 0));
    assert!(AlgoBenchmark::new().results.is_empty());
}

#[test]
fn heap_hands_out_lowest_rank_first() {
    let mut heap: MinHeap<HeapItem> = MinHeap::new();
    for d in [5u32, 3, 9, 1, 7, 3, 8, 2, 6] {
        heap.push(HeapItem { node_id: d, distance: d, previous_node: 0 });
    }
    assert_eq!(heap.len(), 9);
    assert_eq!(heap.peek().unwrap().distance, 1);
    let mut out: Vec<u32> = Vec::new();
    while let Some(item) = heap.pop() {
        out.push(item.distance);
    }
    assert_eq!(out, vec![1, 2, 3, 3, 5, 6, 7, 8, 9]);
    assert!(heap.is_empty());
    assert!(heap.pop().is_none());
    heap.push(HeapItem { node_id: 1, distance: 4, previous_node: 0 });
    heap.clear();
    assert!(heap.peek().is_none());
}

#[test]
fn heap_items_rank_by_distance_and_priority() {
    let a = HeapItem { node_id: 1, distance: 4, previous_node: 9 };
    let b = HeapItem { node_id: 2, distance: 4, previous_node: 8 };
    let c = HeapItem { node_id: 3, distance: 5, previous_node: 7 };
    assert!(a == b && a != c);
    assert_eq!(a.partial_cmp(&c), Some(Ordering::Greater));
    assert_eq!(c.partial_cmp(&a), Some(Ordering::Less));
    assert_eq!(a.partial_cmp(&b), Some(Ordering::Equal));
    assert!(a > c && c < a && !(a < b) && a >= b);
    let p = PriorityHeapItem { node_id: 1, distance: 9, priority: 10, previous_node: 0 };
    let q = PriorityHeapItem { node_id: 2, distance: 1, priority: 11, previous_node: 0 };
    assert!(p > q && q < p && p != q);
    assert_eq!(p.partial_cmp(&q), Some(Ordering::Greater));
    assert!(p == PriorityHeapItem { node_id: 7, distance: 0, priority: 10, previous_node: 3 });
    let mut heap: MinHeap<PriorityHeapItem> = MinHeap::with_capacity(2);
    heap.push(q);
    heap.push(p);
    assert_eq!(heap.pop().unwrap().node_id, 1);
}

#[test]
fn edges_are_equal_by_their_ends() {
    let e = Edge { source: 1, target: 2, distance: 3 };
    assert!(e == Edge { source: 1, target: 2, distance: 9 });
    assert!(e != Edge { source: 2, target: 1, distance: 3 });
    assert!(e != Edge { source: 1, target: 3, distance: 3 });
}

#[test]
fn graph_takes_and_loses_edges() {
    let mut graph = grid();
    assert!(graph.is_well_formed());
    assert!(graph.can_add_edge());
    assert_eq!(graph.out_degree(4), 5);
    graph.add_new_edge(Edge { source: 0, target: 7, distance: 5 });
    assert_eq!(graph.number_edges, 25);
    assert_eq!(graph.out_degree(0), 3);
    assert_eq!(graph.edges[0][2].target, 7);
    assert!(graph.is_well_formed());
    let copy = graph.duplicate();
    assert_eq!(copy.number_edges, 25);
    assert_eq!(copy.edges[0].len(), 3);
    assert_eq!(copy.nodes[3].lon, 103);
    graph.remove_edges_of_node(4);
    assert_eq!(graph.number_edges, 20);
    assert_eq!(graph.out_degree(4), 0);
    assert_eq!(graph.out_degree(0), 3);
    assert!(graph.is_well_formed());
    assert_eq!(copy.edges[4].len(), 5);
    let view = graph.adjacency_array();
    assert_eq!(view.get_neighbors_of_node_and_distances(4), &[] as &[u32]);
    assert_eq!(view.get_neighbors_of_node_and_distances(0), &[1, 2, 4, 1, 7, 5]);
    let empty = GridGraph::default();
    assert!(empty.is_well_formed());
    assert_eq!(empty.adjacency_array().get_nodes_count(), 0);
    let mut broken = grid();
    broken.number_edges = 23;
    assert!(!broken.is_well_formed());
    let mut broken = grid();
    broken.edges[0][0].source = 1;
    assert!(!broken.is_well_formed());
    let mut broken = grid();
    broken.edges[0][0].target = 8;
    assert!(!broken.is_well_formed());
}

#[test]
fn options_and_their_defaults() {
    let c = Config::with_defaults(String::from("coast.pbf"));
    assert_eq!(c.coastlines_file(), "coast.pbf");
    assert_eq!(c.number_of_nodes(), 10000);
    assert!(!c.force_rebuild_graph());
    assert!(!c.build_graph_on_startup());
    assert!(!c.max_test());
    assert!(c.geojson_export_path().is_none());
    let c = Config::new(Some(String::from("out.json")), String::from("x"), true, 5, true, true);
    assert_eq!(c.geojson_export_path(), &Some(String::from("out.json")));
    assert_eq!(c.number_of_nodes(), 5);
    assert!(c.force_rebuild_graph() && c.build_graph_on_startup() && c.max_test());
}

#[test]
fn benchmarks_leave_out_the_queries_that_have_no_way() {
    let mut graph = grid();
    graph.edges.push(Vec::new());
    graph.nodes.push(Node { lat: 0, lon: 0 });
    graph.number_nodes = 9;
    assert!(graph.is_well_formed());
    let contraction = CNMetadata { graph: graph.clone(), get_shortcuts: HashMap::new() };
    let navigator = InMemoryGraph::new(graph, contraction);
    let queries: Vec<(u32, u32)> = vec![(0, 8), (0, 7), (8, 3), (2, 5), (8, 8)];
    let estimates: Vec<Vec<u64>> = vec![vec![0; 9]; 5];
    let results = navigator.run_benchmarks(&queries, &estimates);
    let ids: Vec<usize> = results.dijkstra.results.iter().map(|r| r.query_id).collect();
    assert_eq!(ids, vec![1, 3, 4]);
    let lengths: Vec<u32> = results.dijkstra.results.iter().map(|r| r.distance).collect();
    assert_eq!(lengths, vec![5, 4, 0]);
    for list in [&results.a_star, &results.bd_dijkstra, &results.ch] {
        let mut last: Option<usize> = None;
        for r in list.results.iter() {
            let baseline = results.dijkstra.results.iter().find(|b| b.query_id == r.query_id).unwrap();
            assert_eq!((r.distance, r.nmb_nodes), (baseline.distance, baseline.nmb_nodes));
            assert!(last.map_or(true, |id| id < r.query_id));
            last = Some(r.query_id);
        }
    }
    let found = navigator.benchmark_ch(0, 7, 2).expect("a shortest way leads over a node between");
    assert_eq!((found.query_id, found.distance), (2, 5));
    assert!(navigator.benchmark_ch(0, 8, 2).is_none());
}

#[test]
fn a_time_is_held_as_far_as_64_bits_go() {
    assert_eq!(held_in_64_bits(0), 0);
    assert_eq!(held_in_64_bits(1_234_567), 1_234_567);
    assert_eq!(held_in_64_bits(u64::MAX as u128), u64::MAX);
    assert_eq!(held_in_64_bits(u64::MAX as u128 + 1), u64::MAX);
    assert_eq!(held_in_64_bits(u128::MAX), u64::MAX);
}
