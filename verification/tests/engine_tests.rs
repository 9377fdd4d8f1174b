use std::collections::HashMap;
use std::sync::atomic::AtomicBool;

use osm_tasks::algorithms::a_star::{are_consistent, are_usable, AStar};
use osm_tasks::algorithms::bd_dijkstra::BdDijkstra;
use osm_tasks::algorithms::cn_graph_creator::{
    extend_independent_set, has_degrees_below, pick_independent_set, wants_shortcut, CNGraphCreator, NodeSource,
};
use osm_tasks::algorithms::cn_search::CNBdDijkstra;
use osm_tasks::algorithms::dijkstra::Dijkstra;
use osm_tasks::algorithms::stop::SearchEnd;
use osm_tasks::algorithms::unwrap_shortcuts::{unwrap_shortcuts, unwrap_shortcuts_within, unwraps_all, MAX_NESTING};
use osm_tasks::algorithms::witness_search::WitnessSearch;
use osm_tasks::model::adjacency_array::AdjacencyArray;
use osm_tasks::model::cn_model::{CNMetadata, Shortcut};
use osm_tasks::model::grid_graph::{Edge, GridGraph, Node};

const LINKS: [(u32, u32, u32); 12] = [
    (0, 1, 2),
    (0, 4, 1),
    (1, 2, 2),
    (1, 4, 1),
    (2, 3, 1),
    (2, 4, 2),
    (3, 4, 1),
    (3, 6, 2),
    (4, 5, 3),
    (5, 6, 1),
    (5, 7, 3),
    (6, 7, 1),
];

fn grid() -> GridGraph {
    let mut edges: Vec<Vec<Edge>> = vec![Vec::new(); 8];
    for (a, b, d) in LINKS {
        edges[a as usize].push(Edge { source: a, target: b, distance: d });
        edges[b as usize].push(Edge { source: b, target: a, distance: d });
    }
    for list in edges.iter_mut() {
        list.sort_by_key(|e| e.target);
    }
    let graph = GridGraph { number_edges: 24, number_nodes: 8, edges, nodes: vec![Node { lat: 0, lon: 0 }; 8] };
    assert!(graph.is_well_formed());
    graph
}

fn length_of(graph: &GridGraph, route: &[u32]) -> Option<u32> {
    let mut sum = 0;
    for pair in route.windows(2) {
        let edge = graph.edges[pair[0] as usize].iter().find(|e| e.target == pair[1])?;
        sum += edge.distance;
    }
    Some(sum)
}

fn baseline(graph: &GridGraph, from: u32, to: u32) -> Option<u32> {
    Dijkstra::new(graph.adjacency_array(), from).find_route(to).map(|r| r.1)
}

#[test]
fn compact_view_of_the_grid() {
    let view = grid().adjacency_array();
    assert!(view.is_well_formed());
    assert_eq!(view.edges_and_distances_offsets(), &vec![0, 4, 10, 16, 22, 32, 38, 44, 48]);
    assert_eq!(view.edges_and_distances().len(), 48);
    assert_eq!(view.get_nodes_count(), 8);
    assert_eq!(view.get_neighbors_of_node_and_distances(0), &[1, 2, 4, 1]);
    assert_eq!(view.get_neighbors_of_node_and_distances(7), &[5, 3, 6, 1]);
}

#[test]
fn malformed_views_are_told() {
    assert!(!AdjacencyArray::new(vec![], vec![]).is_well_formed());
    assert!(!AdjacencyArray::new(vec![0, 3], vec![0, 1, 0]).is_well_formed());
    assert!(!AdjacencyArray::new(vec![0, 2], vec![5, 1]).is_well_formed());
    assert!(!AdjacencyArray::new(vec![2, 2], vec![0, 1]).is_well_formed());
    assert!(AdjacencyArray::new(vec![0, 2], vec![0, 1]).is_well_formed());
}

#[test]
fn dijkstra_from_every_node_is_symmetric() {
    let graph = grid();
    for a in 0..8 {
        for b in 0..8 {
            assert_eq!(baseline(&graph, a, b), baseline(&graph, b, a));
        }
    }
}

#[test]
fn the_way_from_a_node_to_itself_is_that_node() {
    let graph = grid();
    let mut engine = Dijkstra::new(graph.adjacency_array(), 3);
    assert_eq!(engine.find_route(3), Some((vec![3], 0, 1)));
    let found = AStar::new(&graph, 3).find_route(3, &vec![0u64; 8]).unwrap();
    assert_eq!((found.0, found.1), (vec![3], 0));
    let found = BdDijkstra::new(&graph, 3).find_route(3).unwrap();
    assert_eq!((found.0, found.1), (vec![3], 0));
}

#[test]
fn dijkstra_keeps_labels_until_the_source_changes() {
    let mut engine = Dijkstra::new(grid().adjacency_array(), 0);
    assert_eq!(engine.find_route(7).unwrap().1, 5);
    assert_eq!(engine.find_route(2).unwrap().1, 3);
    engine.change_source_node(0);
    assert_eq!(engine.find_route(5).unwrap().1, 4);
    engine.change_source_node(7);
    let found = engine.find_route(0).unwrap();
    assert_eq!(found.1, 5);
    assert_eq!(length_of(&grid(), &found.0), Some(5));
}

#[test]
fn dijkstra_finds_no_way_to_a_node_apart() {
    let view = AdjacencyArray::new(vec![0, 2, 4, 4], vec![1, 7, 0, 7]);
    assert!(view.is_well_formed());
    let mut engine = Dijkstra::new(view, 0);
    assert_eq!(engine.find_route(2), None);
    assert_eq!(engine.find_route(1).map(|r| r.1), Some(7));
}

#[test]
fn dijkstra_never_reports_a_length_that_does_not_fit() {
    let big = u32::MAX - 1;
    let view = AdjacencyArray::new(vec![0, 2, 6, 8], vec![1, big, 0, big, 2, 1, 1, 1]);
    assert!(view.is_well_formed());
    let mut engine = Dijkstra::new(view, 0);
    assert_eq!(engine.find_route(1).map(|r| r.1), Some(big));
    assert_eq!(engine.find_route(2), None);
}

#[test]
fn a_star_with_zero_estimates_equals_dijkstra() {
    let graph = grid();
    let mut engine = AStar::new(&graph, 0);
    let found = engine.find_route(7, &vec![0; 8]).unwrap();
    assert_eq!(found.1, 5);
    assert_eq!(found.0, vec![0, 4, 3, 6, 7]);
}

#[test]
fn a_star_with_exact_estimates_equals_dijkstra() {
    let graph = grid();
    for to in 0..8u32 {
        let estimates: Vec<u64> = (0..8u32).map(|v| baseline(&graph, v, to).unwrap() as u64).collect();
        for from in 0..8u32 {
            let found = AStar::new(&graph, from).find_route(to, &estimates).unwrap();
            assert_eq!(Some(found.1), baseline(&graph, from, to));
            if from != to {
                assert_eq!(length_of(&graph, &found.0), Some(found.1));
            }
        }
    }
}

#[test]
fn bidirectional_meets_in_the_middle() {
    let graph = grid();
    let mut engine = BdDijkstra::new(&graph, 0);
    let found = engine.find_route(7).unwrap();
    let (meeting, mu) = engine.best_meeting();
    assert_eq!(mu, 5);
    assert!([3, 4, 6].contains(&meeting));
    assert_eq!(found.1, 5);
    assert_eq!(found.0.first(), Some(&0));
    assert_eq!(found.0.last(), Some(&7));
    assert_eq!(length_of(&graph, &found.0), Some(5));
}

#[test]
fn bidirectional_equals_dijkstra_for_every_pair() {
    let graph = grid();
    for from in 0..8u32 {
        for to in 0..8u32 {
            let shortest = baseline(&graph, from, to).unwrap();
            let found = BdDijkstra::new(&graph, from).find_route(to).unwrap();
            assert_eq!(found.1, shortest, "from {} to {}", from, to);
            assert_eq!(length_of(&graph, &found.0), Some(shortest));
            assert_eq!(found.0.first(), Some(&from));
            assert_eq!(found.0.last(), Some(&to));
        }
    }
    let mut engine = BdDijkstra::new(&graph, 0);
    assert_eq!(engine.find_route(7).unwrap().1, 5);
    assert_eq!(engine.find_route(2).unwrap().1, 3);
    assert_eq!(engine.find_route(7).unwrap().1, 5);
}

#[test]
fn bidirectional_finds_no_way_to_a_node_apart() {
    let graph = GridGraph {
        number_edges: 2,
        number_nodes: 3,
        edges: vec![
            vec![Edge { source: 0, target: 1, distance: 7 }],
            vec![Edge { source: 1, target: 0, distance: 7 }],
            vec![],
        ],
        nodes: vec![Node { lat: 0, lon: 0 }; 3],
    };
    assert!(graph.is_well_formed());
    assert_eq!(BdDijkstra::new(&graph, 0).find_route(2), None);
}

#[test]
fn witness_search_reports_every_destination() {
    let view = grid().adjacency_array();
    let removed: HashMap<u32, bool> = HashMap::new();
    let mut search = WitnessSearch::new(&view, 0, &removed);
    let (routes, distances, _) = search.find_route(&[7, 2, 4]).unwrap();
    assert_eq!(distances, vec![1, 3, 5]);
    assert_eq!(routes[0], vec![0, 4]);
    assert_eq!(routes[1], vec![0, 4, 2]);
    assert_eq!(routes[2], vec![0, 4, 3, 6, 7]);
}

#[test]
fn witness_search_leaves_removed_nodes_out() {
    let view = grid().adjacency_array();
    let mut removed: HashMap<u32, bool> = HashMap::new();
    removed.insert(4, true);
    let mut search = WitnessSearch::new(&view, 0, &removed);
    let (routes, distances, _) = search.find_route(&[3]).unwrap();
    assert_eq!(distances, vec![5]);
    assert_eq!(routes, vec![vec![0, 1, 2, 3]]);
    let everything: HashMap<u32, bool> = HashMap::new();
    let mut open_search = WitnessSearch::new(&view, 0, &everything);
    assert_eq!(open_search.find_route(&[3]).unwrap().1, vec![2]);
    search.change_source_node(1);
    assert_eq!(search.find_route(&[4]), None);
}

#[test]
fn witness_search_reports_what_can_be_reached() {
    let view = grid().adjacency_array();
    let removed: HashMap<u32, bool> = HashMap::new();
    let mut search = WitnessSearch::new(&view, 0, &removed);
    assert_eq!(search.find_route(&[]), None);
    search.change_source_node(1);
    assert_eq!(search.find_route(&[2, 2]), Some((vec![vec![1, 2]], vec![2], 0)));
    search.change_source_node(2);
    let first = search.find_route(&[3]).unwrap();
    assert_eq!((first.0, first.1), (vec![vec![2, 3]], vec![1]));
    let again = search.find_route(&[3, 2]).unwrap();
    assert_eq!((again.0, again.1), (vec![vec![2, 3], vec![2]], vec![1, 0]));

    let apart = AdjacencyArray::new(vec![0, 2, 4, 4], vec![1, 3, 0, 3]);
    assert!(apart.is_well_formed());
    let mut search = WitnessSearch::new(&apart, 0, &removed);
    assert_eq!(search.find_route(&[1, 2]), Some((vec![vec![0, 1]], vec![3], 0)));
    assert_eq!(search.find_route(&[2]), None);
}

fn shortcut(way: Vec<u32>, distance: u32) -> Shortcut {
    let edge = Edge { source: way[0], target: *way.last().unwrap(), distance };
    Shortcut { replaced_edges: way, edge }
}

#[test]
fn unwrapping_replaces_shortcuts_inside_shortcuts() {
    let mut shortcuts: HashMap<u32, Vec<Shortcut>> = HashMap::new();
    shortcuts.insert(0, vec![shortcut(vec![0, 4, 5, 6, 7], 5)]);
    shortcuts.insert(4, vec![shortcut(vec![4, 9, 5], 3)]);
    shortcuts.insert(6, vec![shortcut(vec![6, 8, 7], 1)]);
    assert_eq!(unwrap_shortcuts(&vec![0, 7], &shortcuts), vec![0, 4, 9, 5, 6, 8, 7]);
    assert_eq!(unwrap_shortcuts(&vec![3, 0, 7, 2], &shortcuts), vec![3, 0, 4, 9, 5, 6, 8, 7, 2]);
    assert_eq!(unwrap_shortcuts(&vec![6, 7], &shortcuts), vec![6, 8, 7]);
    assert_eq!(unwrap_shortcuts(&vec![7, 0], &shortcuts), vec![7, 0]);
    assert_eq!(unwrap_shortcuts(&vec![5], &shortcuts), vec![5]);
    assert_eq!(unwrap_shortcuts(&vec![], &shortcuts), Vec::<u32>::new());
}

#[test]
fn unwrapping_replaces_shortcuts_at_the_ends_of_a_replaced_way() {
    let mut shortcuts: HashMap<u32, Vec<Shortcut>> = HashMap::new();
    shortcuts.insert(0, vec![shortcut(vec![0, 1, 2], 4), shortcut(vec![0, 2, 3], 6)]);
    assert_eq!(unwrap_shortcuts(&vec![0, 3], &shortcuts), vec![0, 1, 2, 3]);
    assert_eq!(unwrap_shortcuts(&vec![0, 2], &shortcuts), vec![0, 1, 2]);
    let mut shortcuts: HashMap<u32, Vec<Shortcut>> = HashMap::new();
    shortcuts.insert(0, vec![shortcut(vec![0, 4, 5, 7], 5), shortcut(vec![0, 9, 4], 1)]);
    shortcuts.insert(5, vec![shortcut(vec![5, 6, 7], 2)]);
    let result = unwrap_shortcuts(&vec![0, 7], &shortcuts);
    assert_eq!(result, vec![0, 9, 4, 5, 6, 7]);
    assert_eq!(unwrap_shortcuts(&result, &shortcuts), result);
    for pair in result.windows(2) {
        assert!(shortcuts.get(&pair[0]).map_or(true, |list| list.iter().all(|s| s.edge.target != pair[1])));
    }
}

#[test]
fn search_over_a_contracted_ring_reports_lengths_of_ways() {
    let graph = ring(400);
    let meta: CNMetadata = CNGraphCreator::new(&graph).build_cn_graph();
    for from in [0u32, 17, 123, 399] {
        for to in [50u32, 200, 250, 398] {
            let shortest = baseline(&graph, from, to).unwrap();
            if let Some((route, distance, _)) = CNBdDijkstra::new(&meta, from).find_route(to) {
                assert!(distance >= shortest);
                assert_eq!(route.first(), Some(&from));
                assert_eq!(route.last(), Some(&to));
            }
        }
    }
}

#[test]
fn bidirectional_finds_a_way_of_one_edge() {
    let graph = grid();
    let found = BdDijkstra::new(&graph, 0).find_route(4).unwrap();
    assert_eq!(found.0, vec![0, 4]);
    assert_eq!(found.1, 1);
}

#[test]
fn unwrapping_stops_at_the_depth_given() {
    let mut shortcuts: HashMap<u32, Vec<Shortcut>> = HashMap::new();
    shortcuts.insert(0, vec![shortcut(vec![0, 4, 5, 7], 5)]);
    shortcuts.insert(4, vec![shortcut(vec![4, 6, 9, 5], 3)]);
    shortcuts.insert(6, vec![shortcut(vec![6, 4, 5, 9], 3)]);
    assert_eq!(unwrap_shortcuts_within(&vec![0, 7], &shortcuts, 0), None);
    assert_eq!(unwrap_shortcuts_within(&vec![0, 7], &shortcuts, 5), None);
    assert_eq!(unwrap_shortcuts_within(&vec![7, 0], &shortcuts, 0), Some(vec![7, 0]));
    assert_eq!(unwrap_shortcuts_within(&vec![6, 9], &shortcuts, 1), None);
}

#[test]
fn contraction_of_the_grid_keeps_every_length() {
    let graph = grid();
    assert!(has_degrees_below(&graph, 15));
    let meta: CNMetadata = CNGraphCreator::new(&graph).build_cn_graph();
    assert!(meta.graph.is_well_formed());
    for from in 0..8u32 {
        for to in 0..8u32 {
            assert_eq!(baseline(&meta.graph, from, to), baseline(&graph, from, to));
        }
    }
}

#[test]
fn search_over_the_contraction_equals_dijkstra() {
    let graph = grid();
    let meta: CNMetadata = CNGraphCreator::new(&graph).build_cn_graph();
    for from in 0..8u32 {
        for to in 0..8u32 {
            let shortest = baseline(&graph, from, to).unwrap();
            let found = CNBdDijkstra::new(&meta, from).find_route(to).unwrap();
            assert_eq!(found.1, shortest, "from {} to {}", from, to);
            assert_eq!(length_of(&graph, &found.0), Some(shortest));
            assert_eq!(found.0.first(), Some(&from));
            assert_eq!(found.0.last(), Some(&to));
        }
    }
}

fn ring(n: u32) -> GridGraph {
    let mut edges: Vec<Vec<Edge>> = vec![Vec::new(); n as usize];
    for a in 0..n {
        let b = (a + 1) % n;
        let d = 1 + (a % 7);
        edges[a as usize].push(Edge { source: a, target: b, distance: d });
        edges[b as usize].push(Edge { source: b, target: a, distance: d });
    }
    let graph = GridGraph {
        number_edges: 2 * n as i64,
        number_nodes: n as i64,
        edges,
        nodes: vec![Node { lat: 0, lon: 0 }; n as usize],
    };
    assert!(graph.is_well_formed());
    graph
}

#[test]
fn contraction_of_a_ring_makes_no_shortcut() {
    let graph = ring(400);
    let meta: CNMetadata = CNGraphCreator::new(&graph).build_cn_graph();
    assert!(meta.graph.is_well_formed());
    assert!(meta.get_shortcuts.values().all(|list| list.is_empty()));
    assert_eq!(meta.graph.number_edges, graph.number_edges);
    for node in 0..400usize {
        assert_eq!(meta.graph.edges[node].len(), 2);
    }
    for from in [0u32, 17, 123, 399] {
        for to in [1u32, 200, 250, 398] {
            assert_eq!(baseline(&meta.graph, from, to), baseline(&graph, from, to));
        }
    }
}

#[test]
fn independent_set_takes_what_can_join_in_the_order_offered() {
    let view = grid().adjacency_array();
    let choices = vec![0u32, 1, 4, 2, 0, 7, 5];
    let mut set: Vec<u32> = Vec::new();
    let mut taken: HashMap<u32, bool> = HashMap::new();
    extend_independent_set(&view, &HashMap::new(), &mut set, &mut taken, &choices, 3);
    assert_eq!(set, vec![0, 2, 7]);
    let mut keys: Vec<u32> = taken.keys().copied().collect();
    keys.sort();
    assert_eq!(keys, vec![0, 2, 7]);

    let mut removed: HashMap<u32, bool> = HashMap::new();
    removed.insert(7, true);
    let mut set: Vec<u32> = Vec::new();
    let mut taken: HashMap<u32, bool> = HashMap::new();
    extend_independent_set(&view, &removed, &mut set, &mut taken, &choices, 3);
    assert_eq!(set, vec![0, 2, 5]);
    extend_independent_set(&view, &removed, &mut set, &mut taken, &vec![6, 3], 5);
    assert_eq!(set, vec![0, 2, 5]);
    extend_independent_set(&view, &removed, &mut set, &mut taken, &vec![6, 3], 3);
    assert_eq!(set, vec![0, 2, 5]);
}

#[test]
fn independent_set_drawn_at_random_is_independent() {
    let graph = grid();
    let view = graph.adjacency_array();
    let mut removed: HashMap<u32, bool> = HashMap::new();
    removed.insert(4, true);
    let mut source = NodeSource::of_thread();
    for round in 0..20u64 {
        if round == 10 {
            source = NodeSource::seeded(round);
        }
        let set = pick_independent_set(&view, &removed, 3, &mut source);
        assert!(set.len() <= 3);
        for (i, u) in set.iter().enumerate() {
            assert!(*u < 8 && *u != 4);
            for v in &set[..i] {
                assert_ne!(u, v);
                assert!(graph.edges[*u as usize].iter().all(|e| e.target != *v));
            }
        }
    }
}

#[test]
fn compact_view_of_a_copy_is_the_same() {
    let graph = grid();
    let copy = graph.duplicate();
    let first = graph.adjacency_array();
    let second = copy.adjacency_array();
    assert_eq!(first.edges_and_distances_offsets(), second.edges_and_distances_offsets());
    assert_eq!(first.edges_and_distances(), second.edges_and_distances());
    assert_eq!(first.edges_and_distances_offsets(), &vec![0, 4, 10, 16, 22, 32, 38, 44, 48]);
}

fn listed(meta: &CNMetadata) -> Vec<(u32, u32, u32, Vec<u32>)> {
    let mut all: Vec<(u32, u32, u32, Vec<u32>)> = Vec::new();
    for (source, list) in meta.get_shortcuts.iter() {
        for s in list {
            all.push((*source, s.edge.target, s.edge.distance, s.replaced_edges.clone()));
        }
    }
    all.sort();
    all
}

/// A ring of `n` nodes with edges of length 1, and from every eighth node
/// a long edge to the node two before it: the way round over the node
/// between is shorter than that edge.
fn knotted_ring(n: u32) -> GridGraph {
    let mut edges: Vec<Vec<Edge>> = vec![Vec::new(); n as usize];
    let mut count = 0;
    for a in 0..n {
        let b = (a + 1) % n;
        edges[a as usize].push(Edge { source: a, target: b, distance: 1 });
        edges[b as usize].push(Edge { source: b, target: a, distance: 1 });
        count += 2;
    }
    for v in (8..n).step_by(8) {
        let a = v - 2;
        edges[a as usize].push(Edge { source: a, target: v, distance: 10 });
        edges[v as usize].push(Edge { source: v, target: a, distance: 10 });
        count += 2;
    }
    let graph = GridGraph {
        number_edges: count,
        number_nodes: n as i64,
        edges,
        nodes: vec![Node { lat: 0, lon: 0 }; n as usize],
    };
    assert!(graph.is_well_formed());
    graph
}

#[test]
fn the_same_seed_gives_the_same_contraction() {
    let graph = knotted_ring(400);
    let mut with_shortcuts = 0;
    for seed in 0..20u64 {
        let first = CNGraphCreator::new(&graph).build_cn_graph_seeded(seed);
        let second = CNGraphCreator::new(&graph).build_cn_graph_seeded(seed);
        if !listed(&first).is_empty() {
            with_shortcuts += 1;
        }
        assert_eq!(listed(&first), listed(&second));
        assert_eq!(first.graph.number_edges, second.graph.number_edges);
        for node in 0..400usize {
            let a: Vec<(u32, u32)> = first.graph.edges[node].iter().map(|e| (e.target, e.distance)).collect();
            let b: Vec<(u32, u32)> = second.graph.edges[node].iter().map(|e| (e.target, e.distance)).collect();
            assert_eq!(a, b);
        }
    }
    assert!(with_shortcuts > 0);
    let mut one = NodeSource::seeded(3);
    let mut two = NodeSource::seeded(3);
    assert_eq!(one.draw(400, 8), two.draw(400, 8));
    assert_eq!(one.draw(5, 3), two.draw(5, 3));
    assert!(one.draw(5, 20).iter().all(|v| *v < 5));
}

#[test]
fn contraction_of_a_knotted_ring_makes_sound_shortcuts() {
    let graph = knotted_ring(400);
    let mut made = 0;
    let mut searched = 0;
    for seed in 0..20u64 {
        let meta: CNMetadata = CNGraphCreator::new(&graph).build_cn_graph_seeded(seed);
        assert!(meta.graph.is_well_formed());
        for (source, list) in meta.get_shortcuts.iter() {
            for (i, s) in list.iter().enumerate() {
                made += 1;
                assert_eq!(s.edge.source, *source);
                assert_eq!(s.replaced_edges[0], s.edge.source);
                assert_eq!(*s.replaced_edges.last().unwrap(), s.edge.target);
                assert!(s.replaced_edges.len() >= 3);
                assert_eq!(length_of(&meta.graph, &s.replaced_edges).map(|d| d >= s.edge.distance), Some(true));
                assert_eq!(baseline(&graph, s.edge.source, s.edge.target), Some(s.edge.distance));
                assert!(list[..i].iter().all(|other| other.edge.target != s.edge.target));
                assert!(meta.graph.edges[s.edge.source as usize]
                    .iter()
                    .any(|e| e.target == s.edge.target && e.distance == s.edge.distance));
            }
        }
        for (source, list) in meta.get_shortcuts.iter() {
            for s in list {
                let to = s.edge.target;
                for from in [*source, (*source + 399) % 400, (*source + 390) % 400] {
                    if let Some((route, distance, _)) = CNBdDijkstra::new(&meta, from).find_route(to) {
                        searched += 1;
                        assert_eq!(route.first(), Some(&from));
                        assert_eq!(route.last(), Some(&to));
                        assert_eq!(distance, baseline(&graph, from, to).unwrap());
                        let walked = length_of(&graph, &route).expect("a way over the edges of the graph");
                        assert_eq!(walked, distance);
                    }
                }
            }
        }
        for from in [0u32, 6, 8, 123] {
            for to in [7u32, 9, 200, 398] {
                assert_eq!(baseline(&meta.graph, from, to), baseline(&graph, from, to));
            }
        }
    }
    assert!(made > 0);
    assert!(searched > 0);
}

#[test]
fn a_search_that_is_asked_to_stop_ends_without_a_way() {
    let graph = grid();
    let meta: CNMetadata = CNGraphCreator::new(&graph).build_cn_graph();
    let stop = AtomicBool::new(true);
    let mut uniform = Dijkstra::new(graph.adjacency_array(), 0);
    assert!(matches!(uniform.find_route_unless(7, &stop), SearchEnd::Stopped(0)));
    assert_eq!(uniform.find_route(7).unwrap().1, 5);
    assert!(matches!(uniform.find_route_unless(7, &stop), SearchEnd::Stopped(_)));
    let zeros = vec![0u64; 8];
    let mut guided = AStar::new(&graph, 0);
    assert!(matches!(guided.find_route_unless(7, &zeros, &stop), SearchEnd::Stopped(0)));
    assert_eq!(guided.find_route(7, &zeros).unwrap().1, 5);
    assert!(matches!(BdDijkstra::new(&graph, 0).find_route_unless(7, &stop), SearchEnd::Stopped(0)));
    assert!(matches!(CNBdDijkstra::new(&meta, 0).find_route_unless(7, &stop), SearchEnd::Stopped(0)));
}

#[test]
fn a_search_that_is_not_stopped_ends_as_usual() {
    let graph = grid();
    let meta: CNMetadata = CNGraphCreator::new(&graph).build_cn_graph();
    let go = AtomicBool::new(false);
    let zeros = vec![0u64; 8];
    for to in 1..8u32 {
        let expected = Dijkstra::new(graph.adjacency_array(), 0).find_route(to).unwrap();
        match Dijkstra::new(graph.adjacency_array(), 0).find_route_unless(to, &go) {
            SearchEnd::Route(route, distance, popped) => assert_eq!((route, distance, popped), expected),
            _ => panic!("the node can be reached"),
        }
        let expected = AStar::new(&graph, 0).find_route(to, &zeros).unwrap();
        match AStar::new(&graph, 0).find_route_unless(to, &zeros, &go) {
            SearchEnd::Route(route, distance, popped) => assert_eq!((route, distance, popped), expected),
            _ => panic!("the node can be reached"),
        }
        let expected = BdDijkstra::new(&graph, 0).find_route(to);
        match BdDijkstra::new(&graph, 0).find_route_unless(to, &go) {
            SearchEnd::Route(route, distance, popped) => assert_eq!(Some((route, distance, popped)), expected),
            SearchEnd::NoRoute(_) => assert_eq!(expected, None),
            SearchEnd::Stopped(_) => panic!("nothing asked for a stop"),
        }
        let expected = CNBdDijkstra::new(&meta, 0).find_route(to);
        match CNBdDijkstra::new(&meta, 0).find_route_unless(to, &go) {
            SearchEnd::Route(route, distance, popped) => assert_eq!(Some((route, distance, popped)), expected),
            SearchEnd::NoRoute(_) => assert_eq!(expected, None),
            SearchEnd::Stopped(_) => panic!("nothing asked for a stop"),
        }
    }
    let mut apart = grid();
    apart.edges.push(Vec::new());
    apart.nodes.push(Node { lat: 0, lon: 0 });
    apart.number_nodes = 9;
    assert!(apart.is_well_formed());
    assert!(matches!(Dijkstra::new(apart.adjacency_array(), 0).find_route_unless(8, &go), SearchEnd::NoRoute(taken) if taken >= 8));
    assert!(matches!(AStar::new(&apart, 0).find_route_unless(8, &vec![0u64; 9], &go), SearchEnd::NoRoute(taken) if taken >= 8));
    assert!(matches!(BdDijkstra::new(&apart, 0).find_route_unless(8, &go), SearchEnd::NoRoute(_)));
}

#[test]
fn a_way_becomes_a_shortcut_where_it_leads_over_the_node_and_is_shorter() {
    assert!(wants_shortcut(&vec![1, 5, 4, 2], 3, 4, 11));
    assert!(!wants_shortcut(&vec![1, 5, 4, 2], 3, 4, 3));
    assert!(!wants_shortcut(&vec![1, 5, 4, 2], 3, 4, 2));
    assert!(!wants_shortcut(&vec![1, 5, 2], 3, 4, 11));
    assert!(!wants_shortcut(&vec![], 0, 4, 11));
}

#[test]
fn nesting_of_shortcuts_is_told_by_unwrapping_each() {
    let mut shortcuts: HashMap<u32, Vec<Shortcut>> = HashMap::new();
    shortcuts.insert(0, vec![shortcut(vec![0, 4, 5, 6, 7], 5)]);
    shortcuts.insert(4, vec![shortcut(vec![4, 9, 5], 3)]);
    shortcuts.insert(6, vec![shortcut(vec![6, 8, 7], 1)]);
    assert!(unwraps_all(&shortcuts, 10, 2));
    assert!(unwraps_all(&shortcuts, 10, 400));
    assert!(!unwraps_all(&shortcuts, 10, 1));
    assert!(!unwraps_all(&shortcuts, 10, 0));
    assert!(unwraps_all(&shortcuts, 0, 0));
    assert!(!unwraps_all(&shortcuts, 5, 1));
    let mut circle: HashMap<u32, Vec<Shortcut>> = HashMap::new();
    circle.insert(4, vec![shortcut(vec![4, 6, 9, 5], 3)]);
    circle.insert(6, vec![shortcut(vec![6, 4, 5, 9], 3)]);
    assert!(!unwraps_all(&circle, 10, 1000));
    assert!(unwraps_all(&HashMap::new(), 10, 0));
}

#[test]
fn shortcuts_of_a_contraction_unwrap() {
    let graph = knotted_ring(400);
    for seed in 0..5u64 {
        let meta: CNMetadata = CNGraphCreator::new(&graph).build_cn_graph_seeded(seed);
        assert!(graph.has_positive_lengths());
        assert!(unwraps_all(&meta.get_shortcuts, 400, MAX_NESTING));
        assert!(unwraps_all(&meta.get_shortcuts, 400, 400));
        for (source, list) in meta.get_shortcuts.iter() {
            for s in list {
                let found = CNBdDijkstra::new(&meta, *source).find_route(s.edge.target);
                assert!(found.is_some());
            }
        }
        for from in [0u32, 6, 8, 123, 399] {
            for to in [7u32, 9, 200, 398] {
                let found = CNBdDijkstra::new(&meta, from).find_route(to).unwrap();
                assert_eq!(Some(found.1), baseline(&graph, from, to));
                assert_eq!(length_of(&graph, &found.0), Some(found.1));
            }
        }
    }
}

#[test]
fn witness_search_lists_new_nodes_in_the_order_of_their_lengths() {
    let view = grid().adjacency_array();
    let removed: HashMap<u32, bool> = HashMap::new();
    for source in 0..8u32 {
        let mut search = WitnessSearch::new(&view, source, &removed);
        let (routes, distances, _) = search.find_route(&[7, 6, 5, 4, 3, 2, 1, 0]).unwrap();
        assert_eq!(routes.len(), 8);
        assert!(distances.windows(2).all(|pair| pair[0] <= pair[1]));
        assert_eq!(distances[0], 0);
        assert_eq!(routes[0], vec![source]);
    }
    let mut search = WitnessSearch::new(&view, 0, &removed);
    let first = search.find_route(&[2]).unwrap();
    assert_eq!(first.1, vec![3]);
    let (routes, distances, _) = search.find_route(&[7, 2, 4, 5]).unwrap();
    let ends: Vec<u32> = routes.iter().map(|r| *r.last().unwrap()).collect();
    assert_eq!(ends, vec![2, 4, 5, 7]);
    assert_eq!(distances, vec![3, 1, 4, 5]);
}

#[test]
fn a_graph_whose_edges_all_have_their_reverse_is_told() {
    let graph = grid();
    assert!(graph.is_symmetric());
    let mut one_way = grid();
    one_way.edges[0].retain(|e| e.target != 4);
    one_way.number_edges -= 1;
    assert!(one_way.is_well_formed());
    assert!(!one_way.is_symmetric());
    let mut other_length = grid();
    other_length.edges[7][0].distance += 1;
    assert!(other_length.is_well_formed());
    assert!(!other_length.is_symmetric());
    assert!(ring(400).is_symmetric());
    assert!(GridGraph::default().is_symmetric());
}

#[test]
fn estimates_are_held_against_the_edges() {
    let graph = grid();
    let zeros = vec![0u64; 8];
    assert!(are_usable(&zeros, 8));
    assert!(!are_usable(&zeros, 7));
    assert!(are_consistent(&graph, &zeros));
    let exact: Vec<u64> = (0..8u32).map(|v| baseline(&graph, v, 7).unwrap() as u64).collect();
    assert_eq!(exact, vec![5, 5, 4, 3, 4, 2, 1, 0]);
    assert!(are_usable(&exact, 8));
    assert!(are_consistent(&graph, &exact));
    let mut steep = exact.clone();
    steep[0] = 6;
    assert!(!are_consistent(&graph, &steep));
    let mut high = zeros.clone();
    high[3] = 0xffff_ffff_0000_0001;
    assert!(!are_usable(&high, 8));
    high[3] = 0xffff_ffff_0000_0000;
    assert!(are_usable(&high, 8));
    assert!(!are_consistent(&graph, &high));
}

#[test]
fn a_graph_with_an_edge_of_no_length_is_told() {
    assert!(grid().has_positive_lengths());
    assert!(GridGraph::default().has_positive_lengths());
    let mut flat = grid();
    flat.edges[5][1].distance = 0;
    assert!(flat.is_well_formed());
    assert!(!flat.has_positive_lengths());
}

#[test]
fn a_star_with_estimates_that_are_not_consistent_can_report_a_longer_way() {
    let graph = grid();
    let estimates: Vec<u64> = vec![0, 0, 0, 0, 100, 0, 0, 0];
    assert!(are_usable(&estimates, 8));
    assert!(!are_consistent(&graph, &estimates));
    let found = AStar::new(&graph, 0).find_route(7, &estimates).unwrap();
    assert_eq!(baseline(&graph, 0, 7), Some(5));
    assert_eq!(found.1, 8);
    assert_eq!(found.0.first(), Some(&0));
    assert_eq!(found.0.last(), Some(&7));
    assert!(length_of(&graph, &found.0).unwrap() <= 8);
}

#[test]
fn bidirectional_over_edges_without_their_reverse_can_report_a_way_that_is_none() {
    let mut edges: Vec<Vec<Edge>> = vec![Vec::new(); 2];
    edges[1].push(Edge { source: 1, target: 0, distance: 5 });
    let graph = GridGraph { number_edges: 1, number_nodes: 2, edges, nodes: vec![Node { lat: 0, lon: 0 }; 2] };
    assert!(graph.is_well_formed());
    assert!(!graph.is_symmetric());
    assert_eq!(baseline(&graph, 0, 1), None);
    let found = BdDijkstra::new(&graph, 0).find_route(1);
    assert_eq!(found.map(|r| r.1), Some(5));
}
