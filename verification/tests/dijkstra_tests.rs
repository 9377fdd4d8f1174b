use osm_tasks::algorithms::dijkstra::{Dijkstra, DummyGraph, GraphInterface};
use osm_tasks::model::adjacency_array::AdjacencyArray;

fn trivial_graph() -> AdjacencyArray {
    let grid = DummyGraph::init();
    let (offsets, pairs) = grid.parts();
    let graph = AdjacencyArray::new(offsets.clone(), pairs.clone());
    assert!(graph.is_well_formed());
    graph
}

#[test]
fn trivial_grid_has_the_offsets_and_edges_given() {
    let grid = DummyGraph::init();
    let (offsets, pairs) = grid.parts();
    assert_eq!(offsets, &vec![0, 4, 10, 16, 22, 32, 38, 44, 48]);
    assert_eq!(pairs.len(), 48);
    assert_eq!(grid.get_nodes_count(), 8);
    assert_eq!(grid.get_neighbors_of_node_and_distances(0), &[1, 2, 4, 1]);
    assert_eq!(grid.get_neighbors_of_node_and_distances(4), &[0, 1, 1, 1, 2, 2, 3, 1, 5, 3]);
    assert_eq!(grid.get_neighbors_of_node_and_distances(7), &[5, 3, 6, 1]);
    let links: Vec<(u32, u32, u32)> = vec![
        (0, 1, 2),
        (0, 4, 1),
        (1, 2, 2),
        (1, 4, 1),
        (2, 3, 1),
        (2, 4, 2),
        (3, 4, 1),
        (3, 6, 2),
        (4, 5, 3),
        (5, 6, 1),
        (5, 7, 3),
        (6, 7, 1),
    ];
    for (a, b, d) in links {
        for (from, to) in [(a, b), (b, a)] {
            let pairs = grid.get_neighbors_of_node_and_distances(from);
            assert!(pairs.chunks(2).any(|p| p[0] == to && p[1] == d));
        }
    }
}

#[test]
fn dijkstra_distances_from_node_zero() {
    let expected: Vec<u32> = vec![0, 2, 3, 2, 1, 4, 4, 5];
    for target in 0..8u32 {
        let mut engine = Dijkstra::new(trivial_graph(), 0);
        let found = engine.find_route(target).expect("every node of the grid is reachable");
        assert_eq!(found.1, expected[target as usize]);
        assert_eq!(found.0[0], 0);
        assert_eq!(*found.0.last().unwrap(), target);
    }
}

#[test]
fn dijkstra_distances_from_node_zero_on_one_engine() {
    let expected: Vec<u32> = vec![0, 2, 3, 2, 1, 4, 4, 5];
    let mut engine = Dijkstra::new(trivial_graph(), 0);
    for target in (0..8u32).rev() {
        assert_eq!(engine.find_route(target).unwrap().1, expected[target as usize]);
    }
}

#[test]
fn dijkstra_route_zero_to_seven() {
    let mut engine = Dijkstra::new(trivial_graph(), 0);
    let found = engine.find_route(7).unwrap();
    assert_eq!(found.1, 5);
    assert_eq!(found.0, vec![0, 4, 3, 6, 7]);
}
