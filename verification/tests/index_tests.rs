use osm_tasks::algorithms::nearest_neighbor::{decide, find_nearest_neighbor_in_cell, NearestNeighbor, NodeWithId, Outcome};
use osm_tasks::algorithms::polygon_test::{
    apply_ring, insert_in_grid, mark_cells, mark_coherent_rects, ring_regions, CellAnswer, CellBox, GridEntry,
    PointInPolygonTest, RectState,
};
use osm_tasks::model::grid_builder::Measured;

fn square() -> (CellBox, Vec<(i16, i16)>) {
    let b = CellBox::new(0, 10, 0, 10);
    assert!(b.is_valid());
    (b, vec![(0, 0), (10, 0), (10, 10), (0, 10), (0, 0)])
}

#[test]
fn box_of_cells_round_a_ring() {
    let b = CellBox::new(-3, 7, 40, 41);
    assert_eq!((b.x, b.y, b.x_size, b.y_size), (-3, 40, 11, 2));
    assert!(b.is_valid());
    assert!(!CellBox { x: -181, y: 0, x_size: 2, y_size: 1 }.is_valid());
    assert!(!CellBox { x: 0, y: 0, x_size: 0, y_size: 1 }.is_valid());
    assert!(!CellBox { x: 170, y: 80, x_size: 11, y_size: 10 }.is_valid());
    assert!(CellBox { x: 170, y: 79, x_size: 11, y_size: 10 }.is_valid());
    assert!(!CellBox { x: 0, y: 85, x_size: 1, y_size: 6 }.is_valid());
}

#[test]
fn border_cells_of_a_square() {
    let (b, ring) = square();
    let rects = mark_cells(&b, &ring);
    assert_eq!(rects.len(), 121);
    for y in 0..11usize {
        for x in 0..11usize {
            let on_border = y == 0 || y == 10 || x == 0 || x == 10;
            let expected = if on_border { RectState::ContainsPoints } else { RectState::Initial };
            assert_eq!(rects[x + y * 11], expected, "cell {} {}", x, y);
        }
    }
}

#[test]
fn border_cells_of_a_small_ring() {
    let b = CellBox::new(5, 7, 5, 6);
    let ring = vec![(5, 5), (6, 5), (7, 6), (6, 6), (5, 5)];
    let rects = mark_cells(&b, &ring);
    let marked: Vec<usize> = (0..rects.len()).filter(|i| rects[*i] == RectState::ContainsPoints).collect();
    assert_eq!(marked, vec![0, 1, 2, 3, 4, 5]);
}

#[test]
fn vertex_on_the_date_line_counts_for_the_column_before() {
    let b = CellBox::new(178, 180, -80, -80);
    let rects = mark_cells(&b, &vec![(180, -80), (178, -80), (180, -80)]);
    assert_eq!(rects, vec![RectState::ContainsPoints, RectState::ContainsPoints, RectState::Initial]);
}

#[test]
fn flood_fill_gathers_what_hangs_together() {
    let i = RectState::Initial;
    let c = RectState::ContainsPoints;
    let mut rects = vec![i, i, c, i, c, c, c, i, i, i, c, i];
    let region = mark_coherent_rects(&mut rects, 0, 0, 4, 3);
    let mut sorted = region.clone();
    sorted.sort();
    sorted.dedup();
    assert_eq!(region[0], 0);
    assert_eq!(sorted, vec![0, 1]);
    assert_eq!(rects[1], RectState::Processed);
    let second = mark_coherent_rects(&mut rects, 3, 0, 4, 3);
    let mut sorted = second.clone();
    sorted.sort();
    sorted.dedup();
    assert_eq!(sorted, vec![3, 7, 11]);
    assert_eq!(mark_coherent_rects(&mut rects, 2, 0, 4, 3), Vec::<usize>::new());
    assert_eq!(rects[2], c);
    assert_eq!(rects[8], i);
}

#[test]
fn regions_of_a_square() {
    let (b, ring) = square();
    let sorted = ring_regions(&b, &ring);
    assert_eq!(sorted.rects.len(), 121);
    assert_eq!(sorted.regions.len(), 1);
    let mut cells = sorted.regions[0].clone();
    cells.sort();
    cells.dedup();
    let inside: Vec<usize> = (1..10usize).flat_map(|y| (1..10usize).map(move |x| x + y * 11)).collect();
    assert_eq!(cells, inside);
    assert_eq!(sorted.regions[0][0], 12);
}

#[test]
fn grid_entries_overwrite_as_ruled() {
    let mut grid = vec![GridEntry::Outside; 360 * 180];
    insert_in_grid(&mut grid, GridEntry::Outside, 3, 4);
    assert_eq!(grid[183 + 94 * 360], GridEntry::Outside);
    insert_in_grid(&mut grid, GridEntry::Polygon, 3, 4);
    assert_eq!(grid[183 + 94 * 360], GridEntry::Polygon);
    insert_in_grid(&mut grid, GridEntry::Outside, 3, 4);
    assert_eq!(grid[183 + 94 * 360], GridEntry::Polygon);
    insert_in_grid(&mut grid, GridEntry::Border, 3, 4);
    assert_eq!(grid[183 + 94 * 360], GridEntry::Border);
    insert_in_grid(&mut grid, GridEntry::Polygon, 3, 4);
    assert_eq!(grid[183 + 94 * 360], GridEntry::Border);
    insert_in_grid(&mut grid, GridEntry::Border, -180, -90);
    assert_eq!(grid[0], GridEntry::Border);
    assert_eq!(grid.iter().filter(|e| **e != GridEntry::Outside).count(), 2);
}

#[test]
fn ring_written_into_the_grid() {
    let (b, ring) = square();
    let sorted = ring_regions(&b, &ring);
    let mut grid = vec![GridEntry::Outside; 360 * 180];
    apply_ring(&mut grid, &b, &sorted, &vec![true]);
    let at = |x: i32, y: i32| grid[(x + 180) as usize + (y + 90) as usize * 360];
    assert_eq!(at(5, 5), GridEntry::Polygon);
    assert_eq!(at(0, 0), GridEntry::Border);
    assert_eq!(at(5, 10), GridEntry::Border);
    assert_eq!(at(-1, 5), GridEntry::Outside);
    assert_eq!(at(11, 5), GridEntry::Outside);
    assert_eq!(at(10, 5), GridEntry::Border);
    assert_eq!(at(0, 5), GridEntry::Border);
    assert_eq!(at(9, 9), GridEntry::Polygon);
    assert_eq!(grid.iter().filter(|e| **e == GridEntry::Polygon).count(), 81);
    assert_eq!(grid.iter().filter(|e| **e == GridEntry::Border).count(), 40);
}

#[test]
fn index_answers_from_the_grid_and_the_tree() {
    let (b, ring) = square();
    let far = CellBox::new(-60, -50, -30, -20);
    let far_ring = vec![(-60, -30), (-50, -25), (-55, -20), (-60, -30)];
    let mut index = PointInPolygonTest::new(vec![b, far]);
    assert_eq!(index.bounding_boxes().len(), 2);
    assert!(matches!(index.check_grid(5, 5), GridEntry::Border));
    match index.check_intersection(5, 5) {
        CellAnswer::Candidates(list) => assert_eq!(list, vec![0]),
        _ => panic!("no grid is built yet"),
    }
    let mut both = index.check_intersecting_bounding_boxes(-55, -25);
    both.sort();
    assert_eq!(both, vec![1]);
    assert_eq!(index.check_intersecting_bounding_boxes(100, 50), Vec::<usize>::new());
    assert_eq!(index.check_intersecting_bounding_boxes(10, 10), vec![0]);
    assert_eq!(index.check_intersecting_bounding_boxes(11, 10), Vec::<usize>::new());

    let sorted = index.collect_regions(&vec![ring, far_ring]);
    assert_eq!(sorted.len(), 2);
    let on_land: Vec<Vec<bool>> = sorted.iter().map(|r| vec![false; r.regions.len()]).collect();
    let mut on_land = on_land;
    on_land[0][0] = true;
    index.build_grid(&sorted, &on_land);
    assert!(matches!(index.check_intersection(5, 5), CellAnswer::Land));
    assert!(matches!(index.check_intersection(-1, 5), CellAnswer::Water));
    assert!(matches!(index.check_intersection(-61, -28), CellAnswer::Water));
    match index.check_intersection(-57, -28) {
        CellAnswer::Candidates(list) => assert_eq!(list, vec![1]),
        _ => panic!("the cell lies in the span of an edge"),
    }
    match index.check_intersection(10, 5) {
        CellAnswer::Candidates(list) => assert_eq!(list, vec![0]),
        _ => panic!("an edge runs through the cell"),
    }
    match index.check_intersection(5, 10) {
        CellAnswer::Candidates(list) => assert_eq!(list, vec![0]),
        _ => panic!("a border runs through the cell"),
    }
    match index.check_intersection(-50, -25) {
        CellAnswer::Candidates(list) => assert_eq!(list, vec![1]),
        _ => panic!("a border runs through the cell"),
    }
    assert_eq!(index.check_grid(5, 5), GridEntry::Polygon);
    assert_eq!(index.check_grid(0, 0), GridEntry::Border);
}

#[test]
fn overlapping_boxes_are_all_found() {
    let boxes = vec![
        CellBox::new(0, 10, 0, 10),
        CellBox::new(5, 15, 5, 15),
        CellBox::new(-180, 179, -90, 89),
        CellBox::new(10, 10, 10, 10),
    ];
    let index = PointInPolygonTest::new(boxes);
    let mut found = index.check_intersecting_bounding_boxes(10, 10);
    found.sort();
    assert_eq!(found, vec![0, 1, 2, 3]);
    let mut found = index.check_intersecting_bounding_boxes(4, 4);
    found.sort();
    assert_eq!(found, vec![0, 2]);
    let mut found = index.check_intersecting_bounding_boxes(-180, -90);
    found.sort();
    assert_eq!(found, vec![2]);
}

fn measured(meters: u32) -> Measured {
    Measured { meters, rank: (meters as f64).to_bits() }
}

fn node(id: u32, meters: u32) -> Option<NodeWithId> {
    Some(NodeWithId { id, distance: measured(meters) })
}

#[test]
fn nearer_of_two_nodes() {
    assert!(NodeWithId::min(None, None).is_none());
    assert_eq!(NodeWithId::min(node(1, 5), None).unwrap().id, 1);
    assert_eq!(NodeWithId::min(None, node(2, 5)).unwrap().id, 2);
    assert_eq!(NodeWithId::min(node(1, 5), node(2, 4)).unwrap().id, 2);
    assert_eq!(NodeWithId::min(node(1, 4), node(2, 5)).unwrap().id, 1);
    assert_eq!(NodeWithId::min(node(1, 5), node(2, 5)).unwrap().id, 1);
}

#[test]
fn nearest_node_of_a_cell() {
    assert!(find_nearest_neighbor_in_cell(&vec![]).is_none());
    let nodes: Vec<NodeWithId> = vec![node(7, 30), node(8, 10), node(9, 10), node(4, 20)].into_iter().flatten().collect();
    assert_eq!(find_nearest_neighbor_in_cell(&nodes).unwrap().id, 8);
}

#[test]
fn search_goes_on_until_no_ring_can_hold_a_nearer_node() {
    let midpoints = vec![measured(100), measured(60), measured(90)];
    assert!(matches!(decide(node(1, 60), None, &midpoints), Outcome::Found(1)));
    assert!(matches!(decide(node(1, 61), node(2, 59), &midpoints), Outcome::Found(2)));
    match decide(node(1, 61), node(2, 70), &midpoints) {
        Outcome::Further(Some(best)) => assert_eq!(best.id, 1),
        _ => panic!("the nearest midpoint is nearer than the node"),
    }
    assert!(matches!(decide(None, None, &midpoints), Outcome::Further(None)));
    assert!(matches!(decide(node(3, 0), None, &vec![]), Outcome::Found(3)));
    assert!(matches!(decide(node(3, 1), None, &vec![]), Outcome::Further(Some(_))));
}

#[test]
fn buckets_hold_the_nodes_of_their_cells() {
    let buckets = NearestNeighbor::new(&vec![5, 9999, 5, 0]);
    assert_eq!(buckets.nodes_in_cell(5), &vec![0, 2]);
    assert_eq!(buckets.nodes_in_cell(9999), &vec![1]);
    assert_eq!(buckets.nodes_in_cell(0), &vec![3]);
    assert!(buckets.nodes_in_cell(1).is_empty());
    assert_eq!(NearestNeighbor::get_index_for_x_y(7, 3), 307);
    assert_eq!(NearestNeighbor::get_x_y_for_index(307), (7, 3));
    assert_eq!(NearestNeighbor::get_x_y_for_index(9999), (99, 99));
}

#[test]
fn ring_of_buckets_round_a_bucket() {
    let cells = NearestNeighbor::cells_for_radius(1, NearestNeighbor::get_index_for_x_y(50, 50));
    assert_eq!(cells, vec![4949, 4950, 4951, 5149, 5150, 5151, 5049, 5051]);
    let cells = NearestNeighbor::cells_for_radius(2, NearestNeighbor::get_index_for_x_y(50, 50));
    assert_eq!(
        cells,
        vec![4848, 4849, 4850, 4851, 4852, 5248, 5249, 5250, 5251, 5252, 4948, 5048, 5148, 4952, 5052, 5152]
    );
    let cells = NearestNeighbor::cells_for_radius(1, NearestNeighbor::get_index_for_x_y(0, 0));
    assert_eq!(cells, vec![199, 100, 101, 99, 1]);
    let cells = NearestNeighbor::cells_for_radius(1, NearestNeighbor::get_index_for_x_y(99, 98));
    assert_eq!(cells, vec![9798, 9799, 9700, 9998, 9999, 9900, 9898, 9800]);
}

#[test]
fn index_answers_the_same_when_asked_again() {
    let (b, ring) = square();
    let mut index = PointInPolygonTest::new(vec![b]);
    let sorted = index.collect_regions(&vec![ring]);
    index.build_grid(&sorted, &vec![vec![true]]);
    for (x, y) in [(5i16, 5i16), (-1, 5), (5, 10), (0, 0), (11, 5), (-180, -90), (179, 89)] {
        let first = index.check_intersection(x, y);
        let second = index.check_intersection(x, y);
        match (first, second) {
            (CellAnswer::Land, CellAnswer::Land) => {}
            (CellAnswer::Water, CellAnswer::Water) => {}
            (CellAnswer::Candidates(a), CellAnswer::Candidates(b)) => {
                let mut a = a;
                let mut b = b;
                a.sort();
                b.sort();
                assert_eq!(a, b);
            }
            _ => panic!("two answers for one cell"),
        }
        assert_eq!(index.check_grid(x, y), index.check_grid(x, y));
    }
}

#[test]
fn regions_of_a_ring_with_two_sides() {
    let b = CellBox::new(0, 4, 0, 2);
    let ring = vec![(2, 0), (2, 1), (2, 2), (2, 0)];
    let sorted = ring_regions(&b, &ring);
    assert_eq!(sorted.rects.len(), 15);
    assert_eq!(sorted.regions.len(), 2);
    let mut west = sorted.regions[0].clone();
    west.sort();
    west.dedup();
    assert_eq!(west, vec![0, 1, 5, 6, 10, 11]);
    let mut east = sorted.regions[1].clone();
    east.sort();
    east.dedup();
    assert_eq!(east, vec![3, 4, 8, 9, 13, 14]);
    assert_eq!(sorted.regions[0][0], 0);
    assert_eq!(sorted.regions[1][0], 3);
    for cell in [2usize, 7, 12] {
        assert_eq!(sorted.rects[cell], RectState::ContainsPoints);
    }
}
