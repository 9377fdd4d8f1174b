use osm_tasks::model::grid_builder::{calc_index_modulo, GridBuilder, LinkDistances, LinkPlan, Measured};
use osm_tasks::model::grid_graph::{Edge, GridGraph, Node};

const EARTH_RADIUS: f64 = 6_378_137_f64;

fn distance(lon1_deg: f64, lat1_deg: f64, lon2_deg: f64, lat2_deg: f64) -> f64 {
    let lat1 = lat1_deg.to_radians();
    let lat2 = lat2_deg.to_radians();
    let lon1 = lon1_deg.to_radians();
    let lon2 = lon2_deg.to_radians();
    let dlat_sin = ((lat2 - lat1) / 2.0).sin();
    let dlon_sin = ((lon2 - lon1) / 2.0).sin();
    let a = dlat_sin.powf(2.0) + lat1.cos() * lat2.cos() * dlon_sin.powf(2.0);
    let c = 2.0 * (a.sqrt()).asin();
    EARTH_RADIUS * c
}

fn measure(places: &[(f64, f64)], a: usize, b: Option<u32>) -> Measured {
    match b {
        Some(b) => {
            let d = distance(places[a].0, places[a].1, places[b as usize].0, places[b as usize].1);
            Measured { meters: d as u32, rank: d.to_bits() }
        }
        None => Measured { meters: 0, rank: 0 },
    }
}

fn build(maximum: usize, on_land: &dyn Fn(f64, f64) -> bool) -> GridGraph {
    let pi = std::f64::consts::PI;
    let a: f64 = 4.0 * pi * (1.0 / maximum as f64);
    let d: f64 = a.sqrt();
    let m_theta = (pi / d).round() as i32;
    let d_theta: f64 = pi / (m_theta as f64);
    let d_phi: f64 = a / d_theta;
    let mut builder = GridBuilder::new(maximum);
    let mut places: Vec<(f64, f64)> = Vec::new();
    let mut last_steps = 0usize;
    for m in (0..m_theta).rev() {
        let polar = pi * ((m as f64) + 0.5) / (m_theta as f64);
        let m_phi = (2.0 * pi * (polar).sin() / d_phi).round() as i32;
        let steps = if m_phi > 0 { m_phi as usize } else { 0 };
        let lat = polar * (180.0 / pi) - 90.0;
        assert!(builder.can_begin_band(steps));
        builder.begin_band(steps);
        for n in 0..steps {
            let azimuthal = 2.0 * pi * (n as f64) / (m_phi as f64);
            let lon = azimuthal * (180.0 / pi) - 180.0;
            if on_land(lon, lat) {
                builder.skip_candidate();
                continue;
            }
            let n_float = n as f64;
            let offset_float = n_float + (last_steps as f64) * ((steps as f64 - n_float) / (steps as f64));
            let floor = offset_float.floor() as usize;
            let ceil = offset_float.ceil() as usize;
            match builder.plan_candidate(n, floor, ceil) {
                None => builder.skip_candidate(),
                Some(plan) => {
                    let id = places.len();
                    places.push((lon, lat));
                    let distances = LinkDistances {
                        right_prev: measure(&places, id, plan.right_prev),
                        right: measure(&places, id, plan.right),
                        right_next: measure(&places, id, plan.right_next),
                        left: measure(&places, id, plan.left),
                        left_prev: measure(&places, id, plan.left_prev),
                        west: measure(&places, id, plan.west),
                        band_first: measure(&places, id, plan.band_first),
                        west_to_right: match plan.west {
                            Some(w) => measure(&places, w as usize, plan.right),
                            None => Measured { meters: 0, rank: 0 },
                        },
                    };
                    assert_eq!(builder.place_candidate(n, &plan, &distances), id as u32);
                }
            }
        }
        last_steps = steps;
    }
    let nodes: Vec<Node> = places.iter().map(|p| Node { lat: p.1.to_bits(), lon: p.0.to_bits() }).collect();
    builder.finish(nodes).expect("the graph fits")
}

fn has_reverse(graph: &GridGraph, e: &Edge) -> bool {
    graph.edges[e.target as usize].iter().any(|r| r.target == e.source && r.distance == e.distance)
}

#[test]
fn places_are_counted_round_a_band() {
    assert_eq!(calc_index_modulo(10, 5, 12), 12);
    assert_eq!(calc_index_modulo(10, 5, 15), 10);
    assert_eq!(calc_index_modulo(10, 5, 9), 14);
    assert_eq!(calc_index_modulo(0, 4, -1), 3);
    assert_eq!(calc_index_modulo(0, 4, 4), 0);
    assert_eq!(calc_index_modulo(7, 1, 100), 7);
}

#[test]
fn grid_of_a_thousand_nodes_without_land() {
    let graph = build(1000, &|_, _| false);
    assert!(graph.is_well_formed());
    let n = graph.nodes.len();
    assert!(n >= 970 && n <= 1000, "{} nodes", n);
    for (u, list) in graph.edges.iter().enumerate() {
        for e in list {
            assert_eq!(e.source as usize, u);
            assert_ne!(e.target as usize, u);
            assert!(has_reverse(&graph, e));
        }
    }
    let degrees: Vec<usize> = graph.edges.iter().map(|l| l.len()).collect();
    let mut histogram = vec![0usize; 16];
    for d in degrees.iter() {
        assert!(*d < 15, "a node with {} edges", d);
        histogram[*d] += 1;
    }
    assert_eq!(n, 998);
    assert_eq!(histogram[..5].iter().sum::<usize>(), 0, "every node is joined to five others at least");
    assert_eq!(histogram, vec![0, 0, 0, 0, 0, 3, 8, 29, 741, 178, 26, 12, 1, 0, 0, 0]);
}

#[test]
fn grid_with_land_has_fewer_nodes_and_stays_symmetric() {
    let graph = build(2000, &|lon, lat| lon > 0.0 && lon < 60.0 && lat > -30.0 && lat < 40.0);
    assert!(graph.is_well_formed());
    let n = graph.nodes.len();
    assert!(n < 2000 && n > 1400, "{} nodes", n);
    for list in graph.edges.iter() {
        for e in list {
            assert!(has_reverse(&graph, e));
        }
    }
    assert_eq!(graph.number_edges as usize, graph.edges.iter().map(|l| l.len()).sum::<usize>());
}

#[test]
fn builder_places_no_node_beyond_its_limit() {
    let mut builder = GridBuilder::new(3);
    builder.begin_band(5);
    let nothing = Measured { meters: 0, rank: 0 };
    let distances = LinkDistances {
        right_prev: nothing,
        right: nothing,
        right_next: nothing,
        left: nothing,
        left_prev: nothing,
        west: nothing,
        band_first: nothing,
        west_to_right: nothing,
    };
    for n in 0..5usize {
        match builder.plan_candidate(n, n, n) {
            Some(plan) => {
                assert!(n < 3);
                assert!(!plan.linked);
                builder.place_candidate(n, &plan, &distances);
            }
            None => {
                assert!(n >= 3);
                builder.skip_candidate();
            }
        }
    }
    assert_eq!(builder.number_graph_nodes(), 3);
    assert_eq!(builder.number_virtual_nodes(), 5);
    assert!(builder.finish(vec![Node { lat: 0, lon: 0 }; 2]).is_none());
}

#[test]
fn second_band_is_joined_to_the_first() {
    let mut builder = GridBuilder::new(100);
    let d = |m: u32| Measured { meters: m, rank: m as u64 };
    let distances = LinkDistances {
        right_prev: d(11),
        right: d(12),
        right_next: d(13),
        left: d(14),
        left_prev: d(15),
        west: d(16),
        band_first: d(17),
        west_to_right: d(18),
    };
    builder.begin_band(4);
    for n in 0..4usize {
        let plan = builder.plan_candidate(n, n, n).unwrap();
        assert!(!plan.linked);
        builder.place_candidate(n, &plan, &distances);
    }
    builder.begin_band(4);
    let plan: LinkPlan = builder.plan_candidate(0, 4, 4).unwrap();
    assert!(plan.linked && plan.exact);
    assert_eq!((plan.right_prev, plan.right, plan.right_next), (Some(3), Some(0), Some(1)));
    assert_eq!(plan.west, None);
    assert_eq!(plan.band_first, None);
    assert_eq!(builder.place_candidate(0, &plan, &distances), 4);
    let plan: LinkPlan = builder.plan_candidate(1, 3, 4).unwrap();
    assert!(plan.linked && !plan.exact);
    assert_eq!((plan.right, plan.left, plan.right_next, plan.left_prev), (Some(2), Some(1), Some(3), Some(0)));
    assert_eq!(plan.west, Some(4));
    assert_eq!(builder.place_candidate(1, &plan, &distances), 5);
    builder.skip_candidate();
    builder.skip_candidate();
    let graph = builder.finish(vec![Node { lat: 0, lon: 0 }; 6]).unwrap();
    let targets = |u: usize| graph.edges[u].iter().map(|e| (e.target, e.distance)).collect::<Vec<(u32, u32)>>();
    assert_eq!(targets(4), vec![(3, 11), (0, 12), (1, 13), (5, 16)]);
    assert_eq!(targets(5), vec![(2, 12), (1, 14), (3, 13), (4, 16)]);
    assert_eq!(targets(0), vec![(1, 16), (3, 17), (4, 12)]);
    assert_eq!(targets(1), vec![(0, 16), (2, 16), (4, 13), (5, 14)]);
    assert_eq!(targets(3), vec![(2, 16), (0, 17), (4, 11), (5, 13)]);
    assert_eq!(graph.number_edges, 22);
    assert!(graph.is_well_formed());
}
