use train_dispatch::graph::Graph;
use train_dispatch::model::Edge;

fn edge(name: &str, from: &str, to: &str, time: u32) -> Edge {
    Edge {
        name: name.to_string(),
        from_node: from.to_string(),
        to_node: to.to_string(),
        journey_time: time,
    }
}

fn path(stations: &[&str]) -> Option<Vec<String>> {
    Some(stations.iter().map(|s| s.to_string()).collect())
}

fn square() -> Vec<Edge> {
    vec![
        edge("E1", "A", "B", 10),
        edge("E2", "B", "C", 20),
        edge("E3", "C", "A", 30),
        edge("E4", "A", "D", 40),
    ]
}

/// The cost of a route, summed edge by edge.
fn cost_of(g: &Graph, route: &[String]) -> u64 {
    let mut sum: u64 = 0;
    for pair in route.windows(2) {
        sum += g.edge_cost(&pair[0], &pair[1]).expect("a route follows edges") as u64;
    }
    sum
}

/// The least cost of a route from `at` to `to` that visits no station twice,
/// found by trying them all.
fn cheapest_by_search(
    g: &Graph,
    stations: &[&str],
    at: &str,
    to: &str,
    seen: &mut Vec<String>,
) -> Option<u64> {
    if at == to {
        return Some(0);
    }
    seen.push(at.to_string());
    let mut best: Option<u64> = None;
    for next in stations {
        if seen.iter().any(|s| s == next) {
            continue;
        }
        if let Some(c) = g.edge_cost(at, next) {
            if let Some(rest) = cheapest_by_search(g, stations, next, to, seen) {
                let total = c as u64 + rest;
                if best.map_or(true, |b| total < b) {
                    best = Some(total);
                }
            }
        }
    }
    seen.pop();
    best
}

fn check_against_search(edges: &Vec<Edge>, stations: &[&str]) {
    let g = Graph::build(edges);
    for from in stations {
        for to in stations {
            let found = g.shortest_path(from, to);
            let least = cheapest_by_search(&g, stations, from, to, &mut Vec::new());
            match (found, least) {
                (Some(route), Some(least)) => {
                    assert_eq!(route.first().map(|s| s.as_str()), Some(*from));
                    assert_eq!(route.last().map(|s| s.as_str()), Some(*to));
                    assert_eq!(cost_of(&g, &route), least, "from {} to {}", from, to);
                },
                (None, None) => {},
                (found, least) => panic!("from {} to {}: {:?} against {:?}", from, to, found, least),
            }
        }
    }
}

#[test]
fn edge_cost_is_symmetric() {
    let g = Graph::build(&square());
    assert_eq!(g.edge_cost("A", "B"), Some(10));
    assert_eq!(g.edge_cost("B", "A"), Some(10));
    assert_eq!(g.edge_cost("C", "A"), Some(30));
    assert_eq!(g.edge_cost("A", "C"), Some(30));
    assert_eq!(g.edge_cost("D", "A"), Some(40));
}

#[test]
fn edge_cost_of_unjoined_stations_is_none() {
    let g = Graph::build(&square());
    assert_eq!(g.edge_cost("B", "D"), None);
    assert_eq!(g.edge_cost("A", "A"), None);
    assert_eq!(g.edge_cost("A", "Z"), None);
    assert_eq!(g.edge_cost("Z", "A"), None);
}

#[test]
fn station_names_are_case_sensitive() {
    let g = Graph::build(&square());
    assert_eq!(g.edge_cost("a", "b"), None);
    assert_eq!(g.shortest_path("a", "B"), None);
}

#[test]
fn later_edge_between_the_same_stations_overwrites() {
    let g = Graph::build(&vec![edge("E1", "A", "B", 10), edge("E2", "B", "A", 7)]);
    assert_eq!(g.edge_cost("A", "B"), Some(7));
    assert_eq!(g.edge_cost("B", "A"), Some(7));
}

#[test]
fn empty_network_has_no_edges() {
    let g = Graph::build(&vec![]);
    assert_eq!(g.edge_cost("A", "B"), None);
    assert_eq!(g.shortest_path("A", "B"), None);
}

#[test]
fn shortest_path_along_a_direct_edge() {
    let g = Graph::build(&square());
    assert_eq!(g.shortest_path("A", "B"), path(&["A", "B"]));
    assert_eq!(g.shortest_path("D", "A"), path(&["D", "A"]));
}

#[test]
fn shortest_path_prefers_two_cheap_edges_over_one_dear_one() {
    let g = Graph::build(&vec![
        edge("E1", "A", "B", 10),
        edge("E2", "B", "C", 10),
        edge("E3", "C", "A", 30),
    ]);
    assert_eq!(g.shortest_path("A", "C"), path(&["A", "B", "C"]));
    assert_eq!(g.shortest_path("C", "A"), path(&["C", "B", "A"]));
}

#[test]
fn shortest_path_prefers_one_cheap_edge_over_two() {
    let g = Graph::build(&vec![
        edge("E1", "A", "B", 10),
        edge("E2", "B", "C", 10),
        edge("E3", "C", "A", 15),
    ]);
    assert_eq!(g.shortest_path("A", "C"), path(&["A", "C"]));
}

#[test]
fn shortest_path_over_several_hops() {
    let g = Graph::build(&square());
    let route = g.shortest_path("D", "C").unwrap();
    assert_eq!(route.first().unwrap(), "D");
    assert_eq!(route.last().unwrap(), "C");
    assert_eq!(cost_of(&g, &route), 70);
    assert_eq!(g.shortest_path("D", "B"), path(&["D", "A", "B"]));
}

#[test]
fn shortest_path_to_the_same_station_is_that_station() {
    let g = Graph::build(&square());
    assert_eq!(g.shortest_path("A", "A"), path(&["A"]));
    assert_eq!(g.shortest_path("Z", "Z"), path(&["Z"]));
}

#[test]
fn shortest_path_to_an_unreachable_station_is_none() {
    let g = Graph::build(&vec![edge("E1", "A", "B", 10), edge("E2", "C", "D", 10)]);
    assert_eq!(g.shortest_path("A", "C"), None);
    assert_eq!(g.shortest_path("D", "B"), None);
    assert_eq!(g.shortest_path("A", "Z"), None);
    assert_eq!(g.shortest_path("Z", "A"), None);
}

#[test]
fn shortest_path_cost_is_the_least_on_the_square() {
    check_against_search(&square(), &["A", "B", "C", "D", "Z"]);
}

#[test]
fn shortest_path_cost_is_the_least_on_a_dense_graph() {
    let stations = ["S0", "S1", "S2", "S3", "S4", "S5"];
    let mut edges = Vec::new();
    let mut seed: u32 = 12345;
    for i in 0..stations.len() {
        for j in (i + 1)..stations.len() {
            seed = seed.wrapping_mul(1103515245).wrapping_add(12345);
            let cost = (seed >> 16) % 50 + 1;
            if (seed >> 8) % 4 != 0 {
                edges.push(edge("E", stations[i], stations[j], cost));
            }
        }
    }
    check_against_search(&edges, &stations);
}

#[test]
fn shortest_path_cost_is_the_least_with_free_edges() {
    let edges = vec![
        edge("E1", "A", "B", 0),
        edge("E2", "B", "C", 0),
        edge("E3", "A", "C", 1),
        edge("E4", "C", "D", 5),
        edge("E5", "B", "D", 6),
    ];
    check_against_search(&edges, &["A", "B", "C", "D"]);
}

#[test]
fn shortest_path_cost_is_the_least_on_two_islands() {
    let edges = vec![
        edge("E1", "A", "B", 3),
        edge("E2", "B", "C", 4),
        edge("E3", "A", "C", 8),
        edge("E4", "X", "Y", 2),
    ];
    check_against_search(&edges, &["A", "B", "C", "X", "Y"]);
}

#[test]
fn shortest_path_with_the_largest_costs() {
    let g = Graph::build(&vec![
        edge("E1", "A", "B", u32::MAX),
        edge("E2", "B", "C", u32::MAX),
        edge("E3", "C", "D", u32::MAX),
    ]);
    assert_eq!(g.shortest_path("A", "D"), path(&["A", "B", "C", "D"]));
}
