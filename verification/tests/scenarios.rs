use train_dispatch::dispatch::{room_left, simulate, Dispatcher};
use train_dispatch::model::{Edge, Move, Package, Train};

fn edge(name: &str, from: &str, to: &str, time: u32) -> Edge {
    Edge {
        name: name.to_string(),
        from_node: from.to_string(),
        to_node: to.to_string(),
        journey_time: time,
    }
}

fn train(name: &str, capacity: u32, at: &str) -> Train {
    Train { name: name.to_string(), capacity, current_node: at.to_string() }
}

fn package(name: &str, weight: u32, from: &str, to: &str) -> Package {
    Package {
        name: name.to_string(),
        weight,
        start_node: from.to_string(),
        destination_node: to.to_string(),
    }
}

fn names(packages: &Vec<Package>) -> Vec<String> {
    packages.iter().map(|p| p.name.clone()).collect()
}

fn line(m: &Move) -> String {
    format!(
        "time={}, train={}, from={}, pickup={:?}, to={}, dropoff={:?}",
        m.time,
        m.train,
        m.start_node,
        names(&m.pickup),
        m.end_node,
        names(&m.dropoff)
    )
}

#[test]
fn train_with_nothing_placed_in_the_network_idles() {
    // K1 (weight 5, A to B) exists on paper but was never placed in the
    // network: nothing waits anywhere, so the train at B has no target.
    let mut d = Dispatcher::new(&vec![edge("E1", "A", "B", 10)], vec![train("Q1", 10, "B")], vec![]);
    assert!(d.ledger.packages_at("B").is_empty());
    assert!(!d.tick_train(0));
    assert!(d.log.is_empty());
    let log = simulate(&vec![edge("E1", "A", "B", 10)], vec![train("Q1", 10, "B")], vec![], 10);
    assert!(log.is_empty());
}

#[test]
fn train_fetches_a_package_that_waits_at_the_other_end_of_an_edge() {
    let log = simulate(
        &vec![edge("E1", "A", "B", 10)],
        vec![train("Q1", 10, "B")],
        vec![package("K1", 5, "A", "B")],
        10,
    );
    assert_eq!(
        lines(&log),
        vec![
            "time=10, train=Q1, from=B, pickup=[], to=A, dropoff=[]",
            "time=20, train=Q1, from=A, pickup=[\"K1\"], to=B, dropoff=[\"K1\"]",
        ]
    );
}

#[test]
fn train_that_cannot_reach_the_package_idles_until_the_ceiling() {
    let mut d = Dispatcher::new(
        &vec![edge("E1", "A", "B", 10), edge("E2", "C", "D", 10)],
        vec![train("Q1", 10, "C")],
        vec![package("K1", 5, "A", "B")],
    );
    let ticks = d.run(7);
    assert_eq!(ticks, 7);
    assert!(d.log.is_empty());
    assert!(!d.ledger.is_empty());
    assert_eq!(d.clock, 0);
}

#[test]
fn single_delivery_is_one_move() {
    let mut d = Dispatcher::new(
        &vec![edge("E1", "A", "B", 10)],
        vec![train("Q1", 10, "A")],
        vec![package("K1", 5, "A", "B")],
    );
    let ticks = d.run(10);
    assert_eq!(ticks, 1);
    assert_eq!(d.log.len(), 1);
    assert_eq!(line(&d.log[0]), "time=10, train=Q1, from=A, pickup=[\"K1\"], to=B, dropoff=[\"K1\"]");
    assert!(d.ledger.is_empty());
    assert_eq!(d.clock, 10);
    assert_eq!(d.trains[0].current_node, "B");
}

#[test]
fn package_that_does_not_fit_stays_in_the_network() {
    let mut d = Dispatcher::new(
        &vec![edge("E1", "A", "B", 10)],
        vec![train("Q1", 5, "A")],
        vec![package("K1", 5, "A", "B"), package("K2", 6, "A", "B")],
    );
    assert!(d.tick_train(0));
    assert_eq!(names(&d.log[0].pickup), vec!["K1"]);
    assert_eq!(names(d.ledger.in_network()), vec!["K2"]);
}

#[test]
fn first_package_that_does_not_fit_ends_the_load() {
    let mut d = Dispatcher::new(
        &vec![edge("E1", "A", "B", 10)],
        vec![train("Q1", 5, "A")],
        vec![package("K1", 6, "A", "B"), package("K2", 5, "A", "B")],
    );
    let picked = d.load(0);
    assert!(picked.is_empty());
    assert_eq!(names(d.ledger.in_network()), vec!["K1", "K2"]);
}

#[test]
fn multi_hop_fetches_then_delivers() {
    let mut d = Dispatcher::new(
        &vec![edge("E1", "A", "B", 10), edge("E2", "B", "C", 20), edge("E3", "C", "A", 30)],
        vec![train("Q1", 10, "B")],
        vec![package("K1", 5, "A", "C")],
    );
    d.run(10);
    // A-C direct and A-B-C both cost 30: either is a cheapest route.
    assert_eq!(line(&d.log[0]), "time=10, train=Q1, from=B, pickup=[], to=A, dropoff=[]");
    assert_eq!(names(&d.log[1].pickup), vec!["K1"]);
    assert_eq!(d.log[1].start_node, "A");
    let last = &d.log[d.log.len() - 1];
    assert_eq!(last.end_node, "C");
    assert_eq!(names(&last.dropoff), vec!["K1"]);
    assert_eq!(last.time, 40);
    let mut clock: u64 = 0;
    for m in &d.log {
        let cost = d.graph.edge_cost(&m.start_node, &m.end_node).unwrap();
        clock += cost as u64;
        assert_eq!(m.time, clock);
    }
    assert_eq!(d.clock, 40);
    assert!(d.ledger.is_empty());
}

fn seed_edges() -> Vec<Edge> {
    vec![
        edge("E1", "A", "B", 10),
        edge("E2", "B", "C", 20),
        edge("E3", "C", "A", 30),
        edge("E4", "A", "D", 40),
    ]
}

fn seed_packages() -> Vec<Package> {
    vec![package("K1", 5, "A", "C"), package("K2", 5, "C", "A"), package("K3", 5, "A", "D")]
}

fn lines(log: &Vec<Move>) -> Vec<String> {
    log.iter().map(line).collect()
}

/// How many packages the ledger of `d` holds, waiting or aboard.
fn held(d: &Dispatcher) -> usize {
    let aboard: usize =
        d.trains.iter().map(|t| d.ledger.in_train(&t.name).map_or(0, |v| v.len())).sum();
    d.ledger.in_network().len() + aboard
}

fn weight_aboard(d: &Dispatcher, train: &str) -> u64 {
    d.ledger.in_train(train).map_or(0, |v| v.iter().map(|p| p.weight as u64).sum())
}

#[test]
fn seed_run_delivers_everything() {
    let mut d = Dispatcher::new(&seed_edges(), vec![train("Q1", 10, "B")], seed_packages());
    let ticks = d.run(10);
    assert!(ticks < 10);
    assert!(d.ledger.is_empty());
    // A to C costs 30 either way, and so does the first part of C to D:
    // the legs may differ, the clock may not.
    assert_eq!(d.clock, 110);
    assert_eq!(d.log.last().unwrap().time, 110);
    assert_eq!(line(&d.log[0]), "time=10, train=Q1, from=B, pickup=[], to=A, dropoff=[]");
    assert_eq!(names(&d.log[1].pickup), vec!["K1", "K3"]);
    let mut delivered: Vec<String> = d.log.iter().flat_map(|m| names(&m.dropoff)).collect();
    delivered.sort();
    assert_eq!(delivered, vec!["K1", "K2", "K3"]);
}

#[test]
fn run_without_ties_gives_the_exact_log() {
    let edges = vec![
        edge("E1", "A", "B", 10),
        edge("E2", "B", "C", 20),
        edge("E3", "C", "A", 25),
        edge("E4", "A", "D", 40),
    ];
    let log = simulate(&edges, vec![train("Q1", 10, "B")], seed_packages(), 10);
    assert_eq!(
        lines(&log),
        vec![
            "time=10, train=Q1, from=B, pickup=[], to=A, dropoff=[]",
            "time=35, train=Q1, from=A, pickup=[\"K1\", \"K3\"], to=C, dropoff=[\"K1\"]",
            "time=60, train=Q1, from=C, pickup=[\"K2\"], to=A, dropoff=[\"K2\"]",
            "time=100, train=Q1, from=A, pickup=[], to=D, dropoff=[\"K3\"]",
        ]
    );
}

#[test]
fn zero_ticks_do_nothing() {
    let log = simulate(&seed_edges(), vec![train("Q1", 10, "A")], seed_packages(), 0);
    assert!(log.is_empty());
}

#[test]
fn tick_ceiling_stops_the_run() {
    let mut d = Dispatcher::new(&seed_edges(), vec![train("Q1", 10, "B")], seed_packages());
    assert_eq!(d.run(2), 2);
    assert_eq!(d.log.len(), 2);
    assert!(!d.ledger.is_empty());
    // the run can be taken up again where it stopped
    let ticks = d.run(10);
    assert!(ticks < 10);
    assert!(d.ledger.is_empty());
    assert_eq!(d.clock, 110);
}

#[test]
fn no_trains_means_no_moves() {
    let mut d = Dispatcher::new(&seed_edges(), vec![], seed_packages());
    assert_eq!(d.run(5), 5);
    assert!(d.log.is_empty());
    assert_eq!(d.ledger.in_network().len(), 3);
}

#[test]
fn load_counts_what_is_already_aboard() {
    let mut d = Dispatcher::new(
        &vec![edge("E1", "A", "B", 10), edge("E2", "B", "C", 10)],
        vec![train("Q1", 10, "A")],
        vec![package("K1", 7, "A", "C"), package("K2", 4, "B", "C"), package("K3", 3, "B", "C")],
    );
    assert!(d.tick_train(0));
    assert_eq!(names(&d.log[0].pickup), vec!["K1"]);
    assert_eq!(d.trains[0].current_node, "B");
    // 7 aboard, 3 to spare: K2 (4) does not fit and ends the load, though K3 (3) would.
    assert!(d.tick_train(0));
    assert!(d.log[1].pickup.is_empty());
    assert_eq!(names(d.ledger.in_network()), vec!["K2", "K3"]);
    assert_eq!(weight_aboard(&d, "Q1"), 0);
    assert_eq!(names(&d.log[1].dropoff), vec!["K1"]);
}

#[test]
fn load_takes_packages_while_they_fit() {
    let mut d = Dispatcher::new(
        &vec![edge("E1", "A", "B", 10)],
        vec![train("Q1", 10, "A")],
        vec![
            package("K1", 4, "A", "B"),
            package("K2", 0, "A", "B"),
            package("K3", 6, "A", "B"),
            package("K4", 1, "A", "B"),
            package("K5", 0, "A", "B"),
        ],
    );
    let picked = d.load(0);
    assert_eq!(names(&picked), vec!["K1", "K2", "K3"]);
    assert_eq!(names(d.ledger.in_network()), vec!["K4", "K5"]);
    assert_eq!(names(d.ledger.in_train("Q1").unwrap()), vec!["K1", "K2", "K3"]);
    assert!(d.log.is_empty());
    assert_eq!(d.trains[0].current_node, "A");
}

#[test]
fn room_left_is_capacity_less_weight_aboard() {
    let aboard = vec![package("K1", 4, "A", "B"), package("K2", 3, "A", "B")];
    assert_eq!(room_left(10, &aboard), 3);
    assert_eq!(room_left(7, &aboard), 0);
    assert_eq!(room_left(5, &aboard), 0);
    assert_eq!(room_left(10, &vec![]), 10);
    let heavy = vec![package("K1", u32::MAX, "A", "B"), package("K2", u32::MAX, "A", "B")];
    assert_eq!(room_left(u32::MAX, &heavy), 0);
}

#[test]
fn target_is_the_destination_of_the_first_package_aboard() {
    let mut d = Dispatcher::new(
        &vec![edge("E1", "A", "B", 10), edge("E2", "A", "C", 10)],
        vec![train("Q1", 10, "A")],
        vec![package("K1", 1, "A", "C"), package("K2", 1, "A", "B"), package("K3", 1, "B", "A")],
    );
    assert_eq!(d.next_target("Q1"), Some("A".to_string()));
    d.load(0);
    assert_eq!(d.next_target("Q1"), Some("C".to_string()));
    assert_eq!(d.next_target("Q2"), Some("B".to_string()));
    assert!(d.tick_train(0));
    assert_eq!(d.trains[0].current_node, "C");
    assert_eq!(names(&d.log[0].dropoff), vec!["K1"]);
    assert_eq!(d.next_target("Q1"), Some("B".to_string()));
}

#[test]
fn train_without_load_and_without_waiting_packages_has_no_target() {
    let d = Dispatcher::new(&seed_edges(), vec![train("Q1", 10, "A")], vec![]);
    assert_eq!(d.next_target("Q1"), None);
}

#[test]
fn later_packages_ride_along_and_are_dropped_on_the_way() {
    // K1 boards first and sets the course for C; K2 is bound for B, which
    // lies on the way, and is dropped there.
    let mut d = Dispatcher::new(
        &vec![edge("E1", "A", "B", 10), edge("E2", "B", "C", 10)],
        vec![train("Q1", 10, "A")],
        vec![package("K1", 1, "A", "C"), package("K2", 1, "A", "B")],
    );
    d.run(10);
    assert_eq!(
        lines(&d.log),
        vec![
            "time=10, train=Q1, from=A, pickup=[\"K1\", \"K2\"], to=B, dropoff=[\"K2\"]",
            "time=20, train=Q1, from=B, pickup=[], to=C, dropoff=[\"K1\"]",
        ]
    );
}

#[test]
fn first_train_in_order_claims_the_package() {
    let mut d = Dispatcher::new(
        &vec![edge("E1", "A", "B", 10)],
        vec![train("Q1", 10, "A"), train("Q2", 10, "A")],
        vec![package("K1", 5, "A", "B")],
    );
    d.tick();
    assert_eq!(lines(&d.log), vec!["time=10, train=Q1, from=A, pickup=[\"K1\"], to=B, dropoff=[\"K1\"]"]);
    assert_eq!(d.trains[1].current_node, "A");
    assert!(d.ledger.in_train("Q2").is_none());
}

#[test]
fn clock_is_shared_by_all_trains() {
    let mut d = Dispatcher::new(
        &vec![edge("E1", "A", "B", 10), edge("E2", "C", "D", 7)],
        vec![train("Q1", 10, "A"), train("Q2", 10, "C")],
        vec![package("K1", 5, "A", "B"), package("K2", 5, "C", "D")],
    );
    d.tick();
    // Q2 carries nothing at first and heads for K1 at A, which it cannot reach;
    // at its turn K1 is gone, K2 waits where it stands.
    assert_eq!(
        lines(&d.log),
        vec![
            "time=10, train=Q1, from=A, pickup=[\"K1\"], to=B, dropoff=[\"K1\"]",
            "time=17, train=Q2, from=C, pickup=[\"K2\"], to=D, dropoff=[\"K2\"]",
        ]
    );
    assert_eq!(d.clock, 17);
    assert!(d.ledger.is_empty());
}

#[test]
fn package_bound_for_where_it_waits_is_loaded_and_stays_aboard() {
    let mut d = Dispatcher::new(
        &vec![edge("E1", "A", "B", 10)],
        vec![train("Q1", 10, "A")],
        vec![package("K1", 5, "A", "A")],
    );
    assert!(!d.tick_train(0));
    assert!(d.log.is_empty());
    assert!(d.ledger.in_network().is_empty());
    assert_eq!(names(d.ledger.in_train("Q1").unwrap()), vec!["K1"]);
    assert_eq!(d.run(3), 3);
    assert!(d.log.is_empty());
}

#[test]
fn package_too_heavy_for_the_train_is_never_delivered() {
    let mut d = Dispatcher::new(
        &vec![edge("E1", "A", "B", 10)],
        vec![train("Q1", 5, "A")],
        vec![package("K1", 6, "A", "B")],
    );
    assert_eq!(d.run(10), 10);
    assert!(d.log.is_empty());
    assert_eq!(names(d.ledger.in_network()), vec!["K1"]);
}

/// A fleet of three on a ring with a spur, with more packages than fit at once.
fn busy_fleet() -> Dispatcher {
    let edges = vec![
        edge("E1", "A", "B", 3),
        edge("E2", "B", "C", 4),
        edge("E3", "C", "D", 5),
        edge("E4", "D", "A", 6),
        edge("E5", "C", "E", 2),
    ];
    let trains = vec![train("Q1", 10, "A"), train("Q2", 6, "C"), train("Q3", 4, "E")];
    let mut packages = Vec::new();
    let stations = ["A", "B", "C", "D", "E"];
    let mut seed: u32 = 99;
    for k in 0..14 {
        seed = seed.wrapping_mul(1103515245).wrapping_add(12345);
        let from = ((seed >> 16) % 5) as usize;
        let to = (from + 1 + ((seed >> 8) % 4) as usize) % 5;
        let weight = (seed >> 4) % 4 + 1;
        packages.push(package(&format!("K{}", k), weight, stations[from], stations[to]));
    }
    Dispatcher::new(&edges, trains, packages)
}

#[test]
fn packages_are_conserved_turn_by_turn() {
    let mut d = busy_fleet();
    let at_start = held(&d);
    assert_eq!(at_start, 14);
    let mut delivered = 0;
    for _tick in 0..40 {
        for i in 0..d.trains.len() {
            let before = held(&d);
            let legs = d.log.len();
            let moved = d.tick_train(i);
            assert_eq!(d.log.len(), legs + if moved { 1 } else { 0 });
            let dropped = if moved { d.log.last().unwrap().dropoff.len() } else { 0 };
            assert_eq!(held(&d) + dropped, before);
            delivered += dropped;
            assert_eq!(held(&d) + delivered, at_start);
            if moved {
                let leg = d.log.last().unwrap();
                assert!(leg.dropoff.iter().all(|p| p.destination_node == leg.end_node));
                assert_eq!(leg.end_node, d.trains[i].current_node);
            }
        }
    }
    assert!(d.ledger.is_empty());
    assert_eq!(delivered, 14);
}

#[test]
fn no_train_is_ever_overloaded() {
    let mut d = busy_fleet();
    for _tick in 0..40 {
        for i in 0..d.trains.len() {
            d.load(i);
            for t in &d.trains {
                assert!(weight_aboard(&d, &t.name) <= t.capacity as u64);
            }
            d.tick_train(i);
            for t in &d.trains {
                assert!(weight_aboard(&d, &t.name) <= t.capacity as u64);
            }
        }
    }
    assert!(d.ledger.is_empty());
}

#[test]
fn no_package_is_picked_up_twice() {
    let mut d = busy_fleet();
    for _tick in 0..40 {
        for i in 0..d.trains.len() {
            d.tick_train(i);
            let mut aboard: Vec<String> = d
                .trains
                .iter()
                .flat_map(|t| d.ledger.in_train(&t.name).map_or(Vec::new(), |v| names(v)))
                .collect();
            let riding = aboard.len();
            aboard.sort();
            aboard.dedup();
            assert_eq!(aboard.len(), riding);
        }
    }
    let mut picked: Vec<String> = d.log.iter().flat_map(|m| names(&m.pickup)).collect();
    assert_eq!(picked.len(), 14);
    picked.sort();
    picked.dedup();
    assert_eq!(picked.len(), 14);
}

#[test]
fn busy_fleet_delivers_everything_before_the_ceiling() {
    let mut d = busy_fleet();
    let ticks = d.run(1000);
    assert!(ticks < 1000);
    assert!(d.ledger.is_empty());
    let dropped: usize = d.log.iter().map(|m| m.dropoff.len()).sum();
    assert_eq!(dropped, 14);
    let mut clock: u64 = 0;
    for m in &d.log {
        clock += d.graph.edge_cost(&m.start_node, &m.end_node).unwrap() as u64;
        assert_eq!(m.time, clock);
    }
    assert_eq!(d.clock, clock);
}

#[test]
fn enough_ticks_deliver_everything() {
    // 14 packages wait, none aboard: a backlog of 28. Three trains, five
    // edges of cost 6 at most: a span of 2 * 5 * 6 = 60. Enough ticks are
    // (28 + 1) * (3 * 60 + 1) = 5249.
    let mut d = busy_fleet();
    let ticks = d.run(5249);
    assert!(ticks < 5249);
    assert!(d.ledger.is_empty());
    let dropped: usize = d.log.iter().map(|m| m.dropoff.len()).sum();
    assert_eq!(dropped, 14);
}
