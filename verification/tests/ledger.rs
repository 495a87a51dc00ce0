use train_dispatch::ledger::Ledger;
use train_dispatch::model::Package;

fn package(name: &str, weight: u32, from: &str, to: &str) -> Package {
    Package {
        name: name.to_string(),
        weight,
        start_node: from.to_string(),
        destination_node: to.to_string(),
    }
}

fn names(packages: &Vec<Package>) -> Vec<String> {
    packages.iter().map(|p| p.name.clone()).collect()
}

fn three() -> Ledger {
    Ledger::new(vec![
        package("K1", 5, "A", "C"),
        package("K2", 5, "C", "A"),
        package("K3", 5, "A", "D"),
    ])
}

#[test]
fn new_ledger_holds_the_packages_in_their_order() {
    let l = three();
    assert_eq!(names(l.in_network()), vec!["K1", "K2", "K3"]);
    assert!(l.in_train("Q1").is_none());
    assert!(!l.is_empty());
}

#[test]
fn ledger_without_packages_is_empty() {
    assert!(Ledger::new(vec![]).is_empty());
}

#[test]
fn packages_at_lists_in_insertion_order() {
    let l = three();
    assert_eq!(names(&l.packages_at("A")), vec!["K1", "K3"]);
    assert_eq!(names(&l.packages_at("C")), vec!["K2"]);
    assert!(l.packages_at("B").is_empty());
    assert!(l.packages_at("a").is_empty());
}

#[test]
fn packages_at_leaves_the_ledger_alone() {
    let l = three();
    l.packages_at("A");
    assert_eq!(names(l.in_network()), vec!["K1", "K2", "K3"]);
}

#[test]
fn pickup_moves_the_package_onto_the_train() {
    let mut l = three();
    assert!(l.pickup("Q1", &package("K3", 5, "A", "D")));
    assert_eq!(names(l.in_network()), vec!["K1", "K2"]);
    assert_eq!(names(l.in_train("Q1").unwrap()), vec!["K3"]);
    assert!(l.pickup("Q1", &package("K1", 5, "A", "C")));
    assert_eq!(names(l.in_network()), vec!["K2"]);
    assert_eq!(names(l.in_train("Q1").unwrap()), vec!["K3", "K1"]);
    assert!(l.in_train("Q2").is_none());
}

#[test]
fn pickup_of_a_package_that_does_not_wait_changes_nothing() {
    let mut l = three();
    assert!(!l.pickup("Q1", &package("K9", 5, "A", "C")));
    assert!(!l.pickup("Q1", &package("K1", 6, "A", "C")));
    assert_eq!(names(l.in_network()), vec!["K1", "K2", "K3"]);
    assert!(l.in_train("Q1").is_none());
}

#[test]
fn package_cannot_be_picked_up_twice() {
    let mut l = three();
    let k1 = package("K1", 5, "A", "C");
    assert!(l.pickup("Q1", &k1));
    assert!(!l.pickup("Q1", &k1));
    assert!(!l.pickup("Q2", &k1));
    assert_eq!(names(l.in_train("Q1").unwrap()), vec!["K1"]);
    assert!(l.in_train("Q2").is_none());
    assert!(l.packages_at("A").iter().all(|p| p.name != "K1"));
}

#[test]
fn trains_keep_separate_loads() {
    let mut l = three();
    assert!(l.pickup("Q1", &package("K1", 5, "A", "C")));
    assert!(l.pickup("Q2", &package("K2", 5, "C", "A")));
    assert_eq!(names(l.in_train("Q1").unwrap()), vec!["K1"]);
    assert_eq!(names(l.in_train("Q2").unwrap()), vec!["K2"]);
}

#[test]
fn dropoff_returns_what_was_bound_for_the_station_in_order() {
    let mut l = Ledger::new(vec![
        package("K1", 1, "A", "C"),
        package("K2", 1, "A", "B"),
        package("K3", 1, "A", "C"),
        package("K4", 1, "A", "D"),
    ]);
    for p in l.packages_at("A") {
        assert!(l.pickup("Q1", &p));
    }
    let dropped = l.dropoff("Q1", "C");
    assert_eq!(names(&dropped), vec!["K1", "K3"]);
    assert_eq!(names(l.in_train("Q1").unwrap()), vec!["K2", "K4"]);
    assert!(l.in_network().is_empty());
}

#[test]
fn dropoff_where_nothing_is_bound_for_drops_nothing() {
    let mut l = three();
    assert!(l.pickup("Q1", &package("K1", 5, "A", "C")));
    assert!(l.dropoff("Q1", "B").is_empty());
    assert!(l.dropoff("Q2", "C").is_empty());
    assert_eq!(names(l.in_train("Q1").unwrap()), vec!["K1"]);
    assert_eq!(names(l.in_network()), vec!["K2", "K3"]);
}

#[test]
fn ledger_is_empty_only_when_nothing_waits_and_nothing_rides() {
    let mut l = Ledger::new(vec![package("K1", 5, "A", "C")]);
    assert!(!l.is_empty());
    assert!(l.pickup("Q1", &package("K1", 5, "A", "C")));
    assert!(l.in_network().is_empty());
    assert!(!l.is_empty());
    assert_eq!(l.dropoff("Q1", "C").len(), 1);
    assert!(l.is_empty());
    assert!(l.in_train("Q1").unwrap().is_empty());
}

#[test]
fn pickup_asks_for_the_package_in_every_field() {
    let mut l = Ledger::new(vec![package("K1", 5, "A", "C")]);
    assert!(!l.pickup("Q1", &package("K2", 5, "A", "C")));
    assert!(!l.pickup("Q1", &package("K1", 6, "A", "C")));
    assert!(!l.pickup("Q1", &package("K1", 5, "B", "C")));
    assert!(!l.pickup("Q1", &package("K1", 5, "A", "D")));
    assert!(l.pickup("Q1", &package("K1", 5, "A", "C")));
}
