use train_dispatch::model::{copy_packages, Edge, Move, Package, Train};

#[test]
fn new_move_is_blank() {
    let m = Move::new();
    assert_eq!(m.time, 0);
    assert_eq!(m.train, "");
    assert_eq!(m.start_node, "");
    assert!(m.pickup.is_empty());
    assert_eq!(m.end_node, "");
    assert!(m.dropoff.is_empty());
}

#[test]
fn cloned_package_has_the_same_fields() {
    let p = Package {
        name: "K1".to_string(),
        weight: 5,
        start_node: "A".to_string(),
        destination_node: "C".to_string(),
    };
    let q = p.clone();
    assert_eq!(q.name, "K1");
    assert_eq!(q.weight, 5);
    assert_eq!(q.start_node, "A");
    assert_eq!(q.destination_node, "C");
}

fn k1() -> Package {
    Package {
        name: "K1".to_string(),
        weight: 5,
        start_node: "A".to_string(),
        destination_node: "C".to_string(),
    }
}

#[test]
fn packages_are_equal_when_every_field_is() {
    assert!(k1() == k1().clone());
    assert!(k1() != Package { name: "K2".to_string(), ..k1() });
    assert!(k1() != Package { weight: 6, ..k1() });
    assert!(k1() != Package { start_node: "B".to_string(), ..k1() });
    assert!(k1() != Package { destination_node: "D".to_string(), ..k1() });
}

#[test]
fn copied_packages_keep_their_order() {
    let v = vec![k1(), Package { name: "K2".to_string(), ..k1() }];
    let w = copy_packages(&v);
    assert!(w == v);
    assert!(copy_packages(&Vec::new()).is_empty());
}

#[test]
fn cloned_records_have_the_same_fields() {
    let e = Edge {
        name: "E1".to_string(),
        from_node: "A".to_string(),
        to_node: "B".to_string(),
        journey_time: 10,
    };
    let f = e.clone();
    assert_eq!((f.name, f.from_node, f.to_node, f.journey_time), (e.name, e.from_node, e.to_node, 10));
    let t = Train { name: "Q1".to_string(), capacity: 10, current_node: "B".to_string() };
    let u = t.clone();
    assert_eq!((u.name, u.capacity, u.current_node), (t.name, 10, t.current_node));
    let m = Move {
        time: 7,
        train: "Q1".to_string(),
        start_node: "A".to_string(),
        pickup: vec![k1()],
        end_node: "B".to_string(),
        dropoff: vec![],
    };
    let n = m.clone();
    assert_eq!(n.time, 7);
    assert_eq!(n.train, "Q1");
    assert_eq!(n.start_node, "A");
    assert!(n.pickup == m.pickup);
    assert_eq!(n.end_node, "B");
    assert!(n.dropoff.is_empty());
}
