//! The records that go in and come out: edges, trains, packages and moves.

use vstd::prelude::*;

verus! {

/// A station, as contracts see it: the characters of its identifier.
pub type Station = Seq<char>;

/// A named connection between two stations with the time it takes to travel it.
#[derive(Debug)]
pub struct Edge {
    pub name: String,
    pub from_node: String,
    pub to_node: String,
    pub journey_time: u32,
}

/// A train: its name, how much weight it carries, and where it stands.
#[derive(Debug)]
pub struct Train {
    pub name: String,
    pub capacity: u32,
    pub current_node: String,
}

/// A package with its weight, where it waits and where it must go.
#[derive(Debug)]
pub struct Package {
    pub name: String,
    pub weight: u32,
    pub start_node: String,
    pub destination_node: String,
}

/// One completed leg of one train.
#[derive(Debug)]
pub struct Move {
    pub time: u64,
    pub train: String,
    pub start_node: String,
    pub pickup: Vec<Package>,
    pub end_node: String,
    pub dropoff: Vec<Package>,
}

/// What an edge contributes to the network: its ends and its cost.
pub struct EdgeView {
    pub from: Station,
    pub to: Station,
    pub cost: nat,
}

impl View for Edge {
    type V = EdgeView;

    open spec fn view(&self) -> EdgeView {
        EdgeView { from: self.from_node@, to: self.to_node@, cost: self.journey_time as nat }
    }
}

/// The edges of a vector, each by its view.
pub open spec fn edge_views(v: Seq<Edge>) -> Seq<EdgeView> {
    v.map_values(|e: Edge| e@)
}

/// What a package is, in contracts.
pub struct PackageView {
    pub name: Station,
    pub weight: nat,
    pub start: Station,
    pub destination: Station,
}

/// What a train is, in contracts.
pub struct TrainView {
    pub name: Seq<char>,
    pub capacity: nat,
    pub at: Station,
}

/// What a move is, in contracts.
pub struct MoveView {
    pub time: nat,
    pub train: Seq<char>,
    pub start: Station,
    pub pickup: Seq<PackageView>,
    pub end: Station,
    pub dropoff: Seq<PackageView>,
}

impl View for Package {
    type V = PackageView;

    open spec fn view(&self) -> PackageView {
        PackageView {
            name: self.name@,
            weight: self.weight as nat,
            start: self.start_node@,
            destination: self.destination_node@,
        }
    }
}

impl View for Train {
    type V = TrainView;

    open spec fn view(&self) -> TrainView {
        TrainView { name: self.name@, capacity: self.capacity as nat, at: self.current_node@ }
    }
}

/// The station names of a vector, each by its view.
pub open spec fn stations(v: Seq<String>) -> Seq<Station> {
    v.map_values(|s: String| s@)
}

/// The packages of a vector, each by its view.
pub open spec fn package_views(v: Seq<Package>) -> Seq<PackageView> {
    v.map_values(|p: Package| p@)
}

/// The trains of a vector, each by its view.
pub open spec fn train_views(v: Seq<Train>) -> Seq<TrainView> {
    v.map_values(|t: Train| t@)
}

impl View for Move {
    type V = MoveView;

    open spec fn view(&self) -> MoveView {
        MoveView {
            time: self.time as nat,
            train: self.train@,
            start: self.start_node@,
            pickup: package_views(self.pickup@),
            end: self.end_node@,
            dropoff: package_views(self.dropoff@),
        }
    }
}

/// The moves of a vector, each by its view.
pub open spec fn move_views(v: Seq<Move>) -> Seq<MoveView> {
    v.map_values(|m: Move| m@)
}

impl Clone for Package {
    fn clone(&self) -> (r: Self)
        ensures
            r@ == self@,
    {
        Package {
            name: self.name.clone(),
            weight: self.weight,
            start_node: self.start_node.clone(),
            destination_node: self.destination_node.clone(),
        }
    }
}

impl PartialEq for Package {
    /// Two packages are equal when they agree in every field.
    fn eq(&self, other: &Self) -> (r: bool) {
        self.name == other.name && self.weight == other.weight && self.start_node
            == other.start_node && self.destination_node == other.destination_node
    }
}

impl vstd::std_specs::cmp::PartialEqSpecImpl for Package {
    open spec fn obeys_eq_spec() -> bool {
        true
    }

    open spec fn eq_spec(&self, other: &Self) -> bool {
        self@ == other@
    }
}

impl Clone for Edge {
    fn clone(&self) -> (r: Self)
        ensures
            r@ == self@,
            r.name@ == self.name@,
    {
        Edge {
            name: self.name.clone(),
            from_node: self.from_node.clone(),
            to_node: self.to_node.clone(),
            journey_time: self.journey_time,
        }
    }
}

impl Clone for Train {
    fn clone(&self) -> (r: Self)
        ensures
            r@ == self@,
    {
        Train {
            name: self.name.clone(),
            capacity: self.capacity,
            current_node: self.current_node.clone(),
        }
    }
}

/// Copies of the packages of `v`, in their order.
pub fn copy_packages(v: &Vec<Package>) -> (r: Vec<Package>)
    ensures
        package_views(r@) == package_views(v@),
{
    let mut out: Vec<Package> = Vec::new();
    let mut i: usize = 0;
    while i < v.len()
        invariant
            i <= v@.len(),
            out@.len() == i,
            forall|k: int| 0 <= k < i ==> (#[trigger] out@[k])@ == v@[k]@,
        decreases v@.len() - i,
    {
        out.push(v[i].clone());
        i += 1;
    }
    assert(package_views(out@) =~= package_views(v@));
    out
}

impl Clone for Move {
    fn clone(&self) -> (r: Self)
        ensures
            r@ == self@,
    {
        Move {
            time: self.time,
            train: self.train.clone(),
            start_node: self.start_node.clone(),
            pickup: copy_packages(&self.pickup),
            end_node: self.end_node.clone(),
            dropoff: copy_packages(&self.dropoff),
        }
    }
}

impl Move {
    /// A move with nothing in it: time zero, empty names, no packages.
    pub fn new() -> (m: Move)
        ensures
            m@ == (MoveView {
                time: 0,
                train: Seq::empty(),
                start: Seq::empty(),
                pickup: Seq::empty(),
                end: Seq::empty(),
                dropoff: Seq::empty(),
            }),
    {
        let m = Move {
            time: 0,
            train: String::new(),
            start_node: String::new(),
            pickup: Vec::new(),
            end_node: String::new(),
            dropoff: Vec::new(),
        };
        assert(m@.pickup =~= Seq::empty());
        assert(m@.dropoff =~= Seq::empty());
        m
    }
}

} // verus!
