//! The package ledger: which packages still wait in the network and which
//! ride on which train.
//!
//! A package is in exactly one place: waiting, aboard one train, or delivered
//! and gone from the ledger. Waiting packages keep the order in which they were
//! entered; packages aboard a train keep the order in which they boarded.

use vstd::prelude::*;
use crate::model::{package_views, Package, PackageView, Station};

verus! {

/// The packages aboard one train, in contracts.
pub struct LoadView {
    pub train: Seq<char>,
    pub packages: Seq<PackageView>,
}

/// The ledger in contracts: the waiting packages in the order they were
/// entered, and one load for every train that has ever boarded a package, in
/// the order of their first pickup.
pub struct LedgerView {
    pub in_network: Seq<PackageView>,
    pub loads: Seq<LoadView>,
}

/// The test "waits at `station`".
pub open spec fn waits_at(station: Station) -> spec_fn(PackageView) -> bool {
    |p: PackageView| p.start == station
}

/// The test "is bound for `station`".
pub open spec fn bound_for(station: Station) -> spec_fn(PackageView) -> bool {
    |p: PackageView| p.destination == station
}

/// The test "is bound for another place than `station`".
pub open spec fn bound_elsewhere(station: Station) -> spec_fn(PackageView) -> bool {
    |p: PackageView| p.destination != station
}

/// How many packages the loads hold together.
pub open spec fn aboard_count(loads: Seq<LoadView>) -> nat
    decreases loads.len(),
{
    if loads.len() == 0 {
        0
    } else {
        aboard_count(loads.drop_last()) + loads.last().packages.len()
    }
}

impl LedgerView {
    /// No train has two loads.
    pub open spec fn wf(self) -> bool {
        forall|i: int, j: int|
            0 <= i < j < self.loads.len() ==> (#[trigger] self.loads[i]).train != (
            #[trigger] self.loads[j]).train
    }

    /// The index of the load of `train`, or -1 where it has none.
    pub open spec fn load_of(self, train: Seq<char>) -> int {
        if exists|k: int| 0 <= k < self.loads.len() && (#[trigger] self.loads[k]).train == train {
            choose|k: int| 0 <= k < self.loads.len() && (#[trigger] self.loads[k]).train == train
        } else {
            -1
        }
    }

    /// The packages aboard `train`, in the order in which they boarded.
    pub open spec fn aboard(self, train: Seq<char>) -> Seq<PackageView> {
        let k = self.load_of(train);
        if k >= 0 {
            self.loads[k].packages
        } else {
            Seq::empty()
        }
    }

    /// The packages that wait at `station`, in the order they were entered.
    pub open spec fn waiting_at(self, station: Station) -> Seq<PackageView> {
        self.in_network.filter(waits_at(station))
    }

    /// The loads with `packages` aboard `train` in place of what it carried.
    pub open spec fn reloaded(self, train: Seq<char>, packages: Seq<PackageView>) -> Seq<LoadView> {
        let k = self.load_of(train);
        if k >= 0 {
            self.loads.update(k, LoadView { train, packages })
        } else {
            self.loads.push(LoadView { train, packages })
        }
    }

    /// The ledger after `train` has picked up `p`: the first waiting package
    /// equal to `p` has left the network and is the last aboard the train.
    /// Where no such package waits, nothing changes.
    pub open spec fn picked_up(self, train: Seq<char>, p: PackageView) -> LedgerView {
        match self.in_network.index_of_first(p) {
            Some(i) => LedgerView {
                in_network: self.in_network.remove(i),
                loads: self.reloaded(train, self.aboard(train).push(p)),
            },
            None => self,
        }
    }

    /// The ledger after `train` has unloaded at `station`: what it carried
    /// for that station is gone, the rest stays aboard in its order.
    pub open spec fn dropped_off(self, train: Seq<char>, station: Station) -> LedgerView {
        if self.load_of(train) >= 0 {
            LedgerView {
                in_network: self.in_network,
                loads: self.reloaded(train, self.aboard(train).filter(bound_elsewhere(station))),
            }
        } else {
            self
        }
    }

    /// Nothing waits and nothing is aboard any train.
    pub open spec fn is_empty(self) -> bool {
        &&& self.in_network.len() == 0
        &&& forall|k: int| 0 <= k < self.loads.len() ==> (#[trigger] self.loads[k]).packages.len() == 0
    }

    /// How many packages the ledger holds, waiting or aboard.
    pub open spec fn total(self) -> nat {
        self.in_network.len() + aboard_count(self.loads)
    }
}

/// The packages aboard one train.
pub(crate) struct TrainLoad {
    pub(crate) train: String,
    pub(crate) packages: Vec<Package>,
}

impl View for TrainLoad {
    type V = LoadView;

    closed spec fn view(&self) -> LoadView {
        LoadView { train: self.train@, packages: package_views(self.packages@) }
    }
}

/// The loads of a vector, each by its view.
pub(crate) open spec fn load_views(v: Seq<TrainLoad>) -> Seq<LoadView> {
    v.map_values(|l: TrainLoad| l@)
}

/// The package ledger.
pub struct Ledger {
    pub(crate) in_network: Vec<Package>,
    pub(crate) loads: Vec<TrainLoad>,
}

impl View for Ledger {
    type V = LedgerView;

    closed spec fn view(&self) -> LedgerView {
        LedgerView {
            in_network: package_views(self.in_network@),
            loads: load_views(self.loads@),
        }
    }
}

/// Among loads of distinct trains, the load at index `k` is the one that
/// `load_of` gives for its train.
pub(crate) proof fn lemma_load_found(l: LedgerView, k: int)
    requires
        l.wf(),
        0 <= k < l.loads.len(),
    ensures
        l.load_of(l.loads[k].train) == k,
{
    let train = l.loads[k].train;
    let j = l.load_of(train);
    assert(0 <= j < l.loads.len() && l.loads[j].train == train);
    if j < k {
        assert(l.loads[j].train != l.loads[k].train);
    } else if k < j {
        assert(l.loads[k].train != l.loads[j].train);
    }
}

/// The index of the load of `train`, if it has one.
fn find_load(loads: &Vec<TrainLoad>, train: &String) -> (r: Option<usize>)
    ensures
        match r {
            Some(k) => k < loads@.len() && loads@[k as int].train@ == train@,
            None => forall|j: int| 0 <= j < loads@.len() ==> (#[trigger] loads@[j]).train@ != train@,
        },
{
    let mut k: usize = 0;
    while k < loads.len()
        invariant
            k <= loads@.len(),
            forall|j: int| 0 <= j < k ==> (#[trigger] loads@[j]).train@ != train@,
        decreases loads@.len() - k,
    {
        if loads[k].train == *train {
            return Some(k);
        }
        k += 1;
    }
    None
}

/// The index of the first package of `v` that equals `p`, if there is one.
fn find_package(v: &Vec<Package>, p: &Package) -> (r: Option<usize>)
    ensures
        match r {
            Some(i) => i < v@.len() && package_views(v@).index_of_first(p@) == Some(i as int),
            None => package_views(v@).index_of_first(p@) is None,
        },
{
    let ghost all = package_views(v@);
    let mut i: usize = 0;
    while i < v.len()
        invariant
            all == package_views(v@),
            i <= v@.len(),
            forall|j: int| 0 <= j < i ==> (#[trigger] all[j]) != p@,
        decreases v@.len() - i,
    {
        if v[i] == *p {
            proof {
                assert(all[i as int] == p@);
                all.index_of_first_ensures(p@);
            }
            return Some(i);
        }
        i += 1;
    }
    proof {
        all.index_of_first_ensures(p@);
    }
    None
}

impl Ledger {
    #[verifier::type_invariant]
    pub(crate) open spec fn inv(self) -> bool {
        forall|i: int, j: int|
            0 <= i < j < self.loads@.len() ==> (#[trigger] self.loads@[i]).train@ != (
            #[trigger] self.loads@[j]).train@
    }

    /// A ledger that keeps its invariant has a well-formed view.
    pub(crate) proof fn lemma_inv_wf(&self)
        requires
            self.inv(),
        ensures
            self@.wf(),
    {
    }

    /// A ledger in which `packages` wait in the network and no train carries
    /// anything.
    pub fn new(packages: Vec<Package>) -> (l: Ledger)
        ensures
            l@ == (LedgerView { in_network: package_views(packages@), loads: Seq::empty() }),
            l@.wf(),
    {
        let l = Ledger { in_network: packages, loads: Vec::new() };
        assert(l@.loads =~= Seq::empty());
        l
    }

    /// The waiting packages, in the order in which they were entered.
    pub fn in_network(&self) -> (r: &Vec<Package>)
        ensures
            package_views(r@) == self@.in_network,
    {
        &self.in_network
    }

    /// The packages that wait at `station`, in the order they were entered.
    pub fn packages_at(&self, station: &str) -> (r: Vec<Package>)
        ensures
            package_views(r@) == self@.waiting_at(station@),
    {
        let at = station.to_owned();
        let ghost all = package_views(self.in_network@);
        let mut out: Vec<Package> = Vec::new();
        let mut i: usize = 0;
        assert(all.take(0).filter(waits_at(station@)) =~= Seq::empty()) by {
            reveal(Seq::filter);
        }
        assert(package_views(out@) =~= Seq::empty());
        while i < self.in_network.len()
            invariant
                at@ == station@,
                all == package_views(self.in_network@),
                i <= self.in_network@.len(),
                package_views(out@) == all.take(i as int).filter(waits_at(station@)),
            decreases self.in_network@.len() - i,
        {
            let p = &self.in_network[i];
            proof {
                let before = all.take(i as int);
                assert(all.take(i + 1) =~= before.push(p@));
                before.lemma_filter_push(p@, waits_at(station@));
            }
            if p.start_node == at {
                let ghost prior = package_views(out@);
                out.push(p.clone());
                assert(package_views(out@) =~= prior.push(p@));
            }
            i += 1;
        }
        assert(all.take(i as int) =~= all);
        out
    }

    /// The packages aboard `train`, in the order in which they boarded;
    /// `None` where the train has never boarded one.
    pub fn in_train(&self, train: &str) -> (r: Option<&Vec<Package>>)
        ensures
            self@.wf(),
            match r {
                Some(v) => self@.load_of(train@) >= 0 && package_views(v@) == self@.aboard(train@),
                None => self@.load_of(train@) == -1 && self@.aboard(train@).len() == 0,
            },
    {
        proof {
            use_type_invariant(self);
        }
        let name = train.to_owned();
        match find_load(&self.loads, &name) {
            Some(k) => {
                proof {
                    lemma_load_found(self@, k as int);
                }
                Some(&self.loads[k].packages)
            },
            None => {
                assert forall|j: int| 0 <= j < self@.loads.len() implies (#[trigger] self@.loads[j]).train
                    != train@ by {
                    assert(self.loads@[j].train@ != train@);
                }
                None
            },
        }
    }

    /// Moves a package from the network onto `train`: the first waiting
    /// package equal to `package` leaves the network and becomes the last
    /// aboard the train. Returns whether such a package was waiting; where
    /// none was, the ledger is unchanged.
    pub fn pickup(&mut self, train: &str, package: &Package) -> (r: bool)
        ensures
            final(self)@ == old(self)@.picked_up(train@, package@),
            r == old(self)@.in_network.contains(package@),
            final(self)@.wf(),
    {
        proof {
            use_type_invariant(&*self);
            old(self)@.in_network.index_of_first_ensures(package@);
        }
        let i = match find_package(&self.in_network, package) {
            Some(i) => i,
            None => {
                return false;
            },
        };
        let name = train.to_owned();
        let mut waiting: Vec<Package> = Vec::new();
        let mut loads: Vec<TrainLoad> = Vec::new();
        std::mem::swap(&mut waiting, &mut self.in_network);
        std::mem::swap(&mut loads, &mut self.loads);
        let ghost before = load_views(loads@);
        let taken = waiting.remove(i);
        match find_load(&loads, &name) {
            Some(k) => {
                proof {
                    lemma_load_found(old(self)@, k as int);
                }
                let ghost carried = package_views(loads@[k as int].packages@);
                loads[k].packages.push(taken);
                proof {
                    assert(package_views(loads@[k as int].packages@) =~= carried.push(package@));
                    assert(load_views(loads@) =~= before.update(
                        k as int,
                        LoadView { train: train@, packages: carried.push(package@) },
                    ));
                }
            },
            None => {
                assert forall|j: int| 0 <= j < before.len() implies (#[trigger] before[j]).train
                    != train@ by {
                    assert(loads@[j].train@ != train@);
                }
                let mut packages: Vec<Package> = Vec::new();
                packages.push(taken);
                loads.push(TrainLoad { train: name, packages });
                proof {
                    assert(package_views(packages@) =~= Seq::<PackageView>::empty().push(package@));
                    assert(load_views(loads@) =~= before.push(
                        LoadView {
                            train: train@,
                            packages: Seq::<PackageView>::empty().push(package@),
                        },
                    ));
                }
            },
        }
        self.in_network = waiting;
        self.loads = loads;
        assert(package_views(self.in_network@) =~= old(self)@.in_network.remove(i as int));
        true
    }

    /// Unloads `train` at `station`: removes the packages aboard it that are
    /// bound for `station` and returns them, in the order in which they
    /// boarded. What is bound elsewhere stays aboard in its order.
    pub fn dropoff(&mut self, train: &str, station: &str) -> (r: Vec<Package>)
        ensures
            package_views(r@) == old(self)@.aboard(train@).filter(bound_for(station@)),
            final(self)@ == old(self)@.dropped_off(train@, station@),
            final(self)@.wf(),
    {
        proof {
            use_type_invariant(&*self);
        }
        let name = train.to_owned();
        let here = station.to_owned();
        let mut dropped: Vec<Package> = Vec::new();
        assert(package_views(dropped@) =~= Seq::empty());
        let k = match find_load(&self.loads, &name) {
            Some(k) => k,
            None => {
                proof {
                    assert forall|j: int| 0 <= j < self@.loads.len() implies (
                    #[trigger] self@.loads[j]).train != train@ by {
                        assert(self.loads@[j].train@ != train@);
                    }
                    reveal(Seq::filter);
                }
                return dropped;
            },
        };
        proof {
            lemma_load_found(old(self)@, k as int);
        }
        let mut loads: Vec<TrainLoad> = Vec::new();
        std::mem::swap(&mut loads, &mut self.loads);
        let ghost before = load_views(loads@);
        let ghost carried = package_views(loads@[k as int].packages@);
        let mut kept: Vec<Package> = Vec::new();
        let mut i: usize = 0;
        proof {
            assert(carried.take(0).filter(bound_for(station@)) =~= Seq::empty()) by {
                reveal(Seq::filter);
            }
            assert(carried.take(0).filter(bound_elsewhere(station@)) =~= Seq::empty()) by {
                reveal(Seq::filter);
            }
            assert(package_views(kept@) =~= Seq::empty());
        }
        while i < loads[k].packages.len()
            invariant
                here@ == station@,
                k < loads@.len(),
                carried == package_views(loads@[k as int].packages@),
                i <= carried.len(),
                package_views(dropped@) == carried.take(i as int).filter(bound_for(station@)),
                package_views(kept@) == carried.take(i as int).filter(bound_elsewhere(station@)),
            decreases carried.len() - i,
        {
            let p = &loads[k].packages[i];
            proof {
                let seen = carried.take(i as int);
                assert(carried.take(i + 1) =~= seen.push(p@));
                seen.lemma_filter_push(p@, bound_for(station@));
                seen.lemma_filter_push(p@, bound_elsewhere(station@));
            }
            if p.destination_node == here {
                let ghost prior = package_views(dropped@);
                dropped.push(p.clone());
                assert(package_views(dropped@) =~= prior.push(p@));
            } else {
                let ghost prior = package_views(kept@);
                kept.push(p.clone());
                assert(package_views(kept@) =~= prior.push(p@));
            }
            i += 1;
        }
        assert(carried.take(i as int) =~= carried);
        loads[k].packages = kept;
        proof {
            assert(load_views(loads@) =~= before.update(
                k as int,
                LoadView { train: train@, packages: carried.filter(bound_elsewhere(station@)) },
            ));
        }
        self.loads = loads;
        dropped
    }

    /// Whether nothing waits in the network and no train carries anything.
    pub fn is_empty(&self) -> (r: bool)
        ensures
            r == self@.is_empty(),
    {
        if self.in_network.len() > 0 {
            return false;
        }
        let mut k: usize = 0;
        while k < self.loads.len()
            invariant
                k <= self.loads@.len(),
                forall|j: int| 0 <= j < k ==> (#[trigger] self.loads@[j]).packages@.len() == 0,
            decreases self.loads@.len() - k,
        {
            if self.loads[k].packages.len() > 0 {
                assert(self@.loads[k as int].packages.len() > 0);
                return false;
            }
            k += 1;
        }
        assert forall|j: int| 0 <= j < self@.loads.len() implies (#[trigger] self@.loads[j]).packages.len()
            == 0 by {
            assert(self.loads@[j].packages@.len() == 0);
        }
        true
    }
}

} // verus!
