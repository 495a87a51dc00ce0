//! The dispatcher: the loop that moves the trains.
//!
//! One turn of one train loads what fits at its station, picks a target,
//! moves one edge along a cheapest route to it, unloads what has arrived and
//! records the leg. A tick gives every train one turn, in their order. The
//! run ends when the ledger is empty or the tick ceiling is reached.

use vstd::prelude::*;
use crate::graph::{network_of, Graph, Network};
use crate::laws::{
    delivered, deliveries_true, law_run_lawful, law_tick_lawful, law_turn_lawful, lawful,
    names_unique, pickups_distinct,
};
use crate::ledger::{bound_for, Ledger, LedgerView};
use crate::model::{
    edge_views, move_views, package_views, stations, train_views, Edge, Move, MoveView, Package,
    PackageView, Station, Train, TrainView,
};
use crate::progress::{law_everything_delivered, ready, ticks_needed};
use crate::route::{connects, is_cheapest, joined_at, reachable};
use crate::span::{capped, law_span, spans};

verus! {

/// The summed weight of some packages.
pub open spec fn weight_of(s: Seq<PackageView>) -> nat
    decreases s.len(),
{
    if s.len() == 0 {
        0
    } else {
        weight_of(s.drop_last()) + s.last().weight
    }
}

/// The room that is left on a train of the given capacity that carries the
/// given weight.
pub open spec fn spare(capacity: nat, carried: nat) -> nat {
    if capacity >= carried {
        (capacity - carried) as nat
    } else {
        0
    }
}

/// How many of the waiting packages a train with `room` to spare accepts:
/// the longest run from the front whose summed weight fits. The first package
/// that does not fit ends the run, whatever comes after it.
pub open spec fn fitting(waiting: Seq<PackageView>, room: nat) -> nat
    decreases waiting.len(),
{
    if waiting.len() == 0 || waiting[0].weight > room {
        0
    } else {
        1 + fitting(waiting.drop_first(), (room - waiting[0].weight) as nat)
    }
}

/// The ledger after `train` has picked up each of `accepted` in turn.
pub open spec fn boarded(ledger: LedgerView, train: Seq<char>, accepted: Seq<PackageView>) -> LedgerView
    decreases accepted.len(),
{
    if accepted.len() == 0 {
        ledger
    } else {
        boarded(ledger, train, accepted.drop_last()).picked_up(train, accepted.last())
    }
}

/// Where a train goes next: to the destination of the package that boarded
/// it first, or, where it carries nothing, to where the first waiting package
/// waits. `None` where it carries nothing and nothing waits.
pub open spec fn target_of(ledger: LedgerView, train: Seq<char>) -> Option<Station> {
    let aboard = ledger.aboard(train);
    if aboard.len() > 0 {
        Some(aboard[0].destination)
    } else if ledger.in_network.len() > 0 {
        Some(ledger.in_network[0].start)
    } else {
        None
    }
}

/// `hop` is the second station of some cheapest route from `from` to `to`.
pub open spec fn is_next_hop(net: Network, from: Station, to: Station, hop: Station) -> bool {
    exists|p: Seq<Station>| is_cheapest(net, p, from, to) && p.len() >= 2 && p[1] == hop
}

/// The state of a simulation, in contracts.
pub struct DispatchView {
    pub net: Network,
    pub trains: Seq<TrainView>,
    pub ledger: LedgerView,
    pub clock: nat,
    pub log: Seq<MoveView>,
}

impl DispatchView {
    /// What train `i` accepts in its load phase: of the packages that wait at
    /// its station, as many from the front as fit beside what it carries.
    pub open spec fn accepted(self, i: int) -> Seq<PackageView> {
        let t = self.trains[i];
        let waiting = self.ledger.waiting_at(t.at);
        let room = spare(t.capacity, weight_of(self.ledger.aboard(t.name)));
        waiting.take(fitting(waiting, room) as int)
    }

    /// The state after the load phase of train `i`.
    pub open spec fn loaded(self, i: int) -> DispatchView {
        DispatchView {
            ledger: boarded(self.ledger, self.trains[i].name, self.accepted(i)),
            ..self
        }
    }

    /// The target of train `i` once it has loaded.
    pub open spec fn goal(self, i: int) -> Option<Station> {
        target_of(self.loaded(i).ledger, self.trains[i].name)
    }

    /// Whether train `i` moves this turn: it has a target, is not there yet,
    /// and can get there.
    pub open spec fn can_move(self, i: int) -> bool {
        match self.goal(i) {
            Some(t) => t != self.trains[i].at && reachable(self.net, self.trains[i].at, t),
            None => false,
        }
    }

    /// The leg that train `i` completes when it loads and then moves to `hop`.
    pub open spec fn leg(self, i: int, hop: Station) -> MoveView {
        let t = self.trains[i];
        MoveView {
            time: self.clock + self.net[(t.at, hop)],
            train: t.name,
            start: t.at,
            pickup: self.accepted(i),
            end: hop,
            dropoff: self.loaded(i).ledger.aboard(t.name).filter(bound_for(hop)),
        }
    }

    /// The state after train `i` has loaded, moved to `hop`, unloaded there
    /// and recorded the leg.
    pub open spec fn advanced(self, i: int, hop: Station) -> DispatchView {
        let t = self.trains[i];
        DispatchView {
            net: self.net,
            trains: self.trains.update(i, TrainView { at: hop, ..t }),
            ledger: self.loaded(i).ledger.dropped_off(t.name, hop),
            clock: self.clock + self.net[(t.at, hop)],
            log: self.log.push(self.leg(i, hop)),
        }
    }
}

/// `post` is what one turn of train `i` makes of `pre`. A train that cannot
/// move only loads. One that can move goes to the second station of a
/// cheapest route to its target; which one, where several are cheapest, is
/// left open.
pub open spec fn stepped(pre: DispatchView, i: int, post: DispatchView) -> bool {
    if pre.can_move(i) {
        let hop = post.trains[i].at;
        is_next_hop(pre.net, pre.trains[i].at, pre.goal(i).unwrap(), hop) && post == pre.advanced(
            i,
            hop,
        )
    } else {
        post == pre.loaded(i)
    }
}

/// `post` is what `pre` has become when its first `n` trains have each had
/// one turn, in their order.
pub open spec fn swept(pre: DispatchView, n: nat, post: DispatchView) -> bool
    decreases n,
{
    if n == 0 {
        post == pre
    } else {
        let i = (n - 1) as nat;
        exists|mid: DispatchView| swept(pre, i, mid) && #[trigger] stepped(mid, i as int, post)
    }
}

/// `post` is what one tick makes of `pre`: every train has had one turn.
pub open spec fn ticked(pre: DispatchView, post: DispatchView) -> bool {
    swept(pre, pre.trains.len(), post)
}

/// `post` is what `pre` has become after `ticks` ticks, none of which began
/// with an empty ledger.
pub open spec fn ran(pre: DispatchView, ticks: nat, post: DispatchView) -> bool
    decreases ticks,
{
    if ticks == 0 {
        post == pre
    } else {
        let before = (ticks - 1) as nat;
        exists|mid: DispatchView|
            ran(pre, before, mid) && !mid.ledger.is_empty() && #[trigger] ticked(mid, post)
    }
}

/// `post` is where a run of at most `max_ticks` ticks from `pre` ends, after
/// `ticks` of them: either the ledger is empty or the ceiling is reached.
pub open spec fn finished(pre: DispatchView, max_ticks: nat, ticks: nat, post: DispatchView) -> bool {
    &&& ticks <= max_ticks
    &&& ran(pre, ticks, post)
    &&& ticks == max_ticks || post.ledger.is_empty()
}

/// The most by which `turns` turns can advance the clock: each adds the cost
/// of one edge.
pub open spec fn clock_need(turns: nat) -> nat {
    turns * (u32::MAX as nat)
}

/// The simulation: the network, the trains, the ledger, the clock that all
/// trains share, and the log of completed legs.
pub struct Dispatcher {
    pub graph: Graph,
    pub trains: Vec<Train>,
    pub ledger: Ledger,
    pub clock: u64,
    pub log: Vec<Move>,
}

impl View for Dispatcher {
    type V = DispatchView;

    open spec fn view(&self) -> DispatchView {
        DispatchView {
            net: self.graph@,
            trains: train_views(self.trains@),
            ledger: self.ledger@,
            clock: self.clock as nat,
            log: move_views(self.log@),
        }
    }
}

/// The room left on a train of the given capacity beside what it carries.
pub fn room_left(capacity: u32, aboard: &Vec<Package>) -> (r: u32)
    ensures
        r == spare(capacity as nat, weight_of(package_views(aboard@))),
{
    let ghost all = package_views(aboard@);
    let mut room: u32 = capacity;
    let mut i: usize = 0;
    assert(all.take(0) =~= Seq::empty());
    while i < aboard.len()
        invariant
            all == package_views(aboard@),
            i <= aboard@.len(),
            room == spare(capacity as nat, weight_of(all.take(i as int))),
        decreases aboard@.len() - i,
    {
        proof {
            assert(all.take(i + 1).drop_last() =~= all.take(i as int));
        }
        let w = aboard[i].weight;
        if w > room {
            room = 0;
        } else {
            room = room - w;
        }
        i += 1;
    }
    assert(all.take(i as int) =~= all);
    room
}

impl Dispatcher {
    /// A simulation at its start: the network built from `edges`, the trains
    /// where they stand, all packages waiting, the clock at zero and the log
    /// empty.
    pub fn new(edges: &Vec<Edge>, trains: Vec<Train>, packages: Vec<Package>) -> (d: Dispatcher)
        ensures
            d@ == (DispatchView {
                net: network_of(edge_views(edges@)),
                trains: train_views(trains@),
                ledger: LedgerView { in_network: package_views(packages@), loads: Seq::empty() },
                clock: 0,
                log: Seq::empty(),
            }),
            d.trains@ == trains@,
            d.clock == 0,
    {
        let d = Dispatcher {
            graph: Graph::build(edges),
            trains,
            ledger: Ledger::new(packages),
            clock: 0,
            log: Vec::new(),
        };
        assert(d@.log =~= Seq::empty());
        d
    }

    /// The load phase of train `i`: it picks up, in their order, the packages
    /// waiting at its station for as long as they fit beside what it carries.
    /// Returns what it picked up.
    pub fn load(&mut self, i: usize) -> (pickup: Vec<Package>)
        requires
            i < old(self).trains@.len(),
        ensures
            final(self)@ == old(self)@.loaded(i as int),
            package_views(pickup@) == old(self)@.accepted(i as int),
            final(self).trains == old(self).trains,
            final(self).graph == old(self).graph,
    {
        let name = self.trains[i].name.clone();
        let at = self.trains[i].current_node.clone();
        let capacity = self.trains[i].capacity;
        let room_at_start: u32 = match self.ledger.in_train(name.as_str()) {
            Some(aboard) => room_left(capacity, aboard),
            None => {
                assert(self.ledger@.aboard(name@) =~= Seq::empty());
                capacity
            },
        };
        let waiting = self.ledger.packages_at(at.as_str());
        let ghost queue = package_views(waiting@);
        let ghost before = old(self)@.ledger;
        let mut room: u32 = room_at_start;
        let mut pickup: Vec<Package> = Vec::new();
        let mut k: usize = 0;
        assert(queue.skip(0) =~= queue);
        assert(queue.take(0) =~= Seq::empty());
        assert(package_views(pickup@) =~= Seq::empty());
        while k < waiting.len() && waiting[k].weight <= room
            invariant
                queue == package_views(waiting@),
                k <= waiting@.len(),
                self.graph == old(self).graph,
                self.trains == old(self).trains,
                self.clock == old(self).clock,
                self.log == old(self).log,
                self.ledger@ == boarded(before, name@, queue.take(k as int)),
                package_views(pickup@) == queue.take(k as int),
                fitting(queue, room_at_start as nat) == k + fitting(queue.skip(k as int), room as nat),
            ensures
                k == fitting(queue, room_at_start as nat),
            decreases waiting@.len() - k,
        {
            let p = &waiting[k];
            proof {
                assert(queue.skip(k as int).drop_first() =~= queue.skip(k + 1));
                assert(queue.take(k + 1).drop_last() =~= queue.take(k as int));
                assert(queue.skip(k as int)[0] == p@);
            }
            room = room - p.weight;
            self.ledger.pickup(name.as_str(), p);
            let ghost prior = package_views(pickup@);
            pickup.push(p.clone());
            assert(package_views(pickup@) =~= prior.push(p@));
            assert(queue.take(k + 1) =~= queue.take(k as int).push(p@));
            k += 1;
        }
        pickup
    }

    /// Where the train called `name` goes next.
    pub fn next_target(&self, name: &str) -> (r: Option<String>)
        ensures
            match r {
                Some(t) => target_of(self@.ledger, name@) == Some(t@),
                None => target_of(self@.ledger, name@) is None,
            },
    {
        match self.ledger.in_train(name) {
            Some(aboard) => {
                if aboard.len() > 0 {
                    assert(package_views(aboard@)[0] == aboard@[0]@);
                    return Some(aboard[0].destination_node.clone());
                }
            },
            None => {},
        }
        let waiting = self.ledger.in_network();
        if waiting.len() > 0 {
            assert(package_views(waiting@)[0] == waiting@[0]@);
            Some(waiting[0].start_node.clone())
        } else {
            None
        }
    }

    /// One turn of train `i`: it loads, and then, if it has a target that it
    /// is not at and can reach, moves one edge along a cheapest route to it,
    /// adds the cost of that edge to the clock, unloads what is bound for the
    /// station it arrives at, and appends the leg to the log. Returns whether
    /// it moved; a train that did not move has still loaded.
    pub fn tick_train(&mut self, i: usize) -> (moved: bool)
        requires
            i < old(self).trains@.len(),
            old(self).clock + u32::MAX <= u64::MAX,
        ensures
            stepped(old(self)@, i as int, final(self)@),
            moved == old(self)@.can_move(i as int),
            final(self).trains@.len() == old(self).trains@.len(),
            old(self).clock <= final(self).clock <= old(self).clock + u32::MAX,
            lawful(old(self)@, final(self)@),
    {
        proof {
            use_type_invariant(&self.ledger);
            self.ledger.lemma_inv_wf();
            assert(train_views(self.trains@).len() == self.trains@.len());
        }
        let pickup = self.load(i);
        let name = self.trains[i].name.clone();
        let at = self.trains[i].current_node.clone();
        let target = match self.next_target(name.as_str()) {
            Some(t) => t,
            None => {
                proof {
                    law_turn_lawful(old(self)@, i as int, self@);
                }
                return false;
            },
        };
        if target == at {
            proof {
                law_turn_lawful(old(self)@, i as int, self@);
            }
            return false;
        }
        let path = match self.graph.shortest_path(at.as_str(), target.as_str()) {
            Some(p) => p,
            None => {
                proof {
                    law_turn_lawful(old(self)@, i as int, self@);
                }
                return false;
            },
        };
        let ghost route = stations(path@);
        assert(reachable(self.graph@, at@, target@)) by {
            assert(connects(self.graph@, route, at@, target@));
        }
        assert(route[0] == at@ && route[route.len() - 1] == target@);
        assert(joined_at(self.graph@, route, 0));
        let hop = path[1].clone();
        assert(hop@ == route[1]);
        let cost = self.graph.edge_cost(at.as_str(), hop.as_str()).unwrap();
        let dropoff = self.ledger.dropoff(name.as_str(), hop.as_str());
        self.clock = self.clock + cost as u64;
        self.trains[i].current_node = hop.clone();
        let leg = Move {
            time: self.clock,
            train: name,
            start_node: at,
            pickup,
            end_node: hop,
            dropoff,
        };
        self.log.push(leg);
        proof {
            let pre = old(self)@;
            let post = self@;
            let want = pre.advanced(i as int, hop@);
            assert(post.trains =~= want.trains);
            assert(post.log =~= want.log);
            assert(post.trains[i as int].at == hop@);
            assert(is_next_hop(pre.net, at@, target@, hop@));
            law_turn_lawful(pre, i as int, post);
        }
        true
    }

    /// One tick: every train has one turn, in the order of the trains.
    pub fn tick(&mut self)
        requires
            old(self).clock + clock_need(old(self).trains@.len()) <= u64::MAX,
        ensures
            ticked(old(self)@, final(self)@),
            lawful(old(self)@, final(self)@),
            final(self).trains@.len() == old(self).trains@.len(),
            old(self).clock <= final(self).clock <= old(self).clock + clock_need(
                old(self).trains@.len(),
            ),
    {
        proof {
            use_type_invariant(&self.ledger);
            self.ledger.lemma_inv_wf();
        }
        let n = self.trains.len();
        let mut i: usize = 0;
        while i < n
            invariant
                n == old(self).trains@.len(),
                self.trains@.len() == n,
                i <= n,
                swept(old(self)@, i as nat, self@),
                old(self).clock <= self.clock <= old(self).clock + clock_need(i as nat),
                old(self).clock + clock_need(n as nat) <= u64::MAX,
            decreases n - i,
        {
            let ghost mid = self@;
            self.tick_train(i);
            i += 1;
            proof {
                let turn = (i as nat - 1) as nat;
                assert(swept(old(self)@, turn, mid) && stepped(mid, turn as int, self@));
            }
        }
        proof {
            assert(train_views(old(self).trains@).len() == n);
            law_tick_lawful(old(self)@, self@);
        }
    }

    /// Runs tick after tick until the ledger is empty or `max_ticks` ticks
    /// are done, whichever comes first. Returns the number of ticks done.
    pub fn run(&mut self, max_ticks: u32) -> (ticks: u32)
        requires
            old(self).clock + clock_need(max_ticks as nat * old(self).trains@.len()) <= u64::MAX,
        ensures
            finished(old(self)@, max_ticks as nat, ticks as nat, final(self)@),
            lawful(old(self)@, final(self)@),
            final(self).trains@.len() == old(self).trains@.len(),
            forall|span: nat|
                ready(old(self)@) && spans(old(self)@.net, span) && max_ticks >= #[trigger] ticks_needed(
                    old(self)@,
                    span,
                ) ==> final(self)@.ledger.is_empty(),
    {
        proof {
            use_type_invariant(&self.ledger);
            self.ledger.lemma_inv_wf();
        }
        let ghost n = self.trains@.len();
        let mut ticks: u32 = 0;
        while ticks < max_ticks && !self.ledger.is_empty()
            invariant
                n == old(self).trains@.len(),
                self.trains@.len() == n,
                ticks <= max_ticks,
                ran(old(self)@, ticks as nat, self@),
                self.clock <= old(self).clock + clock_need(ticks as nat * n),
                old(self).clock + clock_need(max_ticks as nat * n) <= u64::MAX,
            ensures
                ticks == max_ticks || self@.ledger.is_empty(),
            decreases max_ticks - ticks,
        {
            let ghost mid = self@;
            proof {
                assert((ticks as nat + 1) * n == ticks as nat * n + n) by (nonlinear_arith);
                assert((ticks as nat + 1) * n <= max_ticks as nat * n) by (nonlinear_arith)
                    requires
                        ticks < max_ticks,
                ;
            }
            self.tick();
            ticks += 1;
            proof {
                let before = (ticks as nat - 1) as nat;
                assert(ran(old(self)@, before, mid) && !mid.ledger.is_empty() && ticked(mid, self@));
            }
        }
        proof {
            law_run_lawful(old(self)@, ticks as nat, self@);
            assert forall|span: nat|
                ready(old(self)@) && spans(old(self)@.net, span) && max_ticks >= #[trigger] ticks_needed(
                    old(self)@,
                    span,
                ) implies self@.ledger.is_empty() by {
                law_everything_delivered(old(self)@, span, max_ticks as nat, ticks as nat, self@);
            }
        }
        ticks
    }
}

/// `log` is the log of a run of at most `max_ticks` ticks from `start`.
pub open spec fn is_outcome(start: DispatchView, max_ticks: nat, log: Seq<MoveView>) -> bool {
    exists|ticks: nat, end: DispatchView| #[trigger]
        finished(start, max_ticks, ticks, end) && end.log == log
}

/// The state in which a simulation starts.
pub open spec fn start_of(edges: Seq<Edge>, trains: Seq<Train>, packages: Seq<Package>) -> DispatchView {
    DispatchView {
        net: network_of(edge_views(edges)),
        trains: train_views(trains),
        ledger: LedgerView { in_network: package_views(packages), loads: Seq::empty() },
        clock: 0,
        log: Seq::empty(),
    }
}

/// Simulates the fleet: builds the network from `edges`, lets every package
/// wait where it starts, and runs ticks until everything is delivered or
/// `max_ticks` ticks are done. Returns the log of completed legs, in the
/// order in which they were completed.
pub fn simulate(edges: &Vec<Edge>, trains: Vec<Train>, packages: Vec<Package>, max_ticks: u32) -> (log:
    Vec<Move>)
    requires
        clock_need(max_ticks as nat * trains@.len()) <= u64::MAX,
    ensures
        is_outcome(start_of(edges@, trains@, packages@), max_ticks as nat, move_views(log@)),
        deliveries_true(move_views(log@)),
        delivered(move_views(log@)) <= packages@.len(),
        names_unique(package_views(packages@)) ==> pickups_distinct(move_views(log@)),
        forall|most: nat|
            ready(start_of(edges@, trains@, packages@)) && #[trigger] capped(edge_views(edges@), most)
                && max_ticks >= ticks_needed(
                start_of(edges@, trains@, packages@),
                2 * edges@.len() * most,
            ) ==> delivered(move_views(log@)) == packages@.len(),
{
    let mut d = Dispatcher::new(edges, trains, packages);
    let ghost start = d@;
    let ticks = d.run(max_ticks);
    proof {
        assert forall|most: nat|
            ready(start) && #[trigger] capped(edge_views(edges@), most) && max_ticks
                >= ticks_needed(start, 2 * edges@.len() * most) implies delivered(d@.log)
            == packages@.len() by {
            let span = 2 * edges@.len() * most;
            assert(edge_views(edges@).len() == edges@.len());
            law_span(edge_views(edges@), most);
            law_everything_delivered(start, span, max_ticks as nat, ticks as nat, d@);
        }
        assert(finished(start, max_ticks as nat, ticks as nat, d@));
        assert(delivered(start.log) == 0);
        assert(crate::ledger::aboard_count(start.ledger.loads) == 0);
    }
    d.log
}

} // verus!
