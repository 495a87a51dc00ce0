//! Why a simulation delivers everything: every turn in which a train has
//! something to do brings the fleet measurably closer to an empty ledger.
//!
//! The measure counts every waiting package twice and every package aboard
//! once, weighs that count by more than all trains together can be away from
//! their targets, and adds how far each train is from its target. A pickup
//! or a delivery lowers the count; a move that does neither lowers the
//! distance of the train that moved.

use vstd::prelude::*;
use crate::dispatch::{
    boarded, finished, fitting, is_next_hop, ran, spare, stepped, swept, target_of, ticked,
    weight_of, DispatchView,
};
use crate::graph::{law_network_positive, law_network_symmetric, network_of, positive, symmetric};
use crate::laws::{
    delivered, law_run_lawful, ledger_unique, lemma_boarded, lemma_boarded_all,
    lemma_boarded_unique, lemma_dropped_off, lemma_dropped_off_unique, lemma_fitting_fits,
    lemma_split_by_destination, lemma_unique_filter, names_unique, trains_distinct, within,
};
use crate::ledger::{
    aboard_count, bound_elsewhere, lemma_load_found, waits_at, LedgerView, LoadView,
};
use crate::model::{EdgeView, PackageView, Station, TrainView};
use crate::route::reachable;
use crate::span::{distance, lemma_hop_closer, lemma_reach_across, spans};

verus! {

/// What train `j` carries.
pub open spec fn carried_by(s: DispatchView, j: int) -> Seq<PackageView> {
    s.ledger.aboard(s.trains[j].name)
}

/// Every train can get to station `x`.
pub open spec fn reachable_by_all(s: DispatchView, x: Station) -> bool {
    forall|j: int| 0 <= j < s.trains.len() ==> reachable(s.net, (#[trigger] s.trains[j]).at, x)
}

/// Package `p` can be delivered by any train: it has somewhere to go, every
/// train can get to where it waits and to where it is bound, and it fits on
/// every train.
pub open spec fn deliverable(s: DispatchView, p: PackageView) -> bool {
    &&& p.start != p.destination
    &&& reachable_by_all(s, p.start)
    &&& reachable_by_all(s, p.destination)
    &&& forall|j: int| 0 <= j < s.trains.len() ==> p.weight <= (#[trigger] s.trains[j]).capacity
}

/// The states from which everything gets delivered: there is a train, names
/// are distinct, the network is symmetric with edges of positive cost, every
/// waiting package is deliverable, and every package aboard a train is bound
/// for a station other than where the train stands, which every train can
/// get to.
pub open spec fn ready(s: DispatchView) -> bool {
    &&& s.trains.len() >= 1
    &&& s.ledger.wf()
    &&& trains_distinct(s.trains)
    &&& ledger_unique(s.ledger)
    &&& symmetric(s.net)
    &&& positive(s.net)
    &&& forall|k: int|
        0 <= k < s.ledger.loads.len() ==> exists|j: int|
            0 <= j < s.trains.len() && (#[trigger] s.trains[j]).name == (
            #[trigger] s.ledger.loads[k]).train
    &&& forall|b: int|
        0 <= b < s.ledger.in_network.len() ==> deliverable(s, #[trigger] s.ledger.in_network[b])
    &&& forall|j: int, a: int|
        0 <= j < s.trains.len() && 0 <= a < carried_by(s, j).len() ==> (#[trigger] carried_by(
            s,
            j,
        )[a]).destination != s.trains[j].at && reachable_by_all(s, carried_by(s, j)[a].destination)
}

/// A simulation is ready at its start if there is a train, the trains have
/// distinct names and so have the packages, no train carries anything yet,
/// every edge takes a positive time, and every package is deliverable.
pub proof fn law_start_ready(edges: Seq<EdgeView>, s: DispatchView)
    requires
        s.net == network_of(edges),
        forall|e: int| 0 <= e < edges.len() ==> (#[trigger] edges[e]).cost >= 1,
        s.trains.len() >= 1,
        trains_distinct(s.trains),
        s.ledger.loads.len() == 0,
        names_unique(s.ledger.in_network),
        forall|b: int|
            0 <= b < s.ledger.in_network.len() ==> deliverable(s, #[trigger] s.ledger.in_network[b]),
    ensures
        ready(s),
{
    law_network_symmetric(edges);
    law_network_positive(edges);
    assert forall|j: int| 0 <= j < s.trains.len() implies (#[trigger] carried_by(s, j)).len()
        == 0 by {}
}

/// The work that is left: every waiting package counts twice (it has to be
/// picked up and dropped off), every package aboard once.
pub open spec fn backlog(s: DispatchView) -> nat {
    2 * s.ledger.in_network.len() + aboard_count(s.ledger.loads)
}

/// How far train `j` is from its target; zero where it has none.
pub open spec fn gap(s: DispatchView, j: int) -> nat {
    match target_of(s.ledger, s.trains[j].name) {
        Some(x) => distance(s.net, s.trains[j].at, x),
        None => 0,
    }
}

/// The gaps of the first `n` trains together.
pub open spec fn gaps(s: DispatchView, n: nat) -> nat
    decreases n,
{
    if n == 0 {
        0
    } else {
        gaps(s, (n - 1) as nat) + gap(s, n - 1)
    }
}

/// The weight of one unit of backlog: more than all gaps together can be.
pub open spec fn unit(s: DispatchView, span: nat) -> nat {
    s.trains.len() * span + 1
}

/// The measure that every busy turn lowers.
pub open spec fn measure(s: DispatchView, span: nat) -> nat {
    backlog(s) * unit(s, span) + gaps(s, s.trains.len())
}

/// The gaps of `n` trains are at most `n` spans.
pub(crate) proof fn lemma_gaps_bound(s: DispatchView, n: nat, span: nat)
    requires
        spans(s.net, span),
    ensures
        gaps(s, n) <= n * span,
    decreases n,
{
    if n > 0 {
        lemma_gaps_bound(s, (n - 1) as nat, span);
        assert(gap(s, n - 1) <= span);
        assert(n * span == (n - 1) * span + span) by (nonlinear_arith);
    }
}

/// The gaps of two states in which one train at most has come closer to its
/// target, by `d`, and no train has a wider gap.
pub(crate) proof fn lemma_gaps_closer(s: DispatchView, r: DispatchView, n: nat, i: int, d: nat)
    requires
        forall|j: int| 0 <= j < n && j != i ==> gap(r, j) == gap(s, j),
        0 <= i < n ==> gap(r, i) + d <= gap(s, i),
    ensures
        gaps(r, n) <= gaps(s, n),
        0 <= i < n ==> gaps(r, n) + d <= gaps(s, n),
    decreases n,
{
    if n > 0 {
        lemma_gaps_closer(s, r, (n - 1) as nat, i, d);
    }
}

/// Every load belongs to one of `owners`.
pub(crate) open spec fn owned(l: LedgerView, owners: Seq<Seq<char>>) -> bool {
    forall|k: int| 0 <= k < l.loads.len() ==> owners.contains((#[trigger] l.loads[k]).train)
}

/// Giving a train a new load leaves every load with an owner.
pub(crate) proof fn lemma_reloaded_owned(
    l: LedgerView,
    waiting: Seq<PackageView>,
    train: Seq<char>,
    packages: Seq<PackageView>,
    owners: Seq<Seq<char>>,
)
    requires
        owned(l, owners),
        owners.contains(train),
    ensures
        owned(LedgerView { in_network: waiting, loads: l.reloaded(train, packages) }, owners),
{
    let r = LedgerView { in_network: waiting, loads: l.reloaded(train, packages) };
    let at = l.load_of(train);
    assert forall|k: int| 0 <= k < r.loads.len() implies owners.contains(
        (#[trigger] r.loads[k]).train,
    ) by {
        if k < l.loads.len() && k != at {
            assert(r.loads[k] == l.loads[k]);
        }
    }
}

/// The load phase leaves every load with an owner.
pub(crate) proof fn lemma_boarded_owned(
    l: LedgerView,
    train: Seq<char>,
    accepted: Seq<PackageView>,
    owners: Seq<Seq<char>>,
)
    requires
        owned(l, owners),
        owners.contains(train),
    ensures
        owned(boarded(l, train, accepted), owners),
    decreases accepted.len(),
{
    if accepted.len() > 0 {
        let before = boarded(l, train, accepted.drop_last());
        let p = accepted.last();
        lemma_boarded_owned(l, train, accepted.drop_last(), owners);
        match before.in_network.index_of_first(p) {
            Some(j) => {
                lemma_reloaded_owned(
                    before,
                    before.in_network.remove(j),
                    train,
                    before.aboard(train).push(p),
                    owners,
                );
            },
            None => {},
        }
    }
}

/// The names of the trains.
pub(crate) open spec fn train_names(s: DispatchView) -> Seq<Seq<char>> {
    s.trains.map_values(|t: TrainView| t.name)
}

/// A train that carries nothing accepts the first package that waits at its
/// station, if that package fits its capacity.
pub(crate) proof fn lemma_first_fits(waiting: Seq<PackageView>, room: nat)
    requires
        waiting.len() > 0,
        waiting[0].weight <= room,
    ensures
        fitting(waiting, room) >= 1,
{
}

/// What the load phase of train `i` makes of a ready state: a ready state
/// in which the train carries what it accepted behind what it carried, the
/// network has lost just that, and no other train has changed.
pub(crate) proof fn lemma_load_ready(pre: DispatchView, i: int)
    requires
        ready(pre),
        0 <= i < pre.trains.len(),
    ensures
        ready(pre.loaded(i)),
        pre.loaded(i).ledger.in_network.len() + pre.accepted(i).len()
            == pre.ledger.in_network.len(),
        within(pre.loaded(i).ledger.in_network, pre.ledger.in_network),
        aboard_count(pre.loaded(i).ledger.loads) == aboard_count(pre.ledger.loads) + pre.accepted(
            i,
        ).len(),
        carried_by(pre.loaded(i), i) == carried_by(pre, i) + pre.accepted(i),
        forall|j: int|
            0 <= j < pre.trains.len() && j != i ==> #[trigger] carried_by(pre.loaded(i), j)
                == carried_by(pre, j),
        pre.accepted(i).len() == 0 ==> pre.loaded(i) == pre,
        carried_by(pre, i).len() == 0 && pre.ledger.waiting_at(pre.trains[i].at).len() > 0
            ==> pre.accepted(i).len() > 0,
{
    let t = pre.trains[i];
    let l = pre.ledger;
    let waiting = l.waiting_at(t.at);
    let room = spare(t.capacity, weight_of(l.aboard(t.name)));
    let accepted = pre.accepted(i);
    let mid = pre.loaded(i);
    let r = mid.ledger;
    lemma_unique_filter(l.in_network, waits_at(t.at));
    lemma_fitting_fits(waiting, room);
    assert(names_unique(accepted)) by {
        assert forall|a: int, b: int| 0 <= a < b < accepted.len() implies (#[trigger] accepted[a]).name
            != (#[trigger] accepted[b]).name by {
            assert(waiting[a].name != waiting[b].name);
        }
    }
    assert(within(accepted, l.in_network)) by {
        assert forall|a: int| 0 <= a < accepted.len() implies l.in_network.contains(
            #[trigger] accepted[a],
        ) by {
            assert(accepted[a] == waiting[a]);
        }
    }
    lemma_boarded(l, t.name, accepted);
    lemma_boarded_unique(l, t.name, accepted);
    lemma_boarded_all(l, t.name, accepted);
    let owners = train_names(pre);
    assert(owners.contains(t.name)) by {
        assert(owners[i] == t.name);
    }
    assert(owned(l, owners)) by {
        assert forall|k: int| 0 <= k < l.loads.len() implies owners.contains(
            (#[trigger] l.loads[k]).train,
        ) by {
            let j = choose|j: int|
                0 <= j < pre.trains.len() && (#[trigger] pre.trains[j]).name == l.loads[k].train;
            assert(owners[j] == pre.trains[j].name);
        }
    }
    lemma_boarded_owned(l, t.name, accepted, owners);
    assert forall|j: int| 0 <= j < pre.trains.len() && j != i implies #[trigger] carried_by(mid, j)
        == carried_by(pre, j) by {
        assert(pre.trains[j].name != t.name);
    }
    if accepted.len() == 0 {
        assert(mid == pre);
    }
    if l.aboard(t.name).len() == 0 && waiting.len() > 0 {
        assert(weight_of(l.aboard(t.name)) == 0);
        l.in_network.lemma_filter_pred(waits_at(t.at), 0);
        assert(l.in_network.contains(waiting[0]));
        let b = choose|b: int| 0 <= b < l.in_network.len() && l.in_network[b] == waiting[0];
        assert(deliverable(pre, l.in_network[b]));
        assert(pre.trains[i].capacity >= waiting[0].weight);
        lemma_first_fits(waiting, room);
        assert(waiting.take(fitting(waiting, room) as int).len() > 0);
    }
    // the loaded state is ready
    assert forall|k: int| 0 <= k < r.loads.len() implies exists|j: int|
        0 <= j < mid.trains.len() && (#[trigger] mid.trains[j]).name == (#[trigger] r.loads[k]).train by {
        assert(owners.contains(r.loads[k].train));
        let j = choose|j: int| 0 <= j < owners.len() && owners[j] == r.loads[k].train;
        assert(mid.trains[j].name == r.loads[k].train);
    }
    assert forall|b: int| 0 <= b < r.in_network.len() implies deliverable(
        mid,
        #[trigger] r.in_network[b],
    ) by {
        assert(l.in_network.contains(r.in_network[b]));
        let c = choose|c: int| 0 <= c < l.in_network.len() && l.in_network[c] == r.in_network[b];
        assert(deliverable(pre, l.in_network[c]));
    }
    assert forall|j: int, a: int|
        0 <= j < mid.trains.len() && 0 <= a < carried_by(mid, j).len() implies (#[trigger] carried_by(
        mid,
        j,
    )[a]).destination != mid.trains[j].at && reachable_by_all(
        mid,
        carried_by(mid, j)[a].destination,
    ) by {
        if j != i {
            assert(carried_by(mid, j) == carried_by(pre, j));
            assert(carried_by(pre, j)[a].destination != pre.trains[j].at);
        } else {
            let before = carried_by(pre, i);
            if a < before.len() {
                assert(carried_by(mid, i)[a] == before[a]);
                assert(before[a].destination != pre.trains[i].at);
            } else {
                let p = accepted[a - before.len()];
                assert(carried_by(mid, i)[a] == p);
                assert(p == waiting[a - before.len()]);
                l.in_network.lemma_filter_pred(waits_at(t.at), a - before.len());
                assert(l.in_network.contains(p));
                let c = choose|c: int| 0 <= c < l.in_network.len() && l.in_network[c] == p;
                assert(deliverable(pre, l.in_network[c]));
            }
        }
    }
}

/// What the move of train `i` to `hop` makes of a state that is ready once
/// the train has loaded: a ready state again. The backlog falls by what the
/// train dropped off; where it dropped nothing off, the ledger is as it was
/// and the train is nearer to its target.
pub(crate) proof fn lemma_move_ready(pre: DispatchView, i: int, hop: Station)
    requires
        0 <= i < pre.trains.len(),
        ready(pre.loaded(i)),
        pre.goal(i) is Some,
        is_next_hop(pre.net, pre.trains[i].at, pre.goal(i).unwrap(), hop),
    ensures
        ready(pre.advanced(i, hop)),
        backlog(pre.advanced(i, hop)) + pre.leg(i, hop).dropoff.len() == backlog(pre.loaded(i)),
        forall|j: int|
            0 <= j < pre.trains.len() && j != i ==> #[trigger] carried_by(pre.advanced(i, hop), j)
                == carried_by(pre.loaded(i), j),
        pre.leg(i, hop).dropoff.len() == 0 ==> {
            &&& pre.advanced(i, hop).ledger == pre.loaded(i).ledger
            &&& gap(pre.advanced(i, hop), i) + 1 <= gap(pre.loaded(i), i)
            &&& forall|j: int|
                0 <= j < pre.trains.len() && j != i ==> gap(pre.advanced(i, hop), j) == gap(
                    pre.loaded(i),
                    j,
                )
        },
{
    let mid = pre.loaded(i);
    let post = pre.advanced(i, hop);
    let t = pre.trains[i];
    let l = mid.ledger;
    let r = post.ledger;
    let x = pre.goal(i).unwrap();
    let carried = l.aboard(t.name);
    let kept = carried.filter(bound_elsewhere(hop));
    lemma_hop_closer(pre.net, t.at, x, hop);
    lemma_dropped_off(l, t.name, hop);
    lemma_dropped_off_unique(l, t.name, hop);
    lemma_split_by_destination(carried, hop);
    assert(post.trains[i].name == t.name && post.trains[i].at == hop);
    assert forall|j: int| 0 <= j < post.trains.len() && j != i implies #[trigger] post.trains[j]
        == mid.trains[j] by {}
    assert forall|j: int| 0 <= j < pre.trains.len() && j != i implies #[trigger] carried_by(post, j)
        == carried_by(mid, j) by {
        assert(mid.trains[j].name != t.name);
    }
    assert(trains_distinct(post.trains)) by {
        assert forall|a: int, b: int| 0 <= a < b < post.trains.len() implies (
        #[trigger] post.trains[a]).name != (#[trigger] post.trains[b]).name by {
            assert(mid.trains[a].name != mid.trains[b].name);
        }
    }
    // every train of `post` can get to what every train of `mid` could get to
    assert forall|y: Station| reachable_by_all(mid, y) implies #[trigger] reachable_by_all(
        post,
        y,
    ) by {
        assert forall|j: int| 0 <= j < post.trains.len() implies reachable(
            post.net,
            (#[trigger] post.trains[j]).at,
            y,
        ) by {
            assert(reachable(mid.net, mid.trains[j].at, y));
            if j == i {
                lemma_reach_across(pre.net, t.at, hop, y);
            }
        }
    }
    let owners = train_names(mid);
    assert(owners.contains(t.name)) by {
        assert(owners[i] == t.name);
    }
    assert(owned(l, owners)) by {
        assert forall|k: int| 0 <= k < l.loads.len() implies owners.contains(
            (#[trigger] l.loads[k]).train,
        ) by {
            let j = choose|j: int|
                0 <= j < mid.trains.len() && (#[trigger] mid.trains[j]).name == l.loads[k].train;
            assert(owners[j] == mid.trains[j].name);
        }
    }
    if l.load_of(t.name) >= 0 {
        lemma_reloaded_owned(l, l.in_network, t.name, kept, owners);
    }
    assert forall|k: int| 0 <= k < r.loads.len() implies exists|j: int|
        0 <= j < post.trains.len() && (#[trigger] post.trains[j]).name == (
        #[trigger] r.loads[k]).train by {
        assert(owners.contains(r.loads[k].train));
        let j = choose|j: int| 0 <= j < owners.len() && owners[j] == r.loads[k].train;
        assert(post.trains[j].name == r.loads[k].train);
    }
    assert forall|b: int| 0 <= b < r.in_network.len() implies deliverable(
        post,
        #[trigger] r.in_network[b],
    ) by {
        let p = l.in_network[b];
        assert(deliverable(mid, p));
        assert(reachable_by_all(post, p.start));
        assert(reachable_by_all(post, p.destination));
        assert forall|j: int| 0 <= j < post.trains.len() implies p.weight <= (
        #[trigger] post.trains[j]).capacity by {
            assert(p.weight <= mid.trains[j].capacity);
        }
    }
    lemma_unique_filter(carried, bound_elsewhere(hop));
    assert forall|j: int, a: int|
        0 <= j < post.trains.len() && 0 <= a < carried_by(post, j).len() implies (
    #[trigger] carried_by(post, j)[a]).destination != post.trains[j].at && reachable_by_all(
        post,
        carried_by(post, j)[a].destination,
    ) by {
        if j != i {
            assert(carried_by(post, j) == carried_by(mid, j));
            assert(carried_by(mid, j)[a].destination != mid.trains[j].at);
            assert(reachable_by_all(mid, carried_by(mid, j)[a].destination));
        } else {
            assert(carried_by(post, i) == kept);
            carried.lemma_filter_pred(bound_elsewhere(hop), a);
            assert(carried.contains(kept[a]));
            let c = choose|c: int| 0 <= c < carried.len() && carried[c] == kept[a];
            assert(carried_by(mid, i)[c] == kept[a]);
            assert(reachable_by_all(mid, carried_by(mid, i)[c].destination));
        }
    }
    if pre.leg(i, hop).dropoff.len() == 0 {
        assert(kept.len() == carried.len());
        assert(kept =~= carried) by {
            lemma_filter_all(carried, bound_elsewhere(hop));
        }
        assert(r.loads =~= l.loads);
        assert(r == l);
        assert(gap(post, i) + 1 <= gap(mid, i)) by {
            assert(pre.net[(t.at, hop)] >= 1);
        }
    }
}

/// A filter that keeps as many as there are keeps them all.
pub(crate) proof fn lemma_filter_all(s: Seq<PackageView>, f: spec_fn(PackageView) -> bool)
    requires
        s.filter(f).len() == s.len(),
    ensures
        s.filter(f) == s,
    decreases s.len(),
{
    reveal(Seq::filter);
    if s.len() > 0 {
        s.drop_last().lemma_filter_len(f);
        lemma_filter_all(s.drop_last(), f);
        assert(s.drop_last().push(s.last()) =~= s);
    }
}

/// Train `i` has something to do: a package waits somewhere, or it carries
/// one.
pub open spec fn busy(s: DispatchView, i: int) -> bool {
    s.ledger.in_network.len() > 0 || carried_by(s, i).len() > 0
}

/// One unit of backlog less outweighs whatever the gaps have become.
proof fn lemma_unit_outweighs(b0: nat, b1: nat, u: nat, g0: nat, g1: nat)
    requires
        b1 + 1 <= b0,
        g1 < u,
    ensures
        b1 * u + g1 < b0 * u + g0,
{
    assert((b1 + 1) * u <= b0 * u) by (nonlinear_arith)
        requires
            b1 + 1 <= b0,
    ;
    assert((b1 + 1) * u == b1 * u + u) by (nonlinear_arith);
}

/// One turn of one train, from a ready state, leads to a ready state and
/// does not raise the measure; the turn of a train that has something to do
/// lowers it. No other train's load is touched.
pub proof fn law_turn_progress(pre: DispatchView, i: int, post: DispatchView, span: nat)
    requires
        ready(pre),
        spans(pre.net, span),
        0 <= i < pre.trains.len(),
        stepped(pre, i, post),
    ensures
        ready(post),
        measure(post, span) <= measure(pre, span),
        busy(pre, i) ==> measure(post, span) < measure(pre, span),
        post.trains.len() == pre.trains.len(),
        post.net == pre.net,
        post.ledger.in_network.len() <= pre.ledger.in_network.len(),
        forall|j: int|
            0 <= j < pre.trains.len() && j != i ==> #[trigger] carried_by(post, j) == carried_by(
                pre,
                j,
            ),
{
    let n = pre.trains.len();
    let mid = pre.loaded(i);
    let accepted = pre.accepted(i);
    let t = pre.trains[i];
    lemma_load_ready(pre, i);
    lemma_gaps_bound(post, n, span);
    assert(backlog(mid) + accepted.len() == backlog(pre));
    if pre.can_move(i) {
        let hop = post.trains[i].at;
        lemma_move_ready(pre, i, hop);
        let dropped = pre.leg(i, hop).dropoff.len();
        assert forall|j: int| 0 <= j < n && j != i implies #[trigger] carried_by(post, j)
            == carried_by(pre, j) by {
            assert(carried_by(mid, j) == carried_by(pre, j));
        }
        if accepted.len() + dropped >= 1 {
            lemma_unit_outweighs(
                backlog(pre),
                backlog(post),
                unit(pre, span),
                gaps(pre, n),
                gaps(post, n),
            );
        } else {
            lemma_gaps_closer(pre, post, n, i, 1);
        }
    } else {
        if accepted.len() >= 1 {
            lemma_unit_outweighs(
                backlog(pre),
                backlog(post),
                unit(pre, span),
                gaps(pre, n),
                gaps(post, n),
            );
        } else if busy(pre, i) {
            let l = pre.ledger;
            if carried_by(pre, i).len() > 0 {
                let x = carried_by(pre, i)[0].destination;
                assert(x != t.at);
                assert(reachable_by_all(pre, x));
                assert(reachable(pre.net, pre.trains[i].at, x));
            } else {
                let p = l.in_network[0];
                assert(deliverable(pre, p));
                assert(reachable(pre.net, pre.trains[i].at, p.start));
                if p.start == t.at {
                    l.in_network.lemma_filter_contains(waits_at(t.at), 0);
                    let w = l.waiting_at(t.at);
                    assert(w.contains(p));
                }
            }
        }
    }
}

/// Some train among the first `n` has something to do.
pub(crate) open spec fn due(s: DispatchView, n: nat) -> bool {
    ||| n >= 1 && s.ledger.in_network.len() > 0
    ||| exists|j: int| 0 <= j < n && (#[trigger] carried_by(s, j)).len() > 0
}

/// The turns of the first `n` trains, from a ready state, lead to a ready
/// state and do not raise the measure; they lower it if one of those trains
/// had something to do.
pub(crate) proof fn lemma_sweep_progress(pre: DispatchView, n: nat, post: DispatchView, span: nat)
    requires
        ready(pre),
        spans(pre.net, span),
        n <= pre.trains.len(),
        swept(pre, n, post),
    ensures
        ready(post),
        measure(post, span) <= measure(pre, span),
        due(pre, n) ==> measure(post, span) < measure(pre, span),
        post.trains.len() == pre.trains.len(),
        post.net == pre.net,
        post.ledger.in_network.len() <= pre.ledger.in_network.len(),
        forall|j: int|
            n <= j < pre.trains.len() ==> #[trigger] carried_by(post, j) == carried_by(pre, j),
    decreases n,
{
    if n > 0 {
        let i = (n - 1) as nat;
        let mid = choose|mid: DispatchView| swept(pre, i, mid) && #[trigger] stepped(mid, i as int, post);
        lemma_sweep_progress(pre, i, mid, span);
        law_turn_progress(mid, i as int, post, span);
        assert forall|j: int| n <= j < pre.trains.len() implies #[trigger] carried_by(post, j)
            == carried_by(pre, j) by {
            assert(carried_by(mid, j) == carried_by(pre, j));
        }
        if due(pre, n) && !due(pre, i) {
            if pre.ledger.in_network.len() > 0 {
                assert(i == 0);
                assert(mid == pre);
            } else {
                let j = choose|j: int| 0 <= j < n && (#[trigger] carried_by(pre, j)).len() > 0;
                assert(j == i);
                assert(carried_by(mid, i as int) == carried_by(pre, i as int));
            }
            assert(busy(mid, i as int));
        }
    }
}

/// A tick that begins with a ledger that is not empty lowers the measure.
pub proof fn law_tick_progress(pre: DispatchView, post: DispatchView, span: nat)
    requires
        ready(pre),
        spans(pre.net, span),
        ticked(pre, post),
    ensures
        ready(post),
        measure(post, span) <= measure(pre, span),
        !pre.ledger.is_empty() ==> measure(post, span) < measure(pre, span),
        post.trains.len() == pre.trains.len(),
        post.net == pre.net,
{
    lemma_sweep_progress(pre, pre.trains.len(), post, span);
    if !pre.ledger.is_empty() && pre.ledger.in_network.len() == 0 {
        let l = pre.ledger;
        let k = choose|k: int| 0 <= k < l.loads.len() && (#[trigger] l.loads[k]).packages.len() != 0;
        let j = choose|j: int|
            0 <= j < pre.trains.len() && (#[trigger] pre.trains[j]).name == l.loads[k].train;
        lemma_load_found(l, k);
        assert(carried_by(pre, j).len() > 0);
    }
}

/// Every tick of a run from a ready state lowers the measure by one at least.
pub proof fn law_run_progress(pre: DispatchView, ticks: nat, post: DispatchView, span: nat)
    requires
        ready(pre),
        spans(pre.net, span),
        ran(pre, ticks, post),
    ensures
        ready(post),
        measure(post, span) + ticks <= measure(pre, span),
        post.trains.len() == pre.trains.len(),
        post.net == pre.net,
    decreases ticks,
{
    if ticks > 0 {
        let before = (ticks - 1) as nat;
        let mid = choose|mid: DispatchView|
            ran(pre, before, mid) && !mid.ledger.is_empty() && #[trigger] ticked(mid, post);
        law_run_progress(pre, before, mid, span);
        law_tick_progress(mid, post, span);
    }
}

/// A number of ticks that is enough to deliver everything from state `s`
/// in a network that `span` spans.
pub open spec fn ticks_needed(s: DispatchView, span: nat) -> nat {
    (backlog(s) + 1) * unit(s, span)
}

/// Termination with an empty ledger: a run from a ready state whose ceiling
/// is at least `ticks_needed` ends before the ceiling, with nothing waiting
/// and nothing aboard any train.
pub proof fn law_everything_delivered(
    start: DispatchView,
    span: nat,
    max_ticks: nat,
    ticks: nat,
    end: DispatchView,
)
    requires
        ready(start),
        spans(start.net, span),
        max_ticks >= ticks_needed(start, span),
        finished(start, max_ticks, ticks, end),
    ensures
        end.ledger.is_empty(),
        ticks < max_ticks,
        end.ledger.total() == 0,
        delivered(end.log) == start.ledger.total() + delivered(start.log),
{
    let n = start.trains.len();
    law_run_progress(start, ticks, end, span);
    lemma_gaps_bound(start, n, span);
    let b = backlog(start);
    let u = unit(start, span);
    assert((b + 1) * u == b * u + u) by (nonlinear_arith);
    assert(measure(start, span) < ticks_needed(start, span));
    assert(ticks < max_ticks);
    assert(end.ledger.is_empty());
    law_run_lawful(start, ticks, end);
    assert(end.ledger.total() == 0) by {
        if end.ledger.loads.len() > 0 {
            lemma_all_empty(end.ledger.loads);
        }
    }
}

/// Loads that are all empty hold no package.
pub(crate) proof fn lemma_all_empty(loads: Seq<LoadView>)
    requires
        forall|k: int| 0 <= k < loads.len() ==> (#[trigger] loads[k]).packages.len() == 0,
    ensures
        aboard_count(loads) == 0,
    decreases loads.len(),
{
    if loads.len() > 0 {
        assert forall|k: int| 0 <= k < loads.drop_last().len() implies (
        #[trigger] loads.drop_last()[k]).packages.len() == 0 by {
            assert(loads.drop_last()[k] == loads[k]);
        }
        lemma_all_empty(loads.drop_last());
    }
}

} // verus!
