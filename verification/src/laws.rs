//! What holds of every simulation: packages are conserved, no train is ever
//! overloaded, and no package is picked up twice.
//!
//! The laws are stated over the relations that the dispatcher's contracts
//! use (`stepped`, `ticked`, `ran`), so they hold of every run.

use vstd::prelude::*;
use crate::dispatch::{
    boarded, fitting, ran, spare, stepped, swept, ticked, weight_of, DispatchView,
};
use crate::ledger::{aboard_count, bound_elsewhere, bound_for, LedgerView, LoadView};
use crate::model::{MoveView, PackageView, TrainView};

verus! {

/// The weight of a sequence with one more package at its end.
pub(crate) proof fn lemma_weight_push(s: Seq<PackageView>, p: PackageView)
    ensures
        weight_of(s.push(p)) == weight_of(s) + p.weight,
{
    assert(s.push(p).drop_last() =~= s);
}

/// The weight of a sequence, taken from its front.
pub(crate) proof fn lemma_weight_front(s: Seq<PackageView>)
    requires
        s.len() > 0,
    ensures
        weight_of(s) == s[0].weight + weight_of(s.drop_first()),
    decreases s.len(),
{
    if s.len() == 1 {
        assert(s.drop_last() =~= Seq::empty());
        assert(s.drop_first() =~= Seq::empty());
    } else {
        lemma_weight_front(s.drop_last());
        assert(s.drop_last().drop_first() =~= s.drop_first().drop_last());
    }
}

/// What a train accepts weighs no more than the room it had.
pub(crate) proof fn lemma_fitting_fits(waiting: Seq<PackageView>, room: nat)
    ensures
        fitting(waiting, room) <= waiting.len(),
        weight_of(waiting.take(fitting(waiting, room) as int)) <= room,
    decreases waiting.len(),
{
    let k = fitting(waiting, room);
    if waiting.len() == 0 || waiting[0].weight > room {
        assert(waiting.take(0) =~= Seq::empty());
    } else {
        let rest = waiting.drop_first();
        let left = (room - waiting[0].weight) as nat;
        lemma_fitting_fits(rest, left);
        let taken = waiting.take(k as int);
        assert(taken.drop_first() =~= rest.take(fitting(rest, left) as int));
        lemma_weight_front(taken);
    }
}

/// Packages that are filtered out of a sequence take their weight with them.
pub(crate) proof fn lemma_weight_filter(s: Seq<PackageView>, f: spec_fn(PackageView) -> bool)
    ensures
        weight_of(s.filter(f)) <= weight_of(s),
    decreases s.len(),
{
    reveal(Seq::filter);
    if s.len() > 0 {
        lemma_weight_filter(s.drop_last(), f);
        if f(s.last()) {
            lemma_weight_push(s.drop_last().filter(f), s.last());
        }
    }
}

/// Of the packages aboard, those bound for a station and those bound
/// elsewhere are all there is.
pub(crate) proof fn lemma_split_by_destination(s: Seq<PackageView>, station: Seq<char>)
    ensures
        s.filter(bound_for(station)).len() + s.filter(bound_elsewhere(station)).len() == s.len(),
    decreases s.len(),
{
    reveal(Seq::filter);
    if s.len() > 0 {
        lemma_split_by_destination(s.drop_last(), station);
    }
}

/// The count of packages aboard when one load is replaced.
pub(crate) proof fn lemma_count_update(loads: Seq<LoadView>, k: int, load: LoadView)
    requires
        0 <= k < loads.len(),
    ensures
        aboard_count(loads.update(k, load)) + loads[k].packages.len() == aboard_count(loads)
            + load.packages.len(),
    decreases loads.len(),
{
    let after = loads.update(k, load);
    if k == loads.len() - 1 {
        assert(after.drop_last() =~= loads.drop_last());
    } else {
        lemma_count_update(loads.drop_last(), k, load);
        assert(after.drop_last() =~= loads.drop_last().update(k, load));
    }
}

/// The count of packages aboard when a load is added.
pub(crate) proof fn lemma_count_push(loads: Seq<LoadView>, load: LoadView)
    ensures
        aboard_count(loads.push(load)) == aboard_count(loads) + load.packages.len(),
{
    assert(loads.push(load).drop_last() =~= loads);
}

/// Replacing what one train carries leaves every other train's load alone.
pub(crate) proof fn lemma_reloaded(
    l: LedgerView,
    waiting: Seq<PackageView>,
    train: Seq<char>,
    packages: Seq<PackageView>,
)
    requires
        l.wf(),
    ensures
        ({
            let r = LedgerView { in_network: waiting, loads: l.reloaded(train, packages) };
            &&& r.wf()
            &&& r.load_of(train) >= 0
            &&& r.aboard(train) == packages
            &&& forall|other: Seq<char>| other != train ==> #[trigger] r.aboard(other) == l.aboard(other)
            &&& aboard_count(r.loads) + l.aboard(train).len() == aboard_count(l.loads)
                + packages.len()
        }),
{
    let r = LedgerView { in_network: waiting, loads: l.reloaded(train, packages) };
    let k = l.load_of(train);
    let load = LoadView { train, packages };
    if k >= 0 {
        assert(0 <= k < l.loads.len() && l.loads[k].train == train);
        assert(r.loads == l.loads.update(k, load));
        assert forall|i: int| 0 <= i < r.loads.len() implies (#[trigger] r.loads[i]).train
            == l.loads[i].train by {}
        assert(r.wf()) by {
            assert forall|i: int, j: int| 0 <= i < j < r.loads.len() implies (#[trigger] r.loads[i]).train
                != (#[trigger] r.loads[j]).train by {
                assert(l.loads[i].train != l.loads[j].train);
            }
        }
        assert(r.loads[k].train == train);
        crate::ledger::lemma_load_found(r, k);
        lemma_count_update(l.loads, k, load);
        assert forall|other: Seq<char>| other != train implies #[trigger] r.aboard(other)
            == l.aboard(other) by {
            let a = l.load_of(other);
            let b = r.load_of(other);
            if a >= 0 {
                assert(0 <= a < l.loads.len() && l.loads[a].train == other);
                assert(r.loads[a].train == other);
                crate::ledger::lemma_load_found(r, a);
            } else if b >= 0 {
                assert(0 <= b < r.loads.len() && r.loads[b].train == other);
                assert(l.loads[b].train == other);
            }
        }
    } else {
        let n = l.loads.len() as int;
        assert(r.loads == l.loads.push(load));
        assert forall|i: int| 0 <= i < n implies (#[trigger] l.loads[i]).train != train by {}
        assert(r.wf()) by {
            assert forall|i: int, j: int| 0 <= i < j < r.loads.len() implies (#[trigger] r.loads[i]).train
                != (#[trigger] r.loads[j]).train by {
                assert(r.loads[i] == l.loads[i]);
                if j < n {
                    assert(r.loads[j] == l.loads[j]);
                }
            }
        }
        assert(r.loads[n].train == train);
        crate::ledger::lemma_load_found(r, n);
        lemma_count_push(l.loads, load);
        assert forall|other: Seq<char>| other != train implies #[trigger] r.aboard(other)
            == l.aboard(other) by {
            let a = l.load_of(other);
            let b = r.load_of(other);
            if a >= 0 {
                assert(0 <= a < l.loads.len() && l.loads[a].train == other);
                assert(r.loads[a] == l.loads[a]);
                crate::ledger::lemma_load_found(r, a);
            } else if b >= 0 {
                assert(0 <= b < r.loads.len() && r.loads[b].train == other);
                assert(b != n);
                assert(l.loads[b] == r.loads[b]);
            }
        }
    }
}

/// What a pickup does to a ledger: the package moves from the network onto
/// the train, every other train keeps its load, and nothing is lost.
pub(crate) proof fn lemma_picked_up(l: LedgerView, train: Seq<char>, p: PackageView)
    requires
        l.wf(),
    ensures
        ({
            let r = l.picked_up(train, p);
            &&& r.wf()
            &&& r.total() == l.total()
            &&& forall|other: Seq<char>| other != train ==> #[trigger] r.aboard(other) == l.aboard(other)
            &&& match l.in_network.index_of_first(p) {
                Some(j) => {
                    &&& 0 <= j < l.in_network.len()
                    &&& l.in_network[j] == p
                    &&& r.in_network == l.in_network.remove(j)
                    &&& r.aboard(train) == l.aboard(train).push(p)
                },
                None => r == l && !l.in_network.contains(p),
            }
        }),
{
    l.in_network.index_of_first_ensures(p);
    match l.in_network.index_of_first(p) {
        Some(j) => {
            lemma_reloaded(l, l.in_network.remove(j), train, l.aboard(train).push(p));
        },
        None => {},
    }
}

/// What unloading does to a ledger: the train keeps what is bound elsewhere,
/// every other train keeps its load, and what leaves the ledger is exactly
/// what was bound for the station.
pub(crate) proof fn lemma_dropped_off(l: LedgerView, train: Seq<char>, station: Seq<char>)
    requires
        l.wf(),
    ensures
        ({
            let r = l.dropped_off(train, station);
            &&& r.wf()
            &&& r.in_network == l.in_network
            &&& r.aboard(train) == l.aboard(train).filter(bound_elsewhere(station))
            &&& forall|other: Seq<char>| other != train ==> #[trigger] r.aboard(other) == l.aboard(other)
            &&& r.total() + l.aboard(train).filter(bound_for(station)).len() == l.total()
        }),
{
    let carried = l.aboard(train);
    lemma_split_by_destination(carried, station);
    if l.load_of(train) >= 0 {
        lemma_reloaded(l, l.in_network, train, carried.filter(bound_elsewhere(station)));
    } else {
        reveal(Seq::filter);
        assert(carried.filter(bound_elsewhere(station)) =~= carried);
    }
}

/// What the load phase does to a ledger: nothing is lost, every other train
/// keeps its load, and the train gains no more weight than it accepted.
pub(crate) proof fn lemma_boarded(l: LedgerView, train: Seq<char>, accepted: Seq<PackageView>)
    requires
        l.wf(),
    ensures
        ({
            let r = boarded(l, train, accepted);
            &&& r.wf()
            &&& r.total() == l.total()
            &&& forall|other: Seq<char>| other != train ==> #[trigger] r.aboard(other) == l.aboard(other)
            &&& weight_of(r.aboard(train)) <= weight_of(l.aboard(train)) + weight_of(accepted)
        }),
    decreases accepted.len(),
{
    if accepted.len() > 0 {
        let before = boarded(l, train, accepted.drop_last());
        let p = accepted.last();
        lemma_boarded(l, train, accepted.drop_last());
        lemma_picked_up(before, train, p);
        before.in_network.index_of_first_ensures(p);
        lemma_weight_push(before.aboard(train), p);
        let r = before.picked_up(train, p);
        assert forall|other: Seq<char>| other != train implies #[trigger] r.aboard(other)
            == l.aboard(other) by {
            assert(before.aboard(other) == l.aboard(other));
        }
    }
}

/// How many packages the legs of a log have delivered.
pub open spec fn delivered(log: Seq<MoveView>) -> nat
    decreases log.len(),
{
    if log.len() == 0 {
        0
    } else {
        delivered(log.drop_last()) + log.last().dropoff.len()
    }
}

/// Every package that a leg of the log dropped off was bound for the station
/// at which that leg ended.
pub open spec fn deliveries_true(log: Seq<MoveView>) -> bool {
    forall|m: int, a: int|
        0 <= m < log.len() && 0 <= a < log[m].dropoff.len() ==> (#[trigger] log[m].dropoff[a]).destination
            == log[m].end
}

/// No two trains share a name.
pub open spec fn trains_distinct(trains: Seq<TrainView>) -> bool {
    forall|i: int, j: int|
        0 <= i < j < trains.len() ==> (#[trigger] trains[i]).name != (#[trigger] trains[j]).name
}

/// No train carries more than its capacity.
pub open spec fn within_capacity(s: DispatchView) -> bool {
    forall|i: int|
        0 <= i < s.trains.len() ==> weight_of(s.ledger.aboard((#[trigger] s.trains[i]).name))
            <= s.trains[i].capacity
}

/// The fleet and the network of `post` are those of `pre`: a train may stand
/// elsewhere, but it keeps its name and its capacity. The log of `pre` is the
/// beginning of the log of `post`, and the clock has not gone back.
pub open spec fn same_fleet(pre: DispatchView, post: DispatchView) -> bool {
    &&& post.net == pre.net
    &&& post.trains.len() == pre.trains.len()
    &&& forall|i: int|
        0 <= i < pre.trains.len() ==> (#[trigger] post.trains[i]).name == pre.trains[i].name
            && post.trains[i].capacity == pre.trains[i].capacity
    &&& pre.log.len() <= post.log.len()
    &&& post.log.take(pre.log.len() as int) == pre.log
    &&& pre.clock <= post.clock
}

/// Conservation: the packages in the ledger never grow in number, and what
/// has left the ledger since `pre` is exactly what the log has recorded as
/// dropped off since then; each of those was dropped at its destination.
pub open spec fn conserved(pre: DispatchView, post: DispatchView) -> bool {
    &&& post.ledger.total() <= pre.ledger.total()
    &&& post.ledger.total() + delivered(post.log) == pre.ledger.total() + delivered(pre.log)
    &&& deliveries_true(pre.log) ==> deliveries_true(post.log)
}

/// The capacity invariant is kept: if the trains have distinct names and none
/// was overloaded in `pre`, none is overloaded in `post`.
pub open spec fn capacity_kept(pre: DispatchView, post: DispatchView) -> bool {
    trains_distinct(pre.trains) && within_capacity(pre) ==> trains_distinct(post.trains)
        && within_capacity(post)
}

/// The log with one more leg has delivered that leg's packages more.
pub(crate) proof fn lemma_delivered_push(log: Seq<MoveView>, m: MoveView)
    ensures
        delivered(log.push(m)) == delivered(log) + m.dropoff.len(),
{
    assert(log.push(m).drop_last() =~= log);
}

/// The load phase overloads no train.
pub(crate) proof fn lemma_load_within_capacity(pre: DispatchView, i: int)
    requires
        0 <= i < pre.trains.len(),
        pre.ledger.wf(),
        trains_distinct(pre.trains),
        within_capacity(pre),
    ensures
        within_capacity(pre.loaded(i)),
{
    let t = pre.trains[i];
    let waiting = pre.ledger.waiting_at(t.at);
    let room = spare(t.capacity, weight_of(pre.ledger.aboard(t.name)));
    lemma_fitting_fits(waiting, room);
    lemma_boarded(pre.ledger, t.name, pre.accepted(i));
    let post = pre.loaded(i);
    assert forall|j: int| 0 <= j < post.trains.len() implies weight_of(
        post.ledger.aboard((#[trigger] post.trains[j]).name),
    ) <= post.trains[j].capacity by {
        if j != i {
            assert(pre.trains[j].name != t.name);
        }
    }
}

/// One turn of one train keeps the fleet, conserves the packages and
/// overloads no train, neither when the turn is over nor in between, when
/// the train has loaded and not yet unloaded.
pub proof fn law_turn(pre: DispatchView, i: int, post: DispatchView)
    requires
        0 <= i < pre.trains.len(),
        pre.ledger.wf(),
        stepped(pre, i, post),
    ensures
        post.ledger.wf(),
        same_fleet(pre, post),
        conserved(pre, post),
        capacity_kept(pre, post),
        capacity_kept(pre, pre.loaded(i)),
{
    let t = pre.trains[i];
    let mid = pre.loaded(i);
    lemma_boarded(pre.ledger, t.name, pre.accepted(i));
    if trains_distinct(pre.trains) && within_capacity(pre) {
        lemma_load_within_capacity(pre, i);
    }
    if pre.can_move(i) {
        let hop = post.trains[i].at;
        let leg = pre.leg(i, hop);
        lemma_dropped_off(mid.ledger, t.name, hop);
        lemma_delivered_push(pre.log, leg);
        assert(post.log.take(pre.log.len() as int) =~= pre.log);
        if deliveries_true(pre.log) {
            assert forall|m: int, a: int|
                0 <= m < post.log.len() && 0 <= a < post.log[m].dropoff.len() implies (
            #[trigger] post.log[m].dropoff[a]).destination == post.log[m].end by {
                if m < pre.log.len() {
                    assert(post.log[m] == pre.log[m]);
                } else {
                    mid.ledger.aboard(t.name).lemma_filter_pred(bound_for(hop), a);
                }
            }
        }
        if trains_distinct(pre.trains) && within_capacity(pre) {
            lemma_weight_filter(mid.ledger.aboard(t.name), bound_elsewhere(hop));
            assert forall|j: int| 0 <= j < post.trains.len() implies weight_of(
                post.ledger.aboard((#[trigger] post.trains[j]).name),
            ) <= post.trains[j].capacity by {
                assert(weight_of(mid.ledger.aboard(mid.trains[j].name)) <= mid.trains[j].capacity);
                if j != i {
                    assert(pre.trains[j].name != t.name);
                }
            }
            assert forall|a: int, b: int| 0 <= a < b < post.trains.len() implies (
            #[trigger] post.trains[a]).name != (#[trigger] post.trains[b]).name by {
                assert(pre.trains[a].name != pre.trains[b].name);
            }
        }
    } else {
        assert(post.log.take(pre.log.len() as int) =~= pre.log);
    }
}

/// No two packages of `a` share a name.
pub open spec fn names_unique(a: Seq<PackageView>) -> bool {
    forall|i: int, j: int| 0 <= i < j < a.len() ==> (#[trigger] a[i]).name != (#[trigger] a[j]).name
}

/// No package of `a` shares its name with a package of `b`.
pub open spec fn names_apart(a: Seq<PackageView>, b: Seq<PackageView>) -> bool {
    forall|i: int, j: int|
        0 <= i < a.len() && 0 <= j < b.len() ==> (#[trigger] a[i]).name != (#[trigger] b[j]).name
}

/// Every package of `a` is one of `b`.
pub(crate) open spec fn within(a: Seq<PackageView>, b: Seq<PackageView>) -> bool {
    forall|i: int| 0 <= i < a.len() ==> b.contains(#[trigger] a[i])
}

/// Some package of `a` has the name `name`.
pub(crate) open spec fn named_in(a: Seq<PackageView>, name: Seq<char>) -> bool {
    exists|i: int| 0 <= i < a.len() && (#[trigger] a[i]).name == name
}

/// Every package is in one place only: no name occurs twice among the
/// packages that wait and those aboard the trains.
pub open spec fn ledger_unique(l: LedgerView) -> bool {
    &&& names_unique(l.in_network)
    &&& forall|k: int|
        0 <= k < l.loads.len() ==> names_unique((#[trigger] l.loads[k]).packages) && names_apart(
            l.loads[k].packages,
            l.in_network,
        )
    &&& forall|k: int, m: int|
        0 <= k < m < l.loads.len() ==> names_apart(
            (#[trigger] l.loads[k]).packages,
            (#[trigger] l.loads[m]).packages,
        )
}

/// No name occurs twice among the pickups of the log, and none of them is the
/// name of a package that still waits.
pub open spec fn picked_once(log: Seq<MoveView>, waiting: Seq<PackageView>) -> bool {
    &&& forall|m: int|
        0 <= m < log.len() ==> names_unique((#[trigger] log[m]).pickup) && names_apart(
            log[m].pickup,
            waiting,
        )
    &&& forall|m: int, n: int|
        0 <= m < n < log.len() ==> names_apart((#[trigger] log[m]).pickup, (#[trigger] log[n]).pickup)
}

/// No package name occurs twice among the pickups of the log, be it in one
/// leg or in two.
pub open spec fn pickups_distinct(log: Seq<MoveView>) -> bool {
    picked_once(log, Seq::empty())
}

/// No package is picked up twice: every name is in one place in the ledger,
/// and in one pickup list of the log at most.
pub open spec fn once_only(s: DispatchView) -> bool {
    ledger_unique(s.ledger) && picked_once(s.log, s.ledger.in_network)
}

/// If no package was picked up twice up to `pre`, none is up to `post`.
pub open spec fn pickups_kept(pre: DispatchView, post: DispatchView) -> bool {
    once_only(pre) ==> once_only(post)
}

/// Taking one package out of a sequence of distinct names takes its name out.
pub(crate) proof fn lemma_unique_remove(a: Seq<PackageView>, j: int)
    requires
        names_unique(a),
        0 <= j < a.len(),
    ensures
        names_unique(a.remove(j)),
        within(a.remove(j), a),
        !named_in(a.remove(j), a[j].name),
        forall|x: int| 0 <= x < a.len() && x != j ==> a.remove(j).contains(#[trigger] a[x]),
{
    let r = a.remove(j);
    assert forall|x: int| 0 <= x < r.len() implies #[trigger] r[x] == a[if x < j {
        x
    } else {
        x + 1
    }] by {}
    assert forall|x: int, y: int| 0 <= x < y < r.len() implies (#[trigger] r[x]).name != (
    #[trigger] r[y]).name by {
        let x0 = if x < j {
            x
        } else {
            x + 1
        };
        let y0 = if y < j {
            y
        } else {
            y + 1
        };
        assert(a[x0].name != a[y0].name);
    }
    assert forall|x: int| 0 <= x < r.len() implies a.contains(#[trigger] r[x]) by {
        let x0 = if x < j {
            x
        } else {
            x + 1
        };
        assert(a[x0] == r[x]);
    }
    assert forall|x: int| 0 <= x < r.len() implies (#[trigger] r[x]).name != a[j].name by {
        let x0 = if x < j {
            x
        } else {
            x + 1
        };
        if x0 < j {
            assert(a[x0].name != a[j].name);
        } else {
            assert(a[j].name != a[x0].name);
        }
    }
    assert forall|x: int| 0 <= x < a.len() && x != j implies r.contains(#[trigger] a[x]) by {
        let x1 = if x < j {
            x
        } else {
            x - 1
        };
        assert(r[x1] == a[x]);
    }
}

/// Filtering a sequence of distinct names leaves distinct names.
pub(crate) proof fn lemma_unique_filter(a: Seq<PackageView>, f: spec_fn(PackageView) -> bool)
    ensures
        within(a.filter(f), a),
        names_unique(a) ==> names_unique(a.filter(f)),
    decreases a.len(),
{
    reveal(Seq::filter);
    if a.len() > 0 {
        let front = a.drop_last();
        let kept = front.filter(f);
        lemma_unique_filter(front, f);
        let r = a.filter(f);
        assert forall|i: int| 0 <= i < r.len() implies a.contains(#[trigger] r[i]) by {
            if i < kept.len() {
                assert(front.contains(kept[i]));
                let y = choose|y: int| 0 <= y < front.len() && front[y] == kept[i];
                assert(a[y] == r[i]);
            } else {
                assert(a[a.len() - 1] == r[i]);
            }
        }
        if names_unique(a) {
            assert(names_unique(front)) by {
                assert forall|i: int, j: int| 0 <= i < j < front.len() implies (#[trigger] front[i]).name
                    != (#[trigger] front[j]).name by {
                    assert(a[i].name != a[j].name);
                }
            }
            assert forall|i: int, j: int| 0 <= i < j < r.len() implies (#[trigger] r[i]).name != (
            #[trigger] r[j]).name by {
                if j < kept.len() {
                    assert(kept[i].name != kept[j].name);
                } else {
                    assert(front.contains(kept[i]));
                    let y = choose|y: int| 0 <= y < front.len() && front[y] == kept[i];
                    assert(a[y].name != a[a.len() - 1].name);
                }
            }
        }
    }
}

/// Names that are apart from a sequence are apart from any part of it.
pub(crate) proof fn lemma_apart_within(x: Seq<PackageView>, a: Seq<PackageView>, b: Seq<PackageView>)
    requires
        names_apart(x, b),
        within(a, b),
    ensures
        names_apart(x, a),
        names_apart(a, x),
{
    assert forall|i: int, j: int| 0 <= i < x.len() && 0 <= j < a.len() implies (#[trigger] x[i]).name
        != (#[trigger] a[j]).name by {
        assert(b.contains(a[j]));
        let y = choose|y: int| 0 <= y < b.len() && b[y] == a[j];
        assert(x[i].name != b[y].name);
    }
}

/// Replacing what one train carries keeps every package in one place, if the
/// new load has distinct names that occur nowhere else in the new ledger.
pub(crate) proof fn lemma_reloaded_unique(
    l: LedgerView,
    waiting: Seq<PackageView>,
    train: Seq<char>,
    packages: Seq<PackageView>,
)
    requires
        ledger_unique(l),
        within(waiting, l.in_network),
        names_unique(waiting),
        names_unique(packages),
        names_apart(packages, waiting),
        forall|k: int|
            0 <= k < l.loads.len() && k != l.load_of(train) ==> names_apart(
                (#[trigger] l.loads[k]).packages,
                packages,
            ),
    ensures
        ledger_unique(LedgerView { in_network: waiting, loads: l.reloaded(train, packages) }),
{
    let r = LedgerView { in_network: waiting, loads: l.reloaded(train, packages) };
    let k = l.load_of(train);
    let at = if k >= 0 {
        k
    } else {
        l.loads.len() as int
    };
    assert(r.loads[at].packages == packages);
    assert forall|m: int| 0 <= m < r.loads.len() && m != at implies #[trigger] r.loads[m]
        == l.loads[m] by {}
    assert forall|m: int| 0 <= m < r.loads.len() implies names_unique(
        (#[trigger] r.loads[m]).packages,
    ) && names_apart(r.loads[m].packages, waiting) by {
        if m != at {
            assert(r.loads[m] == l.loads[m]);
            lemma_apart_within(l.loads[m].packages, waiting, l.in_network);
        }
    }
    assert forall|m: int, n: int| 0 <= m < n < r.loads.len() implies names_apart(
        (#[trigger] r.loads[m]).packages,
        (#[trigger] r.loads[n]).packages,
    ) by {
        if m == at {
            assert(r.loads[n] == l.loads[n]);
            assert(names_apart(l.loads[n].packages, packages));
        } else if n == at {
            assert(r.loads[m] == l.loads[m]);
            assert(names_apart(l.loads[m].packages, packages));
        } else {
            assert(r.loads[m] == l.loads[m]);
            assert(r.loads[n] == l.loads[n]);
        }
    }
}

/// A pickup keeps every package in one place.
pub(crate) proof fn lemma_picked_up_unique(l: LedgerView, train: Seq<char>, p: PackageView)
    requires
        ledger_unique(l),
    ensures
        ledger_unique(l.picked_up(train, p)),
        within(l.picked_up(train, p).in_network, l.in_network),
        l.in_network.contains(p) ==> !named_in(l.picked_up(train, p).in_network, p.name),
        forall|x: int|
            0 <= x < l.in_network.len() && (#[trigger] l.in_network[x]).name != p.name ==> l.picked_up(
                train,
                p,
            ).in_network.contains(l.in_network[x]),
{
    l.in_network.index_of_first_ensures(p);
    match l.in_network.index_of_first(p) {
        Some(j) => {
            let waiting = l.in_network.remove(j);
            let carried = l.aboard(train);
            let packages = carried.push(p);
            let k = l.load_of(train);
            lemma_unique_remove(l.in_network, j);
            assert(names_unique(carried) && names_apart(carried, l.in_network)) by {
                if k >= 0 {
                    assert(names_unique(l.loads[k].packages));
                }
            }
            assert(names_unique(packages)) by {
                assert forall|a: int, b: int| 0 <= a < b < packages.len() implies (
                #[trigger] packages[a]).name != (#[trigger] packages[b]).name by {
                    if b < carried.len() {
                        assert(carried[a].name != carried[b].name);
                    } else {
                        assert(carried[a].name != l.in_network[j].name);
                    }
                }
            }
            assert(names_apart(packages, waiting)) by {
                lemma_apart_within(carried, waiting, l.in_network);
                assert forall|a: int, b: int|
                    0 <= a < packages.len() && 0 <= b < waiting.len() implies (
                #[trigger] packages[a]).name != (#[trigger] waiting[b]).name by {
                    if a < carried.len() {
                        assert(carried[a].name != waiting[b].name);
                    }
                }
            }
            assert forall|m: int| 0 <= m < l.loads.len() && m != k implies names_apart(
                (#[trigger] l.loads[m]).packages,
                packages,
            ) by {
                let other = l.loads[m].packages;
                assert(names_apart(other, l.in_network));
                assert forall|a: int, b: int|
                    0 <= a < other.len() && 0 <= b < packages.len() implies (#[trigger] other[a]).name
                    != (#[trigger] packages[b]).name by {
                    if b < carried.len() {
                        if m < k {
                            assert(names_apart(l.loads[m].packages, l.loads[k].packages));
                        } else {
                            assert(names_apart(l.loads[k].packages, l.loads[m].packages));
                        }
                        assert(other[a].name != carried[b].name);
                    } else {
                        assert(other[a].name != l.in_network[j].name);
                    }
                }
            }
            lemma_reloaded_unique(l, waiting, train, packages);
            assert forall|x: int|
                0 <= x < l.in_network.len() && (#[trigger] l.in_network[x]).name
                    != p.name implies waiting.contains(l.in_network[x]) by {
                assert(x != j);
            }
        },
        None => {
            assert forall|x: int| 0 <= x < l.in_network.len() implies l.in_network.contains(
                #[trigger] l.in_network[x],
            ) by {}
        },
    }
}

/// Unloading keeps every package in one place.
pub(crate) proof fn lemma_dropped_off_unique(l: LedgerView, train: Seq<char>, station: Seq<char>)
    requires
        ledger_unique(l),
    ensures
        ledger_unique(l.dropped_off(train, station)),
{
    let k = l.load_of(train);
    if k >= 0 {
        let carried = l.loads[k].packages;
        let kept = carried.filter(bound_elsewhere(station));
        lemma_unique_filter(carried, bound_elsewhere(station));
        assert(within(l.in_network, l.in_network)) by {
            assert forall|x: int| 0 <= x < l.in_network.len() implies l.in_network.contains(
                #[trigger] l.in_network[x],
            ) by {}
        }
        assert(names_apart(carried, l.in_network));
        assert(names_apart(l.in_network, carried)) by {
            assert forall|a: int, b: int|
                0 <= a < l.in_network.len() && 0 <= b < carried.len() implies (
            #[trigger] l.in_network[a]).name != (#[trigger] carried[b]).name by {
                assert(carried[b].name != l.in_network[a].name);
            }
        }
        lemma_apart_within(l.in_network, kept, carried);
        assert forall|m: int| 0 <= m < l.loads.len() && m != k implies names_apart(
            (#[trigger] l.loads[m]).packages,
            kept,
        ) by {
            if m < k {
                assert(names_apart(l.loads[m].packages, l.loads[k].packages));
            } else {
                assert(names_apart(l.loads[k].packages, l.loads[m].packages));
                let other = l.loads[m].packages;
                assert forall|a: int, b: int|
                    0 <= a < other.len() && 0 <= b < carried.len() implies (#[trigger] other[a]).name
                    != (#[trigger] carried[b]).name by {
                    assert(carried[b].name != other[a].name);
                }
            }
            lemma_apart_within(l.loads[m].packages, kept, carried);
        }
        lemma_reloaded_unique(l, l.in_network, train, kept);
    }
}

/// The load phase keeps every package in one place, and what a train
/// accepted no longer waits.
pub(crate) proof fn lemma_boarded_unique(l: LedgerView, train: Seq<char>, accepted: Seq<PackageView>)
    requires
        ledger_unique(l),
        names_unique(accepted),
        within(accepted, l.in_network),
    ensures
        ledger_unique(boarded(l, train, accepted)),
        within(boarded(l, train, accepted).in_network, l.in_network),
        names_apart(accepted, boarded(l, train, accepted).in_network),
        forall|x: int|
            0 <= x < l.in_network.len() && !named_in(accepted, (#[trigger] l.in_network[x]).name)
                ==> boarded(l, train, accepted).in_network.contains(l.in_network[x]),
    decreases accepted.len(),
{
    let r = boarded(l, train, accepted);
    if accepted.len() == 0 {
        assert forall|x: int| 0 <= x < l.in_network.len() implies l.in_network.contains(
            #[trigger] l.in_network[x],
        ) by {}
    } else {
        let front = accepted.drop_last();
        let p = accepted.last();
        let before = boarded(l, train, front);
        assert(names_unique(front)) by {
            assert forall|i: int, j: int| 0 <= i < j < front.len() implies (#[trigger] front[i]).name
                != (#[trigger] front[j]).name by {
                assert(accepted[i].name != accepted[j].name);
            }
        }
        assert(within(front, l.in_network)) by {
            assert forall|i: int| 0 <= i < front.len() implies l.in_network.contains(
                #[trigger] front[i],
            ) by {
                assert(front[i] == accepted[i]);
            }
        }
        lemma_boarded_unique(l, train, front);
        lemma_picked_up_unique(before, train, p);
        // `p` still waits when its turn comes
        assert(l.in_network.contains(accepted[accepted.len() - 1]));
        let y = choose|y: int| 0 <= y < l.in_network.len() && l.in_network[y] == p;
        assert(!named_in(front, p.name)) by {
            if named_in(front, p.name) {
                let a = choose|a: int| 0 <= a < front.len() && (#[trigger] front[a]).name == p.name;
                assert(accepted[a].name != accepted[accepted.len() - 1].name);
            }
        }
        assert(before.in_network.contains(l.in_network[y]));
        assert forall|i: int| 0 <= i < r.in_network.len() implies l.in_network.contains(
            #[trigger] r.in_network[i],
        ) by {
            assert(before.in_network.contains(r.in_network[i]));
            let z = choose|z: int| 0 <= z < before.in_network.len() && before.in_network[z]
                == r.in_network[i];
            assert(l.in_network.contains(before.in_network[z]));
        }
        assert forall|a: int, b: int|
            0 <= a < accepted.len() && 0 <= b < r.in_network.len() implies (#[trigger] accepted[a]).name
            != (#[trigger] r.in_network[b]).name by {
            if a < front.len() {
                assert(before.in_network.contains(r.in_network[b]));
                let z = choose|z: int| 0 <= z < before.in_network.len() && before.in_network[z]
                    == r.in_network[b];
                assert(front[a].name != before.in_network[z].name);
            }
        }
        assert forall|x: int|
            0 <= x < l.in_network.len() && !named_in(
                accepted,
                (#[trigger] l.in_network[x]).name,
            ) implies r.in_network.contains(l.in_network[x]) by {
            let q = l.in_network[x];
            assert(!named_in(front, q.name)) by {
                if named_in(front, q.name) {
                    let a = choose|a: int| 0 <= a < front.len() && (#[trigger] front[a]).name
                        == q.name;
                    assert(accepted[a].name == q.name);
                }
            }
            assert(before.in_network.contains(q));
            let z = choose|z: int| 0 <= z < before.in_network.len() && before.in_network[z] == q;
            assert(accepted[accepted.len() - 1].name != q.name);
            assert(before.in_network[z].name != p.name);
        }
    }
}

/// Where all names are distinct, everything a train accepts does board: the
/// network loses exactly those packages and the train carries them behind
/// what it carried before.
pub(crate) proof fn lemma_boarded_all(l: LedgerView, train: Seq<char>, accepted: Seq<PackageView>)
    requires
        l.wf(),
        ledger_unique(l),
        names_unique(accepted),
        within(accepted, l.in_network),
    ensures
        boarded(l, train, accepted).in_network.len() + accepted.len() == l.in_network.len(),
        boarded(l, train, accepted).aboard(train) == l.aboard(train) + accepted,
    decreases accepted.len(),
{
    if accepted.len() == 0 {
        assert(l.aboard(train) + accepted =~= l.aboard(train));
    } else {
        let front = accepted.drop_last();
        let p = accepted.last();
        let before = boarded(l, train, front);
        assert(names_unique(front)) by {
            assert forall|i: int, j: int| 0 <= i < j < front.len() implies (#[trigger] front[i]).name
                != (#[trigger] front[j]).name by {
                assert(accepted[i].name != accepted[j].name);
            }
        }
        assert(within(front, l.in_network)) by {
            assert forall|i: int| 0 <= i < front.len() implies l.in_network.contains(
                #[trigger] front[i],
            ) by {
                assert(front[i] == accepted[i]);
            }
        }
        lemma_boarded_all(l, train, front);
        lemma_boarded_unique(l, train, front);
        lemma_boarded(l, train, front);
        assert(l.in_network.contains(accepted[accepted.len() - 1]));
        let y = choose|y: int| 0 <= y < l.in_network.len() && l.in_network[y] == p;
        assert(!named_in(front, p.name)) by {
            if named_in(front, p.name) {
                let a = choose|a: int| 0 <= a < front.len() && (#[trigger] front[a]).name == p.name;
                assert(accepted[a].name != accepted[accepted.len() - 1].name);
            }
        }
        assert(before.in_network.contains(l.in_network[y]));
        lemma_picked_up(before, train, p);
        before.in_network.index_of_first_ensures(p);
        assert(l.aboard(train) + accepted =~= (l.aboard(train) + front).push(p));
    }
}

/// One turn of one train picks no package up twice.
pub proof fn law_turn_pickups(pre: DispatchView, i: int, post: DispatchView)
    requires
        0 <= i < pre.trains.len(),
        stepped(pre, i, post),
    ensures
        pickups_kept(pre, post),
{
    if once_only(pre) {
        let t = pre.trains[i];
        let waiting = pre.ledger.waiting_at(t.at);
        let accepted = pre.accepted(i);
        let mid = pre.loaded(i);
        lemma_unique_filter(pre.ledger.in_network, crate::ledger::waits_at(t.at));
        lemma_fitting_fits(waiting, spare(t.capacity, weight_of(pre.ledger.aboard(t.name))));
        assert(names_unique(accepted)) by {
            assert forall|a: int, b: int| 0 <= a < b < accepted.len() implies (
            #[trigger] accepted[a]).name != (#[trigger] accepted[b]).name by {
                assert(waiting[a].name != waiting[b].name);
            }
        }
        assert(within(accepted, pre.ledger.in_network)) by {
            assert forall|a: int| 0 <= a < accepted.len() implies pre.ledger.in_network.contains(
                #[trigger] accepted[a],
            ) by {
                assert(accepted[a] == waiting[a]);
            }
        }
        lemma_boarded_unique(pre.ledger, t.name, accepted);
        let still = mid.ledger.in_network;
        assert forall|m: int| 0 <= m < pre.log.len() implies names_apart(
            (#[trigger] pre.log[m]).pickup,
            still,
        ) && names_apart(pre.log[m].pickup, accepted) by {
            lemma_apart_within(pre.log[m].pickup, still, pre.ledger.in_network);
            lemma_apart_within(pre.log[m].pickup, accepted, pre.ledger.in_network);
        }
        if pre.can_move(i) {
            let hop = post.trains[i].at;
            lemma_dropped_off_unique(mid.ledger, t.name, hop);
            assert(post.ledger.in_network == still);
            assert forall|m: int| 0 <= m < post.log.len() implies names_unique(
                (#[trigger] post.log[m]).pickup,
            ) && names_apart(post.log[m].pickup, still) by {
                if m < pre.log.len() {
                    assert(post.log[m] == pre.log[m]);
                }
            }
            assert forall|m: int, n: int| 0 <= m < n < post.log.len() implies names_apart(
                (#[trigger] post.log[m]).pickup,
                (#[trigger] post.log[n]).pickup,
            ) by {
                assert(post.log[m] == pre.log[m]);
                if n < pre.log.len() {
                    assert(post.log[n] == pre.log[n]);
                }
            }
        }
    }
}

/// Everything that every stretch of a simulation keeps: the fleet, the
/// packages (conservation), the capacity invariant, and that no package is
/// picked up twice.
pub open spec fn lawful(pre: DispatchView, post: DispatchView) -> bool {
    &&& post.ledger.wf()
    &&& same_fleet(pre, post)
    &&& conserved(pre, post)
    &&& capacity_kept(pre, post)
    &&& pickups_kept(pre, post)
}

/// Two lawful stretches in a row are a lawful stretch.
pub(crate) proof fn lemma_lawful_chain(a: DispatchView, b: DispatchView, c: DispatchView)
    requires
        lawful(a, b),
        lawful(b, c),
    ensures
        lawful(a, c),
{
    assert(c.log.take(a.log.len() as int) =~= a.log) by {
        assert(c.log.take(b.log.len() as int).take(a.log.len() as int) =~= c.log.take(
            a.log.len() as int,
        ));
    }
    assert forall|i: int| 0 <= i < a.trains.len() implies (#[trigger] c.trains[i]).name
        == a.trains[i].name && c.trains[i].capacity == a.trains[i].capacity by {
        assert(b.trains[i].name == a.trains[i].name);
    }
}

/// A stretch in which nothing happens is lawful.
pub(crate) proof fn lemma_lawful_still(a: DispatchView)
    requires
        a.ledger.wf(),
    ensures
        lawful(a, a),
{
    assert(a.log.take(a.log.len() as int) =~= a.log);
}

/// One turn of one train, from a state whose ledger is well formed, keeps
/// the fleet, conserves the packages, overloads no train and picks no
/// package up twice.
pub proof fn law_turn_lawful(pre: DispatchView, i: int, post: DispatchView)
    requires
        0 <= i < pre.trains.len(),
        pre.ledger.wf(),
        stepped(pre, i, post),
    ensures
        lawful(pre, post),
{
    law_turn(pre, i, post);
    law_turn_pickups(pre, i, post);
}

/// The turns of the first `n` trains are lawful.
pub(crate) proof fn lemma_sweep_lawful(pre: DispatchView, n: nat, post: DispatchView)
    requires
        n <= pre.trains.len(),
        pre.ledger.wf(),
        swept(pre, n, post),
    ensures
        lawful(pre, post),
    decreases n,
{
    if n == 0 {
        lemma_lawful_still(pre);
    } else {
        let i = (n - 1) as nat;
        let mid = choose|mid: DispatchView| swept(pre, i, mid) && #[trigger] stepped(mid, i as int, post);
        lemma_sweep_lawful(pre, i, mid);
        law_turn_lawful(mid, i as int, post);
        lemma_lawful_chain(pre, mid, post);
    }
}

/// One tick is lawful: it conserves the packages, overloads no train and
/// picks no package up twice.
pub proof fn law_tick_lawful(pre: DispatchView, post: DispatchView)
    requires
        pre.ledger.wf(),
        ticked(pre, post),
    ensures
        lawful(pre, post),
{
    lemma_sweep_lawful(pre, pre.trains.len(), post);
}

/// A run of any number of ticks is lawful: it conserves the packages,
/// overloads no train and picks no package up twice.
pub proof fn law_run_lawful(pre: DispatchView, ticks: nat, post: DispatchView)
    requires
        pre.ledger.wf(),
        ran(pre, ticks, post),
    ensures
        lawful(pre, post),
    decreases ticks,
{
    if ticks == 0 {
        lemma_lawful_still(pre);
    } else {
        let before = (ticks - 1) as nat;
        let mid = choose|mid: DispatchView|
            ran(pre, before, mid) && !mid.ledger.is_empty() && #[trigger] ticked(mid, post);
        law_run_lawful(pre, before, mid);
        law_tick_lawful(mid, post);
        lemma_lawful_chain(pre, mid, post);
    }
}

} // verus!
