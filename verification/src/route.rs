//! Cheapest routes through the network.
//!
//! A route is a sequence of stations in which each is joined to the next by an
//! edge; its cost is the sum of the costs of those edges. The search is a
//! priority-first one over the interned stations: it settles the cheapest
//! station that is reached but not yet settled, relaxes the links that leave
//! it, and stops as soon as the target is the one to settle.

use vstd::prelude::*;
use crate::graph::{
    arc_at, find_name, has_arc, lemma_arc_found, lemma_slot_found, lemma_slot_range,
    names_distinct, net_of, rows_ok, slot, Graph, Link, Network,
};
use crate::model::{stations, Station};

verus! {

/// The station at position `i` of `p` is joined to the next one by an edge.
pub open spec fn joined_at(net: Network, p: Seq<Station>, i: int) -> bool {
    net.contains_key((p[i], p[i + 1]))
}

/// `p` is a route: it has a first station, and every station in it is joined
/// to the next one by an edge of the network.
pub open spec fn is_route(net: Network, p: Seq<Station>) -> bool {
    &&& p.len() >= 1
    &&& forall|i: int| 0 <= i < p.len() - 1 ==> #[trigger] joined_at(net, p, i)
}

/// The summed cost of the edges along `p`.
pub open spec fn route_cost(net: Network, p: Seq<Station>) -> nat
    decreases p.len(),
{
    if p.len() <= 1 {
        0
    } else {
        route_cost(net, p.drop_last()) + net[(p[p.len() - 2], p.last())]
    }
}

/// `p` is a route that starts at `from` and ends at `to`.
pub open spec fn connects(net: Network, p: Seq<Station>, from: Station, to: Station) -> bool {
    is_route(net, p) && p.first() == from && p.last() == to
}

/// `to` can be reached from `from` along edges of the network.
pub open spec fn reachable(net: Network, from: Station, to: Station) -> bool {
    exists|p: Seq<Station>| connects(net, p, from, to)
}

/// `p` leads from `from` to `to`, and no route between the two costs less.
pub open spec fn is_cheapest(net: Network, p: Seq<Station>, from: Station, to: Station) -> bool {
    &&& connects(net, p, from, to)
    &&& forall|q: Seq<Station>| connects(net, q, from, to) ==> route_cost(net, p) <= route_cost(net, q)
}

/// A route over interned stations: every index is in range and every station
/// has a link to the next one.
pub(crate) open spec fn is_walk(adj: Seq<Vec<Link>>, w: Seq<int>) -> bool {
    &&& w.len() >= 1
    &&& forall|i: int| 0 <= i < w.len() ==> 0 <= #[trigger] w[i] < adj.len()
    &&& forall|i: int| 0 <= i < w.len() - 1 ==> #[trigger] linked_at(adj, w, i)
}

/// The station at position `i` of `w` has a link to the next one.
pub(crate) open spec fn linked_at(adj: Seq<Vec<Link>>, w: Seq<int>, i: int) -> bool {
    arc_at(adj[w[i]]@, w[i + 1]) >= 0
}

/// The cost of the link from `u` to `v`.
pub(crate) open spec fn hop_cost(adj: Seq<Vec<Link>>, u: int, v: int) -> nat {
    adj[u]@[arc_at(adj[u]@, v)].cost as nat
}

/// The summed cost of the links along `w`.
pub(crate) open spec fn walk_cost(adj: Seq<Vec<Link>>, w: Seq<int>) -> nat
    decreases w.len(),
{
    if w.len() <= 1 {
        0
    } else {
        walk_cost(adj, w.drop_last()) + hop_cost(adj, w[w.len() - 2], w.last())
    }
}

/// Some station that is reached but not settled has a best cost of at most `c`.
pub(crate) open spec fn frontier_within(best: Seq<Option<u128>>, done: Seq<bool>, c: nat) -> bool {
    exists|x: int|
        0 <= x < done.len() && !#[trigger] done[x] && best[x] is Some && best[x].unwrap() <= c
}

/// What holds of the settled stations throughout the search from `s`. While
/// the links of station `hole` are being relaxed, only those before position
/// `upto` count for it.
pub(crate) open spec fn settled_ok(
    adj: Seq<Vec<Link>>,
    s: int,
    best: Seq<Option<u128>>,
    done: Seq<bool>,
    hole: int,
    upto: int,
) -> bool {
    &&& best.len() == adj.len()
    &&& done.len() == adj.len()
    &&& 0 <= s < adj.len()
    &&& best[s] == Some(0u128)
    &&& forall|u: int| 0 <= u < adj.len() && #[trigger] done[u] ==> best[u] is Some
    &&& forall|u: int, e: int|
        0 <= u < adj.len() && done[u] && 0 <= e < adj[u]@.len() && (u != hole || e < upto) ==> {
            let v = (#[trigger] adj[u]@[e]).to as int;
            best[v] is Some && best[v].unwrap() <= best[u].unwrap() + adj[u]@[e].cost
        }
    &&& forall|u: int, v: int|
        0 <= u < adj.len() && 0 <= v < adj.len() && #[trigger] done[u] && !#[trigger] done[v]
            && best[v] is Some ==> best[u].unwrap() <= best[v].unwrap()
}

/// No walk from the source undercuts what the search has settled: a walk that
/// ends at a settled station costs at least that station's best cost, and a
/// walk that ends elsewhere costs at least the best cost of some station on
/// the frontier.
pub(crate) proof fn lemma_lower_bound(
    adj: Seq<Vec<Link>>,
    s: int,
    best: Seq<Option<u128>>,
    done: Seq<bool>,
    w: Seq<int>,
)
    requires
        rows_ok(adj, adj.len()),
        settled_ok(adj, s, best, done, -1, 0),
        is_walk(adj, w),
        w[0] == s,
    ensures
        done[w.last()] ==> best[w.last()].unwrap() <= walk_cost(adj, w),
        !done[w.last()] ==> frontier_within(best, done, walk_cost(adj, w)),
    decreases w.len(),
{
    let v = w.last();
    if w.len() == 1 {
        assert(v == s);
    } else {
        let front = w.drop_last();
        let u = front.last();
        assert(u == w[w.len() - 2]);
        assert(is_walk(adj, front)) by {
            assert forall|i: int| 0 <= i < front.len() - 1 implies #[trigger] linked_at(
                adj,
                front,
                i,
            ) by {
                assert(linked_at(adj, w, i));
            }
        }
        lemma_lower_bound(adj, s, best, done, front);
        let e = arc_at(adj[u]@, v);
        assert(linked_at(adj, w, w.len() - 2));
        assert(e >= 0);
        assert(0 <= e < adj[u]@.len() && adj[u]@[e].to == v);
        let c = walk_cost(adj, front);
        assert(walk_cost(adj, w) == c + adj[u]@[e].cost);
        if done[u] {
            assert(best[v] is Some && best[v].unwrap() <= best[u].unwrap() + adj[u]@[e].cost);
            if !done[v] {
                assert(frontier_within(best, done, walk_cost(adj, w)));
            }
        } else {
            let x = choose|x: int|
                0 <= x < done.len() && !#[trigger] done[x] && best[x] is Some && best[x].unwrap()
                    <= c;
            if done[v] {
                assert(best[v].unwrap() <= best[x].unwrap());
            } else {
                assert(frontier_within(best, done, walk_cost(adj, w)));
            }
        }
    }
}

/// The largest cost a single link can have.
pub(crate) const LINK_MAX: u64 = 0xFFFF_FFFF;

/// How many stations are not settled yet.
pub(crate) open spec fn open_count(done: Seq<bool>) -> nat
    decreases done.len(),
{
    if done.len() == 0 {
        0
    } else {
        open_count(done.drop_last()) + if done.last() {
            0nat
        } else {
            1nat
        }
    }
}

pub(crate) proof fn lemma_open_count_bound(done: Seq<bool>)
    ensures
        open_count(done) <= done.len(),
    decreases done.len(),
{
    if done.len() > 0 {
        lemma_open_count_bound(done.drop_last());
    }
}

/// Settling one more station lowers the count by one.
pub(crate) proof fn lemma_open_count_settle(done: Seq<bool>, u: int)
    requires
        0 <= u < done.len(),
        !done[u],
    ensures
        open_count(done.update(u, true)) + 1 == open_count(done),
    decreases done.len(),
{
    let after = done.update(u, true);
    if u == done.len() - 1 {
        assert(after.drop_last() =~= done.drop_last());
    } else {
        lemma_open_count_settle(done.drop_last(), u);
        assert(after.drop_last() =~= done.drop_last().update(u, true));
    }
}

/// What holds of every station that the search has reached: `paths` holds a
/// walk to it whose cost is its best cost, and `prev` the station before it
/// on that walk. `settled` counts the settled stations.
pub(crate) open spec fn reached_ok(
    adj: Seq<Vec<Link>>,
    s: int,
    best: Seq<Option<u128>>,
    done: Seq<bool>,
    prev: Seq<usize>,
    paths: Seq<Seq<int>>,
    settled: int,
) -> bool {
    &&& prev.len() == adj.len()
    &&& paths.len() == adj.len()
    &&& paths[s] == seq![s]
    &&& forall|v: int|
        0 <= v < adj.len() && (#[trigger] best[v]) is Some ==> {
            &&& is_walk(adj, paths[v])
            &&& paths[v][0] == s
            &&& paths[v].last() == v
            &&& walk_cost(adj, paths[v]) == best[v].unwrap()
            &&& paths[v].len() <= settled + if done[v] {
                0int
            } else {
                1int
            }
            &&& best[v].unwrap() <= (paths[v].len() - 1) * LINK_MAX
        }
    &&& forall|v: int|
        0 <= v < adj.len() && best[v] is Some && v != s ==> {
            let p = (#[trigger] prev[v]) as int;
            &&& 0 <= p < adj.len()
            &&& done[p]
            &&& best[p] is Some
            &&& paths[v] == paths[p].push(v)
        }
}

/// The station that is reached, not settled, and cheapest among those.
fn nearest_open(best: &Vec<Option<u128>>, done: &Vec<bool>) -> (r: Option<usize>)
    requires
        best@.len() == done@.len(),
    ensures
        match r {
            Some(u) => {
                &&& u < done@.len()
                &&& !done@[u as int]
                &&& best@[u as int] is Some
                &&& forall|v: int|
                    0 <= v < done@.len() && !#[trigger] done@[v] && best@[v] is Some
                        ==> best@[u as int].unwrap() <= best@[v].unwrap()
            },
            None => forall|v: int| 0 <= v < done@.len() && !#[trigger] done@[v] ==> best@[v] is None,
        },
{
    let mut pick: Option<usize> = None;
    let mut low: u128 = 0;
    let mut v: usize = 0;
    while v < done.len()
        invariant
            best@.len() == done@.len(),
            v <= done@.len(),
            match pick {
                Some(u) => {
                    &&& u < v
                    &&& !done@[u as int]
                    &&& best@[u as int] == Some(low)
                    &&& forall|x: int|
                        0 <= x < v && !#[trigger] done@[x] && best@[x] is Some ==> low
                            <= best@[x].unwrap()
                },
                None => forall|x: int| 0 <= x < v && !#[trigger] done@[x] ==> best@[x] is None,
            },
        decreases done@.len() - v,
    {
        if !done[v] {
            match best[v] {
                Some(d) => {
                    if pick.is_none() || d < low {
                        pick = Some(v);
                        low = d;
                    }
                },
                None => {},
            }
        }
        v += 1;
    }
    pick
}

/// The indices of a vector, as integers.
pub(crate) open spec fn indices(v: Seq<usize>) -> Seq<int> {
    v.map_values(|x: usize| x as int)
}

/// `w` is a walk from `s` to `t`, and no walk between the two costs less.
pub(crate) open spec fn is_cheapest_walk(adj: Seq<Vec<Link>>, w: Seq<int>, s: int, t: int) -> bool {
    &&& is_walk(adj, w)
    &&& w[0] == s
    &&& w.last() == t
    &&& forall|q: Seq<int>|
        is_walk(adj, q) && q[0] == s && q.last() == t ==> walk_cost(adj, w) <= walk_cost(adj, q)
}

/// The walk to `t` that the search has found, read off the predecessors from
/// the target back to the source and then turned round.
fn trace_back(
    prev: &Vec<usize>,
    s: usize,
    t: usize,
    Ghost(adj): Ghost<Seq<Vec<Link>>>,
    Ghost(best): Ghost<Seq<Option<u128>>>,
    Ghost(done): Ghost<Seq<bool>>,
    Ghost(paths): Ghost<Seq<Seq<int>>>,
    Ghost(settled): Ghost<int>,
) -> (r: Vec<usize>)
    requires
        reached_ok(adj, s as int, best, done, prev@, paths, settled),
        best.len() == adj.len(),
        s < adj.len(),
        t < adj.len(),
        best[s as int] is Some,
        best[t as int] is Some,
    ensures
        indices(r@) == paths[t as int],
{
    let ghost full = paths[t as int];
    let mut rev: Vec<usize> = Vec::new();
    let mut cur: usize = t;
    while cur != s
        invariant
            reached_ok(adj, s as int, best, done, prev@, paths, settled),
            best.len() == adj.len(),
            s < adj.len(),
            cur < adj.len(),
            best[cur as int] is Some,
            paths[cur as int].len() + rev@.len() == full.len(),
            forall|i: int| 0 <= i < paths[cur as int].len() ==> paths[cur as int][i] == full[i],
            forall|k: int| 0 <= k < rev@.len() ==> rev@[k] == full[full.len() - 1 - k],
        decreases paths[cur as int].len(),
    {
        let ghost here = paths[cur as int];
        let ghost before = paths[prev@[cur as int] as int];
        assert(here == before.push(cur as int));
        assert(here[here.len() - 1] == cur);
        assert forall|i: int| 0 <= i < before.len() implies before[i] == full[i] by {
            assert(before[i] == here[i]);
        }
        rev.push(cur);
        cur = prev[cur];
    }
    assert(paths[cur as int] == seq![s as int]);
    rev.push(s);
    let mut out: Vec<usize> = Vec::new();
    let mut i: usize = rev.len();
    while i > 0
        invariant
            i <= rev@.len(),
            out@.len() == rev@.len() - i,
            forall|k: int| 0 <= k < out@.len() ==> out@[k] == rev@[rev@.len() - 1 - k],
        decreases i,
    {
        i -= 1;
        out.push(rev[i]);
    }
    assert(indices(out@) =~= full);
    out
}

/// A cheapest walk from `s` to `t`, or `None` where `t` cannot be reached.
pub(crate) fn cheapest_walk(adj: &Vec<Vec<Link>>, s: usize, t: usize) -> (r: Option<Vec<usize>>)
    requires
        rows_ok(adj@, adj@.len()),
        s < adj@.len(),
        t < adj@.len(),
    ensures
        match r {
            Some(w) => is_cheapest_walk(adj@, indices(w@), s as int, t as int),
            None => forall|q: Seq<int>| !(is_walk(adj@, q) && q[0] == s && q.last() == t),
        },
{
    let n = adj.len();
    let mut best: Vec<Option<u128>> = Vec::new();
    let mut done: Vec<bool> = Vec::new();
    let mut prev: Vec<usize> = Vec::new();
    let mut k: usize = 0;
    while k < n
        invariant
            k <= n,
            best@.len() == k,
            done@.len() == k,
            prev@.len() == k,
            forall|v: int| 0 <= v < k ==> best@[v] is None,
            forall|v: int| 0 <= v < k ==> !done@[v],
        decreases n - k,
    {
        best.push(None);
        done.push(false);
        prev.push(0);
        k += 1;
    }
    best[s] = Some(0);
    let ghost mut paths: Seq<Seq<int>> = Seq::new(n as nat, |v: int| seq![v]);
    proof {
        lemma_open_count_bound(done@);
        assert(is_walk(adj@, seq![s as int]));
    }
    loop
        invariant
            n == adj@.len(),
            rows_ok(adj@, adj@.len()),
            s < n,
            t < n,
            !done@[t as int],
            settled_ok(adj@, s as int, best@, done@, -1, 0),
            reached_ok(adj@, s as int, best@, done@, prev@, paths, n - open_count(done@)),
        decreases open_count(done@),
    {
        let u = match nearest_open(&best, &done) {
            Some(u) => u,
            None => {
                assert forall|q: Seq<int>| !(is_walk(adj@, q) && q[0] == s && q.last() == t) by {
                    if is_walk(adj@, q) && q[0] == s && q.last() == t {
                        lemma_lower_bound(adj@, s as int, best@, done@, q);
                    }
                }
                return None;
            },
        };
        if u == t {
            let walk = trace_back(
                &prev,
                s,
                t,
                Ghost(adj@),
                Ghost(best@),
                Ghost(done@),
                Ghost(paths),
                Ghost(n - open_count(done@)),
            );
            assert forall|q: Seq<int>|
                is_walk(adj@, q) && q[0] == s && q.last() == t implies walk_cost(
                adj@,
                indices(walk@),
            ) <= walk_cost(adj@, q) by {
                lemma_lower_bound(adj@, s as int, best@, done@, q);
            }
            return Some(walk);
        }
        let reach: u128 = best[u].unwrap();
        proof {
            lemma_open_count_settle(done@, u as int);
            lemma_open_count_bound(done@);
        }
        done[u] = true;
        let ghost settled: int = n - open_count(done@);
        let row = &adj[u];
        let mut e: usize = 0;
        while e < row.len()
            invariant
                n == adj@.len(),
                rows_ok(adj@, adj@.len()),
                s < n,
                t < n,
                u < n,
                row == adj@[u as int],
                done@[u as int],
                !done@[t as int],
                best@[u as int] == Some(reach),
                e <= row@.len(),
                0 <= settled <= n,
                settled == n - open_count(done@),
                settled_ok(adj@, s as int, best@, done@, u as int, e as int),
                reached_ok(adj@, s as int, best@, done@, prev@, paths, settled),
                forall|a: int| 0 <= a < n && #[trigger] done@[a] ==> best@[a].unwrap() <= reach,
            decreases row@.len() - e,
        {
            let link = row[e];
            let v = link.to;
            proof {
                lemma_arc_found(row@, e as int);
            }
            if !done[v] {
                let through: u128 = reach + link.cost as u128;
                let better = match best[v] {
                    Some(d) => through < d,
                    None => true,
                };
                if better {
                    proof {
                        let walk = paths[u as int].push(v as int);
                        assert(walk.drop_last() =~= paths[u as int]);
                        assert(is_walk(adj@, walk)) by {
                            assert forall|i: int|
                                0 <= i < walk.len() - 1 implies #[trigger] linked_at(
                                adj@,
                                walk,
                                i,
                            ) by {
                                if i < walk.len() - 2 {
                                    assert(linked_at(adj@, paths[u as int], i));
                                }
                            }
                        }
                        paths = paths.update(v as int, walk);
                    }
                    best[v] = Some(through);
                    prev[v] = u;
                }
            }
            e += 1;
        }
    }
}

/// The walk that a route stands for: each station by its index.
pub(crate) open spec fn walk_of(names: Seq<String>, p: Seq<Station>) -> Seq<int> {
    p.map_values(|u: Station| slot(names, u))
}

/// The route that a walk stands for: each index by its station.
pub(crate) open spec fn route_of(names: Seq<String>, w: Seq<int>) -> Seq<Station> {
    w.map_values(|i: int| names[i]@)
}

/// A route whose first station is interned is a walk over the interned
/// stations, of the same cost.
pub(crate) proof fn lemma_route_is_walk(names: Seq<String>, adj: Seq<Vec<Link>>, p: Seq<Station>)
    requires
        names_distinct(names),
        rows_ok(adj, names.len()),
        is_route(net_of(names, adj), p),
        slot(names, p[0]) >= 0,
    ensures
        is_walk(adj, walk_of(names, p)),
        walk_cost(adj, walk_of(names, p)) == route_cost(net_of(names, adj), p),
    decreases p.len(),
{
    let net = net_of(names, adj);
    let w = walk_of(names, p);
    lemma_slot_range(names, p[0]);
    if p.len() > 1 {
        let front = p.drop_last();
        assert(is_route(net, front)) by {
            assert forall|i: int| 0 <= i < front.len() - 1 implies #[trigger] joined_at(
                net,
                front,
                i,
            ) by {
                assert(joined_at(net, p, i));
            }
        }
        lemma_route_is_walk(names, adj, front);
        assert(walk_of(names, front) =~= w.drop_last());
        let last = p.len() - 2;
        assert(joined_at(net, p, last));
        assert(has_arc(names, adj, p[last], p[last + 1]));
        lemma_slot_range(names, p[last + 1]);
        assert forall|i: int| 0 <= i < w.len() implies 0 <= #[trigger] w[i] < adj.len() by {
            if i < w.len() - 1 {
                assert(walk_of(names, front)[i] == w[i]);
            }
        }
        assert forall|i: int| 0 <= i < w.len() - 1 implies #[trigger] linked_at(adj, w, i) by {
            if i < last {
                assert(linked_at(adj, walk_of(names, front), i));
            }
        }
        assert(net[(p[last], p.last())] == hop_cost(adj, w[last], w.last()));
    }
}

/// A walk over the interned stations is a route through the network, of the
/// same cost.
pub(crate) proof fn lemma_walk_is_route(names: Seq<String>, adj: Seq<Vec<Link>>, w: Seq<int>)
    requires
        names_distinct(names),
        rows_ok(adj, names.len()),
        is_walk(adj, w),
    ensures
        is_route(net_of(names, adj), route_of(names, w)),
        route_cost(net_of(names, adj), route_of(names, w)) == walk_cost(adj, w),
        walk_of(names, route_of(names, w)) == w,
    decreases w.len(),
{
    let net = net_of(names, adj);
    let p = route_of(names, w);
    assert forall|i: int| 0 <= i < w.len() implies slot(names, #[trigger] p[i]) == w[i] by {
        lemma_slot_found(names, w[i]);
    }
    assert(walk_of(names, p) =~= w);
    assert forall|i: int| 0 <= i < p.len() - 1 implies #[trigger] joined_at(net, p, i) by {
        assert(linked_at(adj, w, i));
        assert(has_arc(names, adj, p[i], p[i + 1]));
    }
    if w.len() > 1 {
        let front = w.drop_last();
        assert(is_walk(adj, front)) by {
            assert forall|i: int| 0 <= i < front.len() - 1 implies #[trigger] linked_at(
                adj,
                front,
                i,
            ) by {
                assert(linked_at(adj, w, i));
            }
        }
        lemma_walk_is_route(names, adj, front);
        assert(route_of(names, front) =~= p.drop_last());
        let last = w.len() - 2;
        assert(joined_at(net, p, last));
        assert(net[(p[last], p.last())] == hop_cost(adj, w[last], w.last()));
    }
}

impl Graph {
    /// The names of the stations along a walk.
    fn names_along(&self, w: &Vec<usize>) -> (r: Vec<String>)
        requires
            forall|i: int| 0 <= i < w@.len() ==> (#[trigger] w@[i]) < self.names@.len(),
        ensures
            stations(r@) == route_of(self.names@, indices(w@)),
    {
        let mut out: Vec<String> = Vec::new();
        let mut i: usize = 0;
        while i < w.len()
            invariant
                forall|k: int| 0 <= k < w@.len() ==> (#[trigger] w@[k]) < self.names@.len(),
                i <= w@.len(),
                out@.len() == i,
                forall|k: int| 0 <= k < i ==> (#[trigger] out@[k])@ == self.names@[w@[k] as int]@,
            decreases w@.len() - i,
        {
            out.push(self.names[w[i]].clone());
            i += 1;
        }
        assert(stations(out@) =~= route_of(self.names@, indices(w@)));
        out
    }

    /// A cheapest route from `start` to `end`: the stations in order, the
    /// first being `start` and the last `end`. `None` where `end` cannot be
    /// reached from `start`. A station reaches itself by the route that holds
    /// nothing else, whether the network knows it or not. Among several
    /// cheapest routes any one may be returned.
    pub fn shortest_path(&self, start: &str, end: &str) -> (r: Option<Vec<String>>)
        ensures
            match r {
                Some(p) => is_cheapest(self@, stations(p@), start@, end@),
                None => !reachable(self@, start@, end@),
            },
    {
        proof {
            use_type_invariant(self);
            self.lemma_view();
        }
        let ghost net = self@;
        let from = start.to_owned();
        let to = end.to_owned();
        if from == to {
            let mut only: Vec<String> = Vec::new();
            only.push(from);
            assert(stations(only@) =~= seq![start@]);
            return Some(only);
        }
        let found = (find_name(&self.names, &from), find_name(&self.names, &to));
        let (s, t) = match found {
            (Some(s), Some(t)) => (s, t),
            _ => {
                assert forall|q: Seq<Station>| !connects(net, q, start@, end@) by {
                    if connects(net, q, start@, end@) {
                        assert(joined_at(net, q, 0));
                        assert(joined_at(net, q, q.len() - 2));
                    }
                }
                return None;
            },
        };
        proof {
            lemma_slot_range(self.names@, start@);
            lemma_slot_range(self.names@, end@);
        }
        match cheapest_walk(&self.adj, s, t) {
            Some(w) => {
                let ghost walk = indices(w@);
                assert forall|i: int| 0 <= i < w@.len() implies (#[trigger] w@[i])
                    < self.names@.len() by {
                    assert(0 <= walk[i] < self.adj@.len());
                }
                let p = self.names_along(&w);
                proof {
                    lemma_walk_is_route(self.names@, self.adj@, walk);
                    assert forall|q: Seq<Station>| connects(net, q, start@, end@) implies route_cost(
                        net,
                        stations(p@),
                    ) <= route_cost(net, q) by {
                        lemma_route_is_walk(self.names@, self.adj@, q);
                    }
                }
                Some(p)
            },
            None => {
                assert forall|q: Seq<Station>| !connects(net, q, start@, end@) by {
                    if connects(net, q, start@, end@) {
                        lemma_route_is_walk(self.names@, self.adj@, q);
                    }
                }
                None
            },
        }
    }
}

} // verus!
