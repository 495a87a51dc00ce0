//! How far apart two stations of a network are, and how far they can be.
//!
//! The distance between two stations is the cost of a cheapest route between
//! them. A route that visits a station twice can be cut short, so between any
//! two stations that are joined at all there is a route that visits no more
//! stations than the network has. That bounds every distance by the number of
//! stations times the largest edge cost.

use vstd::prelude::*;
use crate::dispatch::is_next_hop;
use crate::graph::{network_of, symmetric, Network};
use crate::model::{EdgeView, Station};
use crate::route::{connects, is_cheapest, is_route, joined_at, reachable, route_cost};

verus! {

/// A route without its first station is a route, and the first edge is what
/// it costs less.
pub(crate) proof fn lemma_route_front(net: Network, p: Seq<Station>)
    requires
        is_route(net, p),
        p.len() >= 2,
    ensures
        is_route(net, p.drop_first()),
        route_cost(net, p) == net[(p[0], p[1])] + route_cost(net, p.drop_first()),
    decreases p.len(),
{
    let rest = p.drop_first();
    assert forall|i: int| 0 <= i < rest.len() - 1 implies #[trigger] joined_at(net, rest, i) by {
        assert(joined_at(net, p, i + 1));
    }
    if p.len() == 2 {
        assert(p.drop_last() =~= seq![p[0]]);
        assert(route_cost(net, rest) == 0);
        assert(route_cost(net, p.drop_last()) == 0);
    } else {
        let front = p.drop_last();
        assert(is_route(net, front)) by {
            assert forall|i: int| 0 <= i < front.len() - 1 implies #[trigger] joined_at(
                net,
                front,
                i,
            ) by {
                assert(joined_at(net, p, i));
            }
        }
        lemma_route_front(net, front);
        assert(front.drop_first() =~= rest.drop_last());
    }
}

/// A route with one more station before it, joined to its first, is a route
/// that costs the edge between the two more.
pub(crate) proof fn lemma_route_prepend(net: Network, a: Station, p: Seq<Station>)
    requires
        is_route(net, p),
        net.contains_key((a, p[0])),
    ensures
        is_route(net, seq![a] + p),
        route_cost(net, seq![a] + p) == net[(a, p[0])] + route_cost(net, p),
{
    let q = seq![a] + p;
    assert forall|i: int| 0 <= i < q.len() - 1 implies #[trigger] joined_at(net, q, i) by {
        if i > 0 {
            assert(joined_at(net, p, i - 1));
        }
    }
    assert(q.drop_first() =~= p);
    lemma_route_front(net, q);
}

/// Where a station can be reached at all, some route to it is cheapest.
pub(crate) proof fn lemma_cheapest_exists(net: Network, p: Seq<Station>, from: Station, to: Station)
    requires
        connects(net, p, from, to),
    ensures
        exists|q: Seq<Station>| is_cheapest(net, q, from, to),
    decreases route_cost(net, p),
{
    if !is_cheapest(net, p, from, to) {
        let q = choose|q: Seq<Station>|
            connects(net, q, from, to) && route_cost(net, q) < route_cost(net, p);
        lemma_cheapest_exists(net, q, from, to);
    }
}

/// What the cheapest route from `from` to `to` costs; zero where there is
/// none.
pub open spec fn distance(net: Network, from: Station, to: Station) -> nat {
    if reachable(net, from, to) {
        route_cost(net, choose|q: Seq<Station>| is_cheapest(net, q, from, to))
    } else {
        0
    }
}

/// No route costs less than the distance, and a cheapest one costs just that.
pub(crate) proof fn lemma_distance(net: Network, p: Seq<Station>, from: Station, to: Station)
    requires
        connects(net, p, from, to),
    ensures
        reachable(net, from, to),
        distance(net, from, to) <= route_cost(net, p),
        is_cheapest(net, p, from, to) ==> distance(net, from, to) == route_cost(net, p),
{
    lemma_cheapest_exists(net, p, from, to);
}

/// The first step along a cheapest route leads to a station from which the
/// target is nearer by the cost of that step.
pub(crate) proof fn lemma_hop_closer(net: Network, from: Station, to: Station, hop: Station)
    requires
        is_next_hop(net, from, to, hop),
    ensures
        net.contains_key((from, hop)),
        reachable(net, hop, to),
        distance(net, hop, to) + net[(from, hop)] <= distance(net, from, to),
{
    let p = choose|p: Seq<Station>| is_cheapest(net, p, from, to) && p.len() >= 2 && p[1] == hop;
    assert(joined_at(net, p, 0));
    lemma_route_front(net, p);
    let rest = p.drop_first();
    assert(connects(net, rest, hop, to));
    lemma_distance(net, rest, hop, to);
    lemma_distance(net, p, from, to);
}

/// In a symmetric network, what can be reached from one end of an edge can
/// be reached from the other.
pub(crate) proof fn lemma_reach_across(net: Network, a: Station, b: Station, x: Station)
    requires
        symmetric(net),
        net.contains_key((a, b)),
        reachable(net, a, x),
    ensures
        reachable(net, b, x),
{
    let p = choose|p: Seq<Station>| connects(net, p, a, x);
    lemma_route_prepend(net, b, p);
    let q = seq![b] + p;
    assert(q.last() == p.last());
    assert(connects(net, q, b, x));
}

/// No two stations that are joined by a route are further apart than `span`.
pub open spec fn spans(net: Network, span: nat) -> bool {
    forall|a: Station, b: Station| #[trigger] distance(net, a, b) <= span
}

/// The stations that a list of edges mentions: the two ends of each.
spec fn stops_of(edges: Seq<EdgeView>) -> Seq<Station>
    decreases edges.len(),
{
    if edges.len() == 0 {
        Seq::empty()
    } else {
        stops_of(edges.drop_last()).push(edges.last().from).push(edges.last().to)
    }
}

/// No edge costs more than `most`.
pub open spec fn capped(edges: Seq<EdgeView>, most: nat) -> bool {
    forall|e: int| 0 <= e < edges.len() ==> (#[trigger] edges[e]).cost <= most
}

/// Both ends of every connection of the network are among its stops, there
/// are two stops to an edge, and no connection costs more than the dearest
/// edge.
proof fn lemma_stops_cover(edges: Seq<EdgeView>, most: nat)
    requires
        capped(edges, most),
    ensures
        stops_of(edges).len() == 2 * edges.len(),
        forall|u: Station, v: Station| #[trigger]
            network_of(edges).contains_key((u, v)) ==> stops_of(edges).contains(u) && stops_of(
                edges,
            ).contains(v) && network_of(edges)[(u, v)] <= most,
    decreases edges.len(),
{
    if edges.len() > 0 {
        let front = edges.drop_last();
        let last = edges.last();
        let stops = stops_of(edges);
        let n = stops_of(front).len() as int;
        assert(capped(front, most)) by {
            assert forall|e: int| 0 <= e < front.len() implies (#[trigger] front[e]).cost <= most by {
                assert(front[e] == edges[e]);
            }
        }
        lemma_stops_cover(front, most);
        assert(stops[n] == last.from);
        assert(stops[n + 1] == last.to);
        assert(last.cost <= most);
        assert forall|u: Station, v: Station| #[trigger]
            network_of(edges).contains_key((u, v)) implies stops.contains(u) && stops.contains(v)
            && network_of(edges)[(u, v)] <= most by {
            if (u, v) == (last.from, last.to) || (u, v) == (last.to, last.from) {
            } else {
                assert(network_of(front).contains_key((u, v)));
                let i = choose|i: int| 0 <= i < n && stops_of(front)[i] == u;
                let j = choose|j: int| 0 <= j < n && stops_of(front)[j] == v;
                assert(stops[i] == u);
                assert(stops[j] == v);
            }
        }
    }
}

/// A sequence that is longer than the list its members are taken from holds
/// one of them twice.
proof fn lemma_repeat(p: Seq<Station>, stops: Seq<Station>)
    requires
        p.len() > stops.len(),
        forall|i: int| 0 <= i < p.len() ==> stops.contains(#[trigger] p[i]),
    ensures
        exists|i: int, j: int| 0 <= i < j < p.len() && #[trigger] p[i] == #[trigger] p[j],
{
    if p.no_duplicates() {
        p.unique_seq_to_set();
        stops.lemma_cardinality_of_set();
        vstd::seq_lib::seq_to_set_is_finite(stops);
        assert(p.to_set().subset_of(stops.to_set())) by {
            assert forall|x: Station| p.to_set().contains(x) implies stops.to_set().contains(x) by {
                let i = choose|i: int| 0 <= i < p.len() && p[i] == x;
                assert(stops.contains(p[i]));
            }
        }
        vstd::set_lib::lemma_len_subset(p.to_set(), stops.to_set());
    } else {
        let (i, j) = choose|i: int, j: int|
            0 <= i < p.len() && 0 <= j < p.len() && i != j && p[i] == p[j];
        if i < j {
            assert(p[i] == p[j]);
        } else {
            assert(p[j] == p[i]);
        }
    }
}

/// Between the ends of any route there is a route that visits no more
/// stations than there are stops.
proof fn lemma_short_route(net: Network, stops: Seq<Station>, p: Seq<Station>)
    requires
        is_route(net, p),
        stops.len() >= 1,
        forall|i: int| 0 <= i < p.len() ==> stops.contains(#[trigger] p[i]),
    ensures
        exists|q: Seq<Station>| #[trigger]
            connects(net, q, p.first(), p.last()) && q.len() <= stops.len(),
    decreases p.len(),
{
    if p.len() <= stops.len() {
        assert(connects(net, p, p.first(), p.last()));
    } else {
        lemma_repeat(p, stops);
        let (i, j) = choose|i: int, j: int| 0 <= i < j < p.len() && #[trigger] p[i] == #[trigger] p[j];
        let cut = p.take(i) + p.skip(j);
        assert(cut.len() == p.len() - (j - i));
        assert forall|k: int| 0 <= k < cut.len() implies #[trigger] cut[k] == p[if k < i {
            k
        } else {
            k + (j - i)
        }] by {}
        assert forall|k: int| 0 <= k < cut.len() - 1 implies #[trigger] joined_at(net, cut, k) by {
            if k + 1 < i {
                assert(joined_at(net, p, k));
            } else if k + 1 == i {
                assert(joined_at(net, p, k));
                assert(cut[k + 1] == p[j]);
            } else {
                assert(joined_at(net, p, k + (j - i)));
            }
        }
        assert forall|k: int| 0 <= k < cut.len() implies stops.contains(#[trigger] cut[k]) by {
            let at = if k < i {
                k
            } else {
                k + (j - i)
            };
            assert(stops.contains(p[at]));
        }
        assert(cut.first() == p.first());
        assert(cut.last() == p.last());
        lemma_short_route(net, stops, cut);
    }
}

/// A route costs no more than the dearest connection for every step.
proof fn lemma_route_cost_bound(net: Network, p: Seq<Station>, most: nat)
    requires
        is_route(net, p),
        forall|k: (Station, Station)| #[trigger] net.contains_key(k) ==> net[k] <= most,
    ensures
        route_cost(net, p) <= (p.len() - 1) * most,
    decreases p.len(),
{
    if p.len() > 1 {
        let front = p.drop_last();
        assert(is_route(net, front)) by {
            assert forall|i: int| 0 <= i < front.len() - 1 implies #[trigger] joined_at(
                net,
                front,
                i,
            ) by {
                assert(joined_at(net, p, i));
            }
        }
        lemma_route_cost_bound(net, front, most);
        assert(joined_at(net, p, p.len() - 2));
        assert(net.contains_key((p[p.len() - 2], p[p.len() - 1])));
        assert((p.len() - 1) * most == (p.len() - 2) * most + most) by (nonlinear_arith);
    } else {
        assert((p.len() - 1) * most == 0) by (nonlinear_arith)
            requires
                p.len() == 1,
        ;
    }
}

/// The span of a network: no two of its stations are further apart than two
/// times the number of edges times the cost of the dearest edge.
pub proof fn law_span(edges: Seq<EdgeView>, most: nat)
    requires
        capped(edges, most),
    ensures
        spans(network_of(edges), 2 * edges.len() * most),
{
    let net = network_of(edges);
    let stops = stops_of(edges);
    let span = 2 * edges.len() * most;
    lemma_stops_cover(edges, most);
    assert forall|a: Station, b: Station| #[trigger] distance(net, a, b) <= span by {
        if reachable(net, a, b) {
            let p = choose|p: Seq<Station>| connects(net, p, a, b);
            if a == b {
                let only = seq![a];
                assert(connects(net, only, a, a));
                lemma_distance(net, only, a, a);
            } else {
                assert forall|i: int| 0 <= i < p.len() implies stops.contains(#[trigger] p[i]) by {
                    if i < p.len() - 1 {
                        assert(joined_at(net, p, i));
                        assert(net.contains_key((p[i], p[i + 1])));
                    } else {
                        assert(joined_at(net, p, i - 1));
                        assert(net.contains_key((p[i - 1], p[i])));
                    }
                }
                assert(stops.contains(p[0]));
                lemma_short_route(net, stops, p);
                let q = choose|q: Seq<Station>| #[trigger]
                    connects(net, q, p.first(), p.last()) && q.len() <= stops.len();
                assert forall|k: (Station, Station)| #[trigger] net.contains_key(k) implies net[k]
                    <= most by {
                    assert(net.contains_key((k.0, k.1)));
                }
                lemma_route_cost_bound(net, q, most);
                lemma_distance(net, q, a, b);
                assert((q.len() - 1) * most <= 2 * edges.len() * most) by (nonlinear_arith)
                    requires
                        1 <= q.len() <= 2 * edges.len(),
                ;
            }
        }
    }
}

} // verus!
