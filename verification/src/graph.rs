//! The network: an undirected weighted graph over station names.
//!
//! Stations are interned in the order in which edges first mention them; each
//! station keeps a row of links to its neighbours. In contracts the graph is a
//! map from ordered pairs of stations to the cost of the edge between them.

use vstd::prelude::*;
use crate::model::{edge_views, Edge, EdgeView, Station};

verus! {

/// The network in contracts: the cost of every direct connection, keyed by
/// the pair (from, to).
pub type Network = Map<(Station, Station), nat>;

/// The network with one more edge in it, in both directions. An edge between
/// the same two stations that was there before is overwritten.
pub open spec fn joined(net: Network, e: EdgeView) -> Network {
    net.insert((e.from, e.to), e.cost).insert((e.to, e.from), e.cost)
}

/// The network that a list of edges describes: every edge in both directions,
/// later edges overwriting earlier ones.
pub open spec fn network_of(edges: Seq<EdgeView>) -> Network
    decreases edges.len(),
{
    if edges.len() == 0 {
        Map::empty()
    } else {
        joined(network_of(edges.drop_last()), edges.last())
    }
}

/// Every connection runs both ways at the same cost.
pub open spec fn symmetric(net: Network) -> bool {
    forall|u: Station, v: Station| #[trigger]
        net.contains_key((u, v)) ==> net.contains_key((v, u)) && net[(v, u)] == net[(u, v)]
}

/// The network that a list of edges describes is symmetric, whatever the
/// edges are.
pub proof fn law_network_symmetric(edges: Seq<EdgeView>)
    ensures
        symmetric(network_of(edges)),
    decreases edges.len(),
{
    if edges.len() > 0 {
        let before = network_of(edges.drop_last());
        let e = edges.last();
        law_network_symmetric(edges.drop_last());
        let net = network_of(edges);
        assert forall|u: Station, v: Station| #[trigger] net.contains_key((u, v)) implies net.contains_key(
            (v, u),
        ) && net[(v, u)] == net[(u, v)] by {
            if (u, v) == (e.from, e.to) || (u, v) == (e.to, e.from) {
            } else {
                assert(before.contains_key((u, v)));
            }
        }
    }
}

/// Every connection of the network costs at least one.
pub open spec fn positive(net: Network) -> bool {
    forall|k: (Station, Station)| #[trigger] net.contains_key(k) ==> net[k] >= 1
}

/// Edges of positive journey time make a network of positive costs.
pub proof fn law_network_positive(edges: Seq<EdgeView>)
    requires
        forall|e: int| 0 <= e < edges.len() ==> (#[trigger] edges[e]).cost >= 1,
    ensures
        positive(network_of(edges)),
    decreases edges.len(),
{
    if edges.len() > 0 {
        let before = network_of(edges.drop_last());
        let last = edges.last();
        assert forall|e: int| 0 <= e < edges.drop_last().len() implies (
        #[trigger] edges.drop_last()[e]).cost >= 1 by {
            assert(edges.drop_last()[e] == edges[e]);
        }
        law_network_positive(edges.drop_last());
        let net = network_of(edges);
        assert(last.cost >= 1);
        assert forall|k: (Station, Station)| #[trigger] net.contains_key(k) implies net[k] >= 1 by {
            if k == (last.from, last.to) || k == (last.to, last.from) {
            } else {
                assert(before.contains_key(k));
            }
        }
    }
}

/// A link from one interned station to another.
#[derive(Clone, Copy, Debug)]
pub(crate) struct Link {
    pub to: usize,
    pub cost: u32,
}

/// The index of station `s` among `names`, or -1 where it is not there.
pub(crate) open spec fn slot(names: Seq<String>, s: Station) -> int {
    if exists|i: int| 0 <= i < names.len() && (#[trigger] names[i])@ == s {
        choose|i: int| 0 <= i < names.len() && (#[trigger] names[i])@ == s
    } else {
        -1
    }
}

/// The position in `row` of the link to station `j`, or -1 where there is none.
pub(crate) open spec fn arc_at(row: Seq<Link>, j: int) -> int {
    if exists|e: int| 0 <= e < row.len() && (#[trigger] row[e]).to == j {
        choose|e: int| 0 <= e < row.len() && (#[trigger] row[e]).to == j
    } else {
        -1
    }
}

/// No station is interned twice.
pub(crate) open spec fn names_distinct(names: Seq<String>) -> bool {
    forall|i: int, j: int|
        0 <= i < j < names.len() ==> (#[trigger] names[i])@ != (#[trigger] names[j])@
}

/// There is one row per station, every link leads to an interned station, and
/// no row links the same station twice.
pub(crate) open spec fn rows_ok(adj: Seq<Vec<Link>>, n: nat) -> bool {
    &&& adj.len() == n
    &&& forall|i: int, e: int|
        0 <= i < adj.len() && 0 <= e < adj[i]@.len() ==> (#[trigger] adj[i]@[e]).to < n
    &&& forall|i: int, e: int, f: int|
        0 <= i < adj.len() && 0 <= e < f < adj[i]@.len() ==> (#[trigger] adj[i]@[e]).to != (
        #[trigger] adj[i]@[f]).to
}

/// Whether the rows hold a link from station `u` to station `v`.
pub(crate) open spec fn has_arc(names: Seq<String>, adj: Seq<Vec<Link>>, u: Station, v: Station) -> bool {
    let i = slot(names, u);
    let j = slot(names, v);
    i >= 0 && j >= 0 && arc_at(adj[i]@, j) >= 0
}

/// The cost of the link from station `u` to station `v`.
pub(crate) open spec fn arc_cost(names: Seq<String>, adj: Seq<Vec<Link>>, u: Station, v: Station) -> nat {
    let i = slot(names, u);
    let j = slot(names, v);
    adj[i]@[arc_at(adj[i]@, j)].cost as nat
}

/// The network that interned names and their rows stand for.
pub(crate) open spec fn net_of(names: Seq<String>, adj: Seq<Vec<Link>>) -> Network {
    Map::new(
        |k: (Station, Station)| has_arc(names, adj, k.0, k.1),
        |k: (Station, Station)| arc_cost(names, adj, k.0, k.1),
    )
}

/// Where a station stands among distinct names, its slot is that index.
pub(crate) proof fn lemma_slot_found(names: Seq<String>, i: int)
    requires
        names_distinct(names),
        0 <= i < names.len(),
    ensures
        slot(names, names[i]@) == i,
{
    let s = names[i]@;
    let j = slot(names, s);
    assert(0 <= j < names.len() && names[j]@ == s);
    if j < i {
        assert(names[j]@ != names[i]@);
    } else if i < j {
        assert(names[i]@ != names[j]@);
    }
}

/// A slot that is not -1 is the index of the station.
pub(crate) proof fn lemma_slot_range(names: Seq<String>, s: Station)
    ensures
        slot(names, s) >= 0 ==> 0 <= slot(names, s) < names.len() && names[slot(names, s)]@ == s,
        slot(names, s) < 0 ==> slot(names, s) == -1 && forall|i: int|
            0 <= i < names.len() ==> (#[trigger] names[i])@ != s,
{
}

/// Where a row without repeats links station `j` at position `e`, that is
/// the position `arc_at` gives.
pub(crate) proof fn lemma_arc_found(row: Seq<Link>, e: int)
    requires
        0 <= e < row.len(),
        forall|a: int, b: int| 0 <= a < b < row.len() ==> (#[trigger] row[a]).to != (#[trigger] row[b]).to,
    ensures
        arc_at(row, row[e].to as int) == e,
{
    let j = row[e].to as int;
    let f = arc_at(row, j);
    assert(0 <= f < row.len() && row[f].to == j);
    if f < e {
        assert(row[f].to != row[e].to);
    } else if e < f {
        assert(row[e].to != row[f].to);
    }
}

/// A position that is not -1 holds a link to the station asked for.
pub(crate) proof fn lemma_arc_range(row: Seq<Link>, j: int)
    ensures
        arc_at(row, j) >= 0 ==> 0 <= arc_at(row, j) < row.len() && row[arc_at(row, j)].to == j,
        arc_at(row, j) < 0 ==> arc_at(row, j) == -1 && forall|e: int|
            0 <= e < row.len() ==> (#[trigger] row[e]).to != j,
{
}

/// The index of `s` among `names`, if it is there.
pub(crate) fn find_name(names: &Vec<String>, s: &String) -> (r: Option<usize>)
    requires
        names_distinct(names@),
    ensures
        match r {
            Some(i) => i < names@.len() && slot(names@, s@) == i,
            None => slot(names@, s@) == -1,
        },
{
    let mut i: usize = 0;
    while i < names.len()
        invariant
            names_distinct(names@),
            i <= names@.len(),
            forall|k: int| 0 <= k < i ==> (#[trigger] names@[k])@ != s@,
        decreases names@.len() - i,
    {
        if names[i] == *s {
            proof {
                lemma_slot_found(names@, i as int);
            }
            return Some(i);
        }
        i += 1;
    }
    None
}

/// How the slot of a station changes when one more name is interned.
proof fn lemma_slot_push(names: Seq<String>, extra: String, u: Station)
    requires
        names_distinct(names.push(extra)),
    ensures
        slot(names.push(extra), u) == if slot(names, u) >= 0 {
            slot(names, u)
        } else if extra@ == u {
            names.len() as int
        } else {
            -1
        },
{
    let more = names.push(extra);
    let i = slot(names, u);
    if i >= 0 {
        assert(more[i] == names[i]);
        lemma_slot_found(more, i);
    } else if extra@ == u {
        assert(more[names.len() as int] == extra);
        lemma_slot_found(more, names.len() as int);
    } else {
        assert forall|k: int| 0 <= k < more.len() implies (#[trigger] more[k])@ != u by {
            if k < names.len() {
                assert(more[k] == names[k]);
            }
        }
    }
}

/// A station that is interned for the first time, with an empty row, leaves
/// the network as it was.
proof fn lemma_intern_keeps_net(names: Seq<String>, adj: Seq<Vec<Link>>, extra: String, row: Vec<Link>)
    requires
        names_distinct(names),
        rows_ok(adj, names.len()),
        slot(names, extra@) == -1,
        row@.len() == 0,
    ensures
        names_distinct(names.push(extra)),
        rows_ok(adj.push(row), names.len() + 1),
        net_of(names.push(extra), adj.push(row)) == net_of(names, adj),
{
    let more = names.push(extra);
    let rows = adj.push(row);
    let n = names.len() as int;
    assert(names_distinct(more)) by {
        assert forall|i: int, j: int| 0 <= i < j < more.len() implies (#[trigger] more[i])@ != (
        #[trigger] more[j])@ by {
            assert(more[i] == names[i]);
            if j < n {
                assert(more[j] == names[j]);
            }
        }
    }
    assert(rows_ok(rows, (n + 1) as nat)) by {
        assert forall|i: int, e: int| 0 <= i < rows.len() && 0 <= e < rows[i]@.len() implies (
        #[trigger] rows[i]@[e]).to < n + 1 by {
            assert(rows[i] == adj[i]);
        }
        assert forall|i: int, e: int, f: int|
            0 <= i < rows.len() && 0 <= e < f < rows[i]@.len() implies (#[trigger] rows[i]@[e]).to
            != (#[trigger] rows[i]@[f]).to by {
            assert(rows[i] == adj[i]);
        }
    }
    assert forall|k: (Station, Station)|
        has_arc(more, rows, k.0, k.1) == has_arc(names, adj, k.0, k.1) && (has_arc(
            names,
            adj,
            k.0,
            k.1,
        ) ==> arc_cost(more, rows, k.0, k.1) == arc_cost(names, adj, k.0, k.1)) by {
        lemma_slot_push(names, extra, k.0);
        lemma_slot_push(names, extra, k.1);
        lemma_slot_range(names, k.0);
        lemma_slot_range(names, k.1);
        let i = slot(names, k.0);
        let j = slot(names, k.1);
        if i >= 0 {
            assert(rows[i] == adj[i]);
            lemma_arc_range(adj[i]@, n);
            lemma_arc_range(adj[i]@, j);
        } else if extra@ == k.0 {
            assert(rows[n] == row);
            lemma_arc_range(row@, slot(more, k.1));
        }
    }
    assert(net_of(more, rows) =~= net_of(names, adj));
}

/// The index of station `s`, which is interned with an empty row if it was
/// not known before.
fn intern(names: &mut Vec<String>, adj: &mut Vec<Vec<Link>>, s: &String) -> (r: usize)
    requires
        names_distinct(old(names)@),
        rows_ok(old(adj)@, old(names)@.len()),
    ensures
        names_distinct(final(names)@),
        rows_ok(final(adj)@, final(names)@.len()),
        net_of(final(names)@, final(adj)@) == net_of(old(names)@, old(adj)@),
        r < final(names)@.len(),
        final(names)@[r as int]@ == s@,
        old(names)@.len() <= final(names)@.len(),
        forall|i: int| 0 <= i < old(names)@.len() ==> final(names)@[i] == old(names)@[i],
{
    match find_name(names, s) {
        Some(i) => {
            proof {
                lemma_slot_range(names@, s@);
            }
            i
        },
        None => {
            let fresh = s.clone();
            let row: Vec<Link> = Vec::new();
            proof {
                lemma_intern_keeps_net(names@, adj@, fresh, row);
            }
            names.push(fresh);
            adj.push(row);
            names.len() - 1
        },
    }
}

/// The position in `row` of the link to station `j`, if there is one.
pub(crate) fn find_link(row: &Vec<Link>, j: usize) -> (r: Option<usize>)
    requires
        forall|a: int, b: int|
            0 <= a < b < row@.len() ==> (#[trigger] row@[a]).to != (#[trigger] row@[b]).to,
    ensures
        match r {
            Some(e) => e < row@.len() && arc_at(row@, j as int) == e,
            None => arc_at(row@, j as int) == -1,
        },
{
    let mut e: usize = 0;
    while e < row.len()
        invariant
            forall|a: int, b: int|
                0 <= a < b < row@.len() ==> (#[trigger] row@[a]).to != (#[trigger] row@[b]).to,
            e <= row@.len(),
            forall|k: int| 0 <= k < e ==> (#[trigger] row@[k]).to != j,
        decreases row@.len() - e,
    {
        if row[e].to == j {
            proof {
                lemma_arc_found(row@, e as int);
            }
            return Some(e);
        }
        e += 1;
    }
    None
}

/// Row `i` after a link to `j` was written into it: either over the link to
/// `j` that stood at position `e`, or behind the last link where there was none.
spec fn row_written(before: Seq<Link>, after: Seq<Link>, e: int, link: Link) -> bool {
    if e < before.len() {
        0 <= e && before[e].to == link.to && after == before.update(e, link)
    } else {
        e == before.len() && arc_at(before, link.to as int) == -1 && after == before.push(link)
    }
}

/// Writing a link from `i` to `j` puts the pair of their names into the
/// network with the new cost, and changes nothing else.
proof fn lemma_connect(
    names: Seq<String>,
    adj0: Seq<Vec<Link>>,
    adj1: Seq<Vec<Link>>,
    i: int,
    link: Link,
    e: int,
)
    requires
        names_distinct(names),
        rows_ok(adj0, names.len()),
        0 <= i < names.len(),
        link.to < names.len(),
        adj1.len() == adj0.len(),
        forall|r: int| 0 <= r < adj0.len() && r != i ==> adj1[r] == adj0[r],
        row_written(adj0[i]@, adj1[i]@, e, link),
    ensures
        rows_ok(adj1, names.len()),
        net_of(names, adj1) == net_of(names, adj0).insert(
            (names[i]@, names[link.to as int]@),
            link.cost as nat,
        ),
{
    let n = names.len();
    let j = link.to as int;
    let cost = link.cost;
    let before = adj0[i]@;
    let after = adj1[i]@;
    lemma_arc_range(before, j);
    assert(rows_ok(adj1, n)) by {
        assert forall|r: int, a: int| 0 <= r < adj1.len() && 0 <= a < adj1[r]@.len() implies (
        #[trigger] adj1[r]@[a]).to < n by {
            if r != i {
                assert(adj1[r] == adj0[r]);
            } else if a != e {
                assert(after[a] == before[a]);
            }
        }
        assert forall|r: int, a: int, b: int|
            0 <= r < adj1.len() && 0 <= a < b < adj1[r]@.len() implies (#[trigger] adj1[r]@[a]).to
            != (#[trigger] adj1[r]@[b]).to by {
            if r != i {
                assert(adj1[r] == adj0[r]);
            } else {
                if a != e {
                    assert(after[a] == before[a]);
                }
                if b != e {
                    assert(after[b] == before[b]);
                }
                if a == e && e < before.len() {
                    assert(before[a].to != before[b].to);
                }
                if b == e && e < before.len() {
                    assert(before[a].to != before[b].to);
                }
            }
        }
    }
    lemma_slot_found(names, i);
    lemma_slot_found(names, j);
    let key = (names[i]@, names[j]@);
    let want = net_of(names, adj0).insert(key, cost as nat);
    assert(after[e] == link);
    lemma_arc_found(after, e);
    assert forall|k: (Station, Station)|
        #![trigger has_arc(names, adj1, k.0, k.1)]
        has_arc(names, adj1, k.0, k.1) == (k == key || has_arc(names, adj0, k.0, k.1)) && (has_arc(
            names,
            adj1,
            k.0,
            k.1,
        ) ==> arc_cost(names, adj1, k.0, k.1) == if k == key {
            cost as nat
        } else {
            arc_cost(names, adj0, k.0, k.1)
        }) by {
        lemma_slot_range(names, k.0);
        lemma_slot_range(names, k.1);
        let a = slot(names, k.0);
        let b = slot(names, k.1);
        if k == key {
        } else if a >= 0 && b >= 0 {
            if a != i {
                assert(adj1[a] == adj0[a]);
            } else {
                assert(b != j);
                lemma_arc_range(before, b);
                lemma_arc_range(after, b);
                let x = arc_at(before, b);
                let y = arc_at(after, b);
                if x >= 0 {
                    assert(x != e);
                    assert(after[x] == before[x]);
                    lemma_arc_found(after, x);
                }
                if y >= 0 {
                    assert(y != e);
                    assert(after[y] == before[y]);
                    lemma_arc_found(before, y);
                }
            }
        }
    }
    assert(net_of(names, adj1) =~= want);
}

/// Writes a link from station `i` to station `j`, over the one that was there
/// if there was one.
fn connect(names: &Vec<String>, adj: &mut Vec<Vec<Link>>, i: usize, j: usize, cost: u32)
    requires
        names_distinct(names@),
        rows_ok(old(adj)@, names@.len()),
        i < names@.len(),
        j < names@.len(),
    ensures
        rows_ok(final(adj)@, names@.len()),
        net_of(names@, final(adj)@) == net_of(names@, old(adj)@).insert(
            (names@[i as int]@, names@[j as int]@),
            cost as nat,
        ),
{
    let link = Link { to: j, cost };
    let found = find_link(&adj[i], j);
    match found {
        Some(e) => {
            proof {
                lemma_arc_range(adj@[i as int]@, j as int);
            }
            adj[i][e] = link;
            proof {
                lemma_connect(names@, old(adj)@, adj@, i as int, link, e as int);
            }
        },
        None => {
            let ghost e = adj@[i as int]@.len() as int;
            adj[i].push(link);
            proof {
                lemma_connect(names@, old(adj)@, adj@, i as int, link, e);
            }
        },
    }
}

/// The network of stations. It is built once from a list of edges and only
/// read afterwards.
pub struct Graph {
    pub(crate) names: Vec<String>,
    pub(crate) adj: Vec<Vec<Link>>,
}

impl View for Graph {
    type V = Network;

    closed spec fn view(&self) -> Network {
        net_of(self.names@, self.adj@)
    }
}

/// Unfolding `network_of` at the edge with index `k`.
proof fn lemma_network_step(edges: Seq<EdgeView>, k: int)
    requires
        0 <= k < edges.len(),
    ensures
        network_of(edges.take(k + 1)) == joined(network_of(edges.take(k)), edges[k]),
{
    assert(edges.take(k + 1).drop_last() =~= edges.take(k));
}

impl Graph {
    #[verifier::type_invariant]
    pub(crate) open spec fn inv(self) -> bool {
        names_distinct(self.names@) && rows_ok(self.adj@, self.names@.len())
    }

    /// What the view stands for, for the other modules of the library.
    pub(crate) proof fn lemma_view(&self)
        ensures
            self@ == net_of(self.names@, self.adj@),
    {
    }

    /// Builds the network from its edges. Each edge is entered in both
    /// directions; where two edges join the same pair of stations, the later
    /// one's cost stands.
    pub fn build(edges: &Vec<Edge>) -> (g: Graph)
        ensures
            g@ == network_of(edge_views(edges@)),
            symmetric(g@),
    {
        proof {
            law_network_symmetric(edge_views(edges@));
        }
        let mut names: Vec<String> = Vec::new();
        let mut adj: Vec<Vec<Link>> = Vec::new();
        let ghost all = edge_views(edges@);
        let mut k: usize = 0;
        assert(net_of(names@, adj@) =~= Map::empty());
        while k < edges.len()
            invariant
                all == edge_views(edges@),
                k <= edges@.len(),
                names_distinct(names@),
                rows_ok(adj@, names@.len()),
                net_of(names@, adj@) == network_of(all.take(k as int)),
            decreases edges@.len() - k,
        {
            let edge = &edges[k];
            let i = intern(&mut names, &mut adj, &edge.from_node);
            let j = intern(&mut names, &mut adj, &edge.to_node);
            connect(&names, &mut adj, i, j, edge.journey_time);
            connect(&names, &mut adj, j, i, edge.journey_time);
            proof {
                lemma_network_step(all, k as int);
            }
            k += 1;
        }
        assert(all.take(k as int) =~= all);
        Graph { names, adj }
    }

    /// The cost of the direct connection from `u` to `v`, or `None` where the
    /// two are not joined by an edge.
    pub fn edge_cost(&self, u: &str, v: &str) -> (r: Option<u32>)
        ensures
            match r {
                Some(c) => self@.contains_key((u@, v@)) && self@[(u@, v@)] == c as nat,
                None => !self@.contains_key((u@, v@)),
            },
    {
        proof {
            use_type_invariant(self);
        }
        let from = find_name(&self.names, &u.to_owned());
        let to = find_name(&self.names, &v.to_owned());
        match (from, to) {
            (Some(i), Some(j)) => {
                let row = &self.adj[i];
                match find_link(row, j) {
                    Some(e) => Some(row[e].cost),
                    None => None,
                }
            },
            _ => None,
        }
    }
}

} // verus!
