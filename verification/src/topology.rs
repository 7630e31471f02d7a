#![verifier::loop_isolation(false)]
//! Static minimum-latency routing over active nodes, where only switches carry
//! transit, and store-and-forward transfer scheduling on directed links.
use vstd::prelude::*;
use petgraph::graph::{DiGraph, NodeIndex};
use petgraph::unionfind::UnionFind;
use crate::model::{Error, ErrorKind, Result, State, Role, InterfaceType, Simulation, Reservation, outcome, keys_unique};
use crate::keyed::{Keyed, has_key, keyed, key_index, find, str_eq, lemma_index_of_key};
use crate::text::{str_lt, bytes_lt, utf8};

verus! {

#[derive(Clone, Debug)]
pub struct Hop {
    pub link: String,
    pub from: String,
    pub to: String,
    pub start_ns: u64,
    pub serialized_ns: u64,
    pub arrival_ns: u64,
}

#[derive(Clone, Debug)]
pub struct Transmission {
    pub source: String,
    pub destination: String,
    pub bytes: usize,
    pub submitted_ns: u64,
    pub completed_ns: u64,
    pub hops: Vec<Hop>,
}

/// Nanoseconds to clock `bytes` onto a link of `bandwidth` bits per second, rounded up.
pub open spec fn serialization(bytes: nat, bandwidth: nat) -> int {
    (bytes * 8 * 1_000_000_000 + bandwidth - 1) / (bandwidth as int)
}

/// Serialization time in ns; `Invalid` when it does not fit in `u64`.
pub fn serialization_ns(bytes: usize, bandwidth: u64) -> (r: Result<u64>)
    requires
        bandwidth > 0,
    ensures
        r is Ok <==> serialization(bytes as nat, bandwidth as nat) <= u64::MAX,
        r matches Ok(t) ==> t == serialization(bytes as nat, bandwidth as nat),
        r is Err ==> r->Err_0 is Invalid,
{
    let b = bytes as u128;
    let w = bandwidth as u128;
    proof {
        assert(b * 8 * 1_000_000_000 <= 0xffff_ffff_ffff_ffffint * 8_000_000_000) by (nonlinear_arith)
            requires b <= 0xffff_ffff_ffff_ffffint;
    }
    let bits_ns: u128 = b * 8 * 1_000_000_000;
    let t: u128 = (bits_ns + (w - 1)) / w;
    if t > 0xffff_ffff_ffff_ffff {
        return Err(Error::Invalid("transfer duration overflow".to_owned()));
    }
    Ok(t as u64)
}

#[verifier::external_type_specification]
#[verifier::external_body]
#[verifier::reject_recursive_types(N)]
#[verifier::reject_recursive_types(E)]
#[verifier::reject_recursive_types(Ty)]
#[verifier::reject_recursive_types(Ix)]
pub struct ExGraph<N, E, Ty, Ix>(petgraph::graph::Graph<N, E, Ty, Ix>);

#[verifier::external_type_specification]
#[verifier::external_body]
pub struct ExDirected(petgraph::Directed);

/// The node weights of a routing graph, in index order.
pub uninterp spec fn graph_nodes(g: DiGraph<String, (String, u128)>) -> Seq<Seq<char>>;

/// The edges of a routing graph in order of addition: source, target, link id, cost.
pub uninterp spec fn graph_edges(g: DiGraph<String, (String, u128)>) -> Seq<(nat, nat, Seq<char>, u128)>;

/// `petgraph::graph::Graph::new`: a graph without nodes or edges.
#[verifier::external_body]
pub(crate) fn graph_new() -> (g: DiGraph<String, (String, u128)>)
    ensures
        graph_nodes(g).len() == 0,
        graph_edges(g).len() == 0,
{
    DiGraph::new()
}

/// `petgraph::graph::Graph::add_node`: appends a node; its index is the former node count.
/// It panics when the count would reach `u32::MAX`, which `requires` leaves out.
#[verifier::external_body]
pub(crate) fn graph_add_node(g: &mut DiGraph<String, (String, u128)>, weight: String) -> (r: usize)
    requires
        graph_nodes(*old(g)).len() < u32::MAX,
    ensures
        r == graph_nodes(*old(g)).len(),
        graph_nodes(*final(g)) == graph_nodes(*old(g)).push(weight@),
        graph_edges(*final(g)) == graph_edges(*old(g)),
{
    g.add_node(weight).index()
}

/// `petgraph::graph::Graph::add_edge`: appends a directed edge between existing nodes.
/// It panics on a missing node or when the edge count would reach `u32::MAX`.
#[verifier::external_body]
pub(crate) fn graph_add_edge(g: &mut DiGraph<String, (String, u128)>, a: usize, b: usize, link: String, cost: u128)
    requires
        a < graph_nodes(*old(g)).len(),
        b < graph_nodes(*old(g)).len(),
        graph_edges(*old(g)).len() < u32::MAX,
    ensures
        graph_nodes(*final(g)) == graph_nodes(*old(g)),
        graph_edges(*final(g)) == graph_edges(*old(g)).push((a as nat, b as nat, link@, cost)),
{
    g.add_edge(NodeIndex::new(a), NodeIndex::new(b), (link, cost));
}

/// The outgoing edges of `a` as target, link id and cost, most recently added first.
pub open spec fn out_edges(edges: Seq<(nat, nat, Seq<char>, u128)>, a: nat) -> Seq<(nat, Seq<char>, u128)>
    decreases edges.len(),
{
    if edges.len() == 0 {
        Seq::empty()
    } else {
        let e = edges.last();
        let rest = out_edges(edges.drop_last(), a);
        if e.0 == a {
            seq![(e.1, e.2, e.3)] + rest
        } else {
            rest
        }
    }
}

/// `petgraph::graph::Graph::edges` on a directed graph: the outgoing edges of `a`,
/// which its documentation lists in reverse order of addition.
#[verifier::external_body]
fn graph_out_edges(g: &DiGraph<String, (String, u128)>, a: usize) -> (r: Vec<(usize, String, u128)>)
    requires
        a < graph_nodes(*g).len(),
    ensures
        r@.len() == out_edges(graph_edges(*g), a as nat).len(),
        forall|i: int| 0 <= i < r@.len() ==> {
            let e = #[trigger] out_edges(graph_edges(*g), a as nat)[i];
            r@[i].0 as nat == e.0 && r@[i].1@ == e.1 && r@[i].2 == e.2
        },
{
    let mut out = Vec::new();
    for e in g.edges(NodeIndex::new(a)) {
        let (link, cost) = e.weight();
        out.push((petgraph::visit::EdgeRef::target(&e).index(), link.clone(), *cost));
    }
    out
}

/// `p` is a nonempty sequence of nodes with an edge from each to the next.
pub open spec fn graph_walk(edges: Seq<(nat, nat, Seq<char>, u128)>, p: Seq<usize>) -> bool {
    &&& p.len() >= 1
    &&& forall|i: int| #![trigger p[i]] 0 <= i < p.len() - 1 ==> has_edge(edges, p[i] as nat, p[i + 1] as nat)
}

/// Some edge leads from `a` to `b`.
pub open spec fn has_edge(edges: Seq<(nat, nat, Seq<char>, u128)>, a: nat, b: nat) -> bool {
    exists|e: int| 0 <= e < edges.len() && (#[trigger] edges[e]).0 == a && edges[e].1 == b
}

/// What `petgraph::algo::astar` returns on a routing graph when every edge costs one
/// and the estimate is zero, searching from `start` for `goal`: the cost and the path.
pub uninterp spec fn astar_route(nodes: Seq<Seq<char>>, edges: Seq<(nat, nat, Seq<char>, u128)>, start: nat, goal: nat) -> Option<(nat, Seq<usize>)>;

/// `petgraph::algo::astar` with unit edge costs and a zero estimate, from `start` to
/// `goal`. Its result, a function of the graph and the two nodes, is named; as its
/// documentation says, it finds a path whenever one exists, and the path it gives runs
/// along edges from `start` to `goal`. Which of several shortest paths is not stated.
#[verifier::external_body]
pub(crate) fn graph_astar(g: &DiGraph<String, (String, u128)>, start: usize, goal: usize) -> (r: Option<(usize, Vec<usize>)>)
    requires
        start < graph_nodes(*g).len(),
        goal < graph_nodes(*g).len(),
    ensures
        r is Some <==> astar_route(graph_nodes(*g), graph_edges(*g), start as nat, goal as nat) is Some,
        r matches Some(p) ==> astar_route(graph_nodes(*g), graph_edges(*g), start as nat, goal as nat)
            == Some((p.0 as nat, p.1@)),
        (exists|p: Seq<usize>| #[trigger] graph_walk(graph_edges(*g), p) && p[0] == start && p.last() == goal) ==> r is Some,
        r matches Some(p) ==> graph_walk(graph_edges(*g), p.1@) && p.1@[0] == start && p.1@.last() == goal,
{
    let goal = NodeIndex::new(goal);
    petgraph::algo::astar(g, NodeIndex::new(start), |n| n == goal, |_| 1usize, |_| 0)
        .map(|(cost, path)| (cost, path.iter().map(|n| n.index()).collect()))
}

/// `petgraph::graph::Graph::find_edge` on a directed graph: the weight of the first edge
/// to `b` among the outgoing edges of `a`, which it walks most recently added first.
#[verifier::external_body]
pub(crate) fn graph_find_edge(g: &DiGraph<String, (String, u128)>, a: usize, b: usize) -> (r: Option<(String, u128)>)
    requires
        a < graph_nodes(*g).len(),
    ensures
        r is None <==> forall|i: int| 0 <= i < out_edges(graph_edges(*g), a as nat).len()
            ==> (#[trigger] out_edges(graph_edges(*g), a as nat)[i]).0 != b,
        r matches Some(w) ==> exists|i: int| 0 <= i < out_edges(graph_edges(*g), a as nat).len()
            && (#[trigger] out_edges(graph_edges(*g), a as nat)[i]).0 == b
            && out_edges(graph_edges(*g), a as nat)[i].1 == w.0@ && out_edges(graph_edges(*g), a as nat)[i].2 == w.1
            && forall|j: int| 0 <= j < i ==> out_edges(graph_edges(*g), a as nat)[j].0 != b,
{
    g.find_edge(NodeIndex::new(a), NodeIndex::new(b)).map(|e| g[e].clone())
}

pub proof fn lemma_out_edge(edges: Seq<(nat, nat, Seq<char>, u128)>, a: nat, i: int)
    requires
        0 <= i < out_edges(edges, a).len(),
    ensures
        exists|k: int| 0 <= k < edges.len() && #[trigger] edges[k] == (a, out_edges(edges, a)[i].0,
            out_edges(edges, a)[i].1, out_edges(edges, a)[i].2),
    decreases edges.len(),
{
    let e = edges.last();
    let rest = out_edges(edges.drop_last(), a);
    if e.0 == a && i == 0 {
        assert(edges[edges.len() - 1] == e);
    } else {
        let j = if e.0 == a { i - 1 } else { i };
        lemma_out_edge(edges.drop_last(), a, j);
        let k = choose|k: int| 0 <= k < edges.drop_last().len() && #[trigger] edges.drop_last()[k]
            == (a, rest[j].0, rest[j].1, rest[j].2);
        assert(edges[k] == edges.drop_last()[k]);
    }
}


/// The node that end `k` of link `l` sits on.
pub open spec fn end_node(sim: Simulation, l: crate::model::Link, k: int) -> Seq<char> {
    keyed(sim.interfaces@, l.interfaces[k]@).node@
}

pub open spec fn active_node(sim: Simulation, x: Seq<char>) -> bool {
    has_key(sim.nodes@, x) && keyed(sim.nodes@, x).state == State::Active
}

pub open spec fn switch_node(sim: Simulation, x: Seq<char>) -> bool {
    active_node(sim, x) && keyed(sim.nodes@, x).spec.role == Role::Switch
}

/// Some usable link joins `x` to `y`.
pub open spec fn linked(sim: Simulation, x: Seq<char>, y: Seq<char>) -> bool {
    exists|l: Seq<char>| #[trigger] usable_link(sim, l, x, y)
}

/// No usable link joins node `x` to any node.
pub open spec fn isolated(sim: Simulation, x: Seq<char>) -> bool {
    forall|l: Seq<char>, y: Seq<char>| !#[trigger] usable_link(sim, l, x, y)
}

/// Link `l` is up, joins data interfaces, and connects `x` with `y` either way round.
pub open spec fn usable_link(sim: Simulation, l: Seq<char>, x: Seq<char>, y: Seq<char>) -> bool {
    let link = keyed(sim.links@, l);
    &&& has_key(sim.links@, l)
    &&& link.spec.up
    &&& keyed(sim.interfaces@, link.interfaces[0]@).interface_type == InterfaceType::Data
    &&& ((end_node(sim, link, 0) == x && end_node(sim, link, 1) == y)
        || (end_node(sim, link, 0) == y && end_node(sim, link, 1) == x))
}

/// `links` carries traffic along the active nodes `path`, with only switches in transit.
pub open spec fn walk(sim: Simulation, path: Seq<Seq<char>>, links: Seq<Seq<char>>) -> bool {
    &&& path.len() == links.len() + 1
    &&& forall|i: int| 0 <= i < path.len() ==> active_node(sim, #[trigger] path[i])
    &&& forall|i: int| 0 < i < path.len() - 1 ==> switch_node(sim, #[trigger] path[i])
    &&& forall|i: int| 0 <= i < links.len() ==> usable_link(sim, #[trigger] links[i], path[i], path[i + 1])
}

/// `links` is a route from `source` to `destination`.
pub open spec fn route_ok(sim: Simulation, source: Seq<char>, destination: Seq<char>, links: Seq<Seq<char>>) -> bool {
    exists|path: Seq<Seq<char>>| #[trigger] walk(sim, path, links) && path[0] == source && path.last() == destination
}

/// The routing graph of an active simulation: active nodes in name order, and for
/// every up data link between two of them a pair of opposite edges.
struct RoutingGraph {
    graph: DiGraph<String, (String, u128)>,
    ids: Vec<String>,
    switches: Vec<bool>,
}

/// `g` is a routing graph of `sim` whose node `k` is `ids[k]`, a switch exactly when `switches[k]`.
spec fn graph_ok(g: DiGraph<String, (String, u128)>, ids: Seq<String>, switches: Seq<bool>, sim: Simulation) -> bool {
    &&& graph_base(g, ids, switches, sim)
    &&& forall|t: int| 0 <= t < sim.links@.len() ==> #[trigger] link_edged(graph_edges(g), ids, sim, t)
}

/// The nodes are the active nodes, and every edge is a usable link of bounded cost.
spec fn graph_base(g: DiGraph<String, (String, u128)>, ids: Seq<String>, switches: Seq<bool>, sim: Simulation) -> bool {
    let gn = graph_nodes(g);
    let ge = graph_edges(g);
    &&& gn == ids.map_values(|x: String| x@)
    &&& gn.len() == ids.len() && switches.len() == ids.len()
    &&& forall|k: int| 0 <= k < ids.len() ==> active_node(sim, (#[trigger] ids[k])@)
        && (switches[k] <==> keyed(sim.nodes@, ids[k]@).spec.role == Role::Switch)
    &&& forall|x: Seq<char>| #[trigger] active_node(sim, x) ==> exists|k: int| 0 <= k < ids.len() && ids[k]@ == x
    &&& forall|e: int| 0 <= e < ge.len() ==> (#[trigger] ge[e]).0 < gn.len() && ge[e].1 < gn.len() && ge[e].3 >= 1
        && usable_link(sim, ge[e].2, ids[ge[e].0 as int]@, ids[ge[e].1 as int]@)
    &&& forall|e: int| 0 <= e < ge.len() ==> (#[trigger] ge[e]).3 <= max_cost()
    &&& forall|e: int| 0 <= e < ge.len() ==> (#[trigger] ge[e]).3 == link_weight(sim, ge[e].2)
}

/// The search cost of link `l`: its latency times one more than the node count, plus
/// one, so that lower latency always wins and equal latencies prefer fewer hops.
pub open spec fn link_weight(sim: Simulation, l: Seq<char>) -> int {
    keyed(sim.links@, l).spec.latency_ns * (sim.nodes@.len() + 1) + 1
}

/// A bound on the cost of one edge: the largest latency times the node bound, plus one.
pub open spec fn max_cost() -> u128 {
    4_294_967_296_000_000_000_001u128
}

/// `i` is the first place of `x` among `ids`.
pub open spec fn first_at(ids: Seq<String>, x: Seq<char>, i: int) -> bool {
    0 <= i < ids.len() && ids[i]@ == x && forall|j: int| 0 <= j < i ==> (#[trigger] ids[j])@ != x
}

/// Link `t` has an edge each way between the first places of its ends, where it can carry traffic.
pub open spec fn link_edged(ge: Seq<(nat, nat, Seq<char>, u128)>, ids: Seq<String>, sim: Simulation, t: int) -> bool {
    forall|x: Seq<char>, y: Seq<char>, i: int, j: int|
        #![trigger usable_link(sim, sim.links@[t].id@, x, y), first_at(ids, x, i), first_at(ids, y, j)]
        usable_link(sim, sim.links@[t].id@, x, y) && first_at(ids, x, i) && first_at(ids, y, j)
            ==> edge_in(ge, i as nat, j as nat, sim.links@[t].id@)
}

/// `x` has a first place among `ids`.
pub open spec fn placed(ids: Seq<String>, x: Seq<char>) -> bool {
    exists|k: int| first_at(ids, x, k)
}

proof fn lemma_first_unique(ids: Seq<String>, x: Seq<char>, i: int, j: int)
    requires
        first_at(ids, x, i),
        first_at(ids, x, j),
    ensures
        i == j,
{
    if i < j {
        assert(ids[i]@ != x);
    }
    if j < i {
        assert(ids[j]@ == x);
    }
}

proof fn lemma_first_exists(ids: Seq<String>, x: Seq<char>, k: int)
    requires
        0 <= k < ids.len(),
        ids[k]@ == x,
    ensures
        exists|i: int| first_at(ids, x, i),
    decreases k,
{
    if exists|j: int| 0 <= j < k && (#[trigger] ids[j])@ == x {
        let j = choose|j: int| 0 <= j < k && (#[trigger] ids[j])@ == x;
        lemma_first_exists(ids, x, j);
    } else {
        assert(first_at(ids, x, k));
    }
}

proof fn lemma_edge_in_grows(ge0: Seq<(nat, nat, Seq<char>, u128)>, ge: Seq<(nat, nat, Seq<char>, u128)>, a: nat, b: nat, l: Seq<char>)
    requires
        ge0.len() <= ge.len(),
        forall|e: int| 0 <= e < ge0.len() ==> ge[e] == ge0[e],
        edge_in(ge0, a, b, l),
    ensures
        edge_in(ge, a, b, l),
{
    let e = choose|e: int| 0 <= e < ge0.len() && (#[trigger] ge0[e]).0 == a && ge0[e].1 == b && ge0[e].2 == l;
    assert(ge[e] == ge0[e]);
}

impl RoutingGraph {
    spec fn graph_ok(&self, sim: Simulation) -> bool {
        graph_ok(self.graph, self.ids@, self.switches@, sim)
    }
}

/// The position of `k` in `v`, if it is there.
fn position(v: &Vec<String>, k: &str) -> (r: Option<usize>)
    ensures
        r matches Some(i) ==> i < v@.len() && v@[i as int]@ == k@ && first_at(v@, k@, i as int),
        r is None ==> forall|i: int| 0 <= i < v@.len() ==> (#[trigger] v@[i])@ != k@,
{
    let mut i: usize = 0;
    while i < v.len()
        invariant
            i <= v@.len(),
            forall|j: int| 0 <= j < i ==> (#[trigger] v@[j])@ != k@,
        decreases v@.len() - i,
    {
        if str_eq(v[i].as_str(), k) {
            return Some(i);
        }
        i += 1;
    }
    None
}

/// Does `t` occur in `r`?
pub open spec fn listed(r: Seq<usize>, t: int) -> bool {
    exists|k: int| 0 <= k < r.len() && r[k] == t
}

/// Positions of the active nodes, sorted by node name.
fn active_in_name_order(sim: &Simulation) -> (r: Vec<usize>)
    ensures
        r@.len() <= sim.nodes@.len(),
        forall|k: int| 0 <= k < r@.len() ==> #[trigger] r@[k] < sim.nodes@.len()
            && sim.nodes@[r@[k] as int].state == State::Active,
        forall|t: int| 0 <= t < sim.nodes@.len() && sim.nodes@[t].state == State::Active ==> #[trigger] listed(r@, t),
{
    let mut r: Vec<usize> = Vec::new();
    let mut i: usize = 0;
    while i < sim.nodes.len()
        invariant
            i <= sim.nodes@.len(),
            r@.len() <= i,
            forall|k: int| 0 <= k < r@.len() ==> #[trigger] r@[k] < sim.nodes@.len()
                && sim.nodes@[r@[k] as int].state == State::Active,
            forall|t: int| 0 <= t < i && sim.nodes@[t].state == State::Active ==> #[trigger] listed(r@, t),
        decreases sim.nodes@.len() - i,
    {
        let ghost r0 = r@;
        if sim.nodes[i].state == State::Active {
            r.push(i);
            proof {
                assert(r@[r@.len() - 1] == i);
                assert forall|t: int| 0 <= t < i + 1 && sim.nodes@[t].state == State::Active implies #[trigger] listed(r@, t) by {
                    if t < i {
                        assert(listed(r0, t));
                        let k = choose|k: int| 0 <= k < r0.len() && r0[k] == t;
                        assert(r@[k] == t);
                    }
                }
            }
        }
        i += 1;
    }
    let ghost n = r@.len();
    let mut i: usize = 1;
    while i < r.len()
        invariant
            r@.len() == n,
            forall|k: int| 0 <= k < r@.len() ==> #[trigger] r@[k] < sim.nodes@.len()
                && sim.nodes@[r@[k] as int].state == State::Active,
            forall|t: int| 0 <= t < sim.nodes@.len() && sim.nodes@[t].state == State::Active ==> #[trigger] listed(r@, t),
        decreases n - i,
    {
        let mut j: usize = i;
        while j > 0 && str_lt(sim.nodes[r[j]].spec.name.as_str(), sim.nodes[r[j - 1]].spec.name.as_str())
            invariant
                r@.len() == n,
                j < r@.len(),
                forall|k: int| 0 <= k < r@.len() ==> #[trigger] r@[k] < sim.nodes@.len()
                    && sim.nodes@[r@[k] as int].state == State::Active,
                forall|t: int| 0 <= t < sim.nodes@.len() && sim.nodes@[t].state == State::Active ==> #[trigger] listed(r@, t),
            decreases j,
        {
            let t = r[j];
            let u = r[j - 1];
            let ghost r0 = r@;
            r.set(j, u);
            r.set(j - 1, t);
            proof {
                assert forall|x: int| 0 <= x < sim.nodes@.len() && sim.nodes@[x].state == State::Active implies #[trigger] listed(r@, x) by {
                    assert(listed(r0, x));
                    let k = choose|k: int| 0 <= k < r0.len() && (#[trigger] r0[k]) == x;
                    if k == j {
                        assert(r@[j - 1] == x);
                    } else if k == j - 1 {
                        assert(r@[j as int] == x);
                    } else {
                        assert(r@[k] == x);
                    }
                }
            }
            j -= 1;
        }
        i += 1;
    }
    r
}

/// Four names in lexicographic byte order.
pub open spec fn quad_less(x: (Seq<char>, Seq<char>, Seq<char>, Seq<char>), y: (Seq<char>, Seq<char>, Seq<char>, Seq<char>)) -> bool {
    bytes_lt(utf8(x.0), utf8(y.0)) || (x.0 == y.0 && (bytes_lt(utf8(x.1), utf8(y.1))
        || (x.1 == y.1 && (bytes_lt(utf8(x.2), utf8(y.2))
        || (x.2 == y.2 && bytes_lt(utf8(x.3), utf8(y.3)))))))
}

/// The node name and interface name of the link end `id`.
pub open spec fn end_names(sim: Simulation, id: Seq<char>) -> (Seq<char>, Seq<char>) {
    let i = keyed(sim.interfaces@, id);
    (keyed(sim.nodes@, i.node@).spec.name@, i.name@)
}

/// The sort key of a link: the names of its lesser end, then of the other.
pub open spec fn sort_key(sim: Simulation, l: int) -> (Seq<char>, Seq<char>, Seq<char>, Seq<char>) {
    let a = end_names(sim, sim.links@[l].interfaces[0]@);
    let b = end_names(sim, sim.links@[l].interfaces[1]@);
    let x = (a.0, a.1, b.0, b.1);
    let y = (b.0, b.1, a.0, a.1);
    if quad_less(y, x) { y } else { x }
}

/// The names that order link `l`: the node and interface of its lesser end, then of the
/// other, so that the order does not depend on which end is listed first.
fn link_sort_key(sim: &Simulation, l: usize) -> (r: [&str; 4])
    requires
        sim.wf(),
        l < sim.links@.len(),
    ensures
        (r[0]@, r[1]@, r[2]@, r[3]@) == sort_key(*sim, l as int),
{
    let link = &sim.links[l];
    proof {
        assert(has_key(sim.interfaces@, sim.links@[l as int].interfaces[0]@));
    }
    let a = find(&sim.interfaces, link.interfaces[0].as_str()).unwrap();
    let b = find(&sim.interfaces, link.interfaces[1].as_str()).unwrap();
    proof {
        lemma_index_of_key(sim.interfaces@, a as int);
        lemma_index_of_key(sim.interfaces@, b as int);
        assert(has_key(sim.nodes@, sim.interfaces@[a as int].node@));
        assert(has_key(sim.nodes@, sim.interfaces@[b as int].node@));
    }
    let na = find(&sim.nodes, sim.interfaces[a].node.as_str()).unwrap();
    let nb = find(&sim.nodes, sim.interfaces[b].node.as_str()).unwrap();
    proof {
        lemma_index_of_key(sim.nodes@, na as int);
        lemma_index_of_key(sim.nodes@, nb as int);
    }
    let x = [sim.nodes[na].spec.name.as_str(), sim.interfaces[a].name.as_str(),
        sim.nodes[nb].spec.name.as_str(), sim.interfaces[b].name.as_str()];
    let y = [x[2], x[3], x[0], x[1]];
    if keys_lt(y, x) { y } else { x }
}

/// Lexicographic `x < y` over four strings.
fn keys_lt(x: [&str; 4], y: [&str; 4]) -> (r: bool)
    ensures
        r == (bytes_lt(utf8(x[0]@), utf8(y[0]@)) || (x[0]@ == y[0]@ && (bytes_lt(utf8(x[1]@), utf8(y[1]@))
            || (x[1]@ == y[1]@ && (bytes_lt(utf8(x[2]@), utf8(y[2]@))
            || (x[2]@ == y[2]@ && bytes_lt(utf8(x[3]@), utf8(y[3]@))))))))
{
    proof {
        crate::text::lemma_bytes_lt_irreflexive(utf8(x[0]@));
        crate::text::lemma_bytes_lt_irreflexive(utf8(x[1]@));
        crate::text::lemma_bytes_lt_irreflexive(utf8(x[2]@));
    }
    if !str_eq(x[0], y[0]) {
        return str_lt(x[0], y[0]);
    }
    if !str_eq(x[1], y[1]) {
        return str_lt(x[1], y[1]);
    }
    if !str_eq(x[2], y[2]) {
        return str_lt(x[2], y[2]);
    }
    str_lt(x[3], y[3])
}

/// Positions of all links, sorted by the names of their ends.
fn links_in_name_order(sim: &Simulation) -> (r: Vec<usize>)
    requires
        sim.wf(),
    ensures
        r@.len() == sim.links@.len(),
        forall|k: int| 0 <= k < r@.len() ==> #[trigger] r@[k] < sim.links@.len(),
        forall|t: int| 0 <= t < sim.links@.len() ==> #[trigger] listed(r@, t),
{
    let mut r: Vec<usize> = Vec::new();
    let mut i: usize = 0;
    while i < sim.links.len()
        invariant
            i <= sim.links@.len(),
            r@.len() == i,
            forall|k: int| 0 <= k < r@.len() ==> (#[trigger] r@[k]) == k,
        decreases sim.links@.len() - i,
    {
        r.push(i);
        i += 1;
    }
    proof {
        assert forall|t: int| 0 <= t < sim.links@.len() implies #[trigger] listed(r@, t) by {
            assert(r@[t] == t);
        }
    }
    let ghost n = r@.len();
    let mut i: usize = 1;
    while i < r.len()
        invariant
            r@.len() == n,
            forall|k: int| 0 <= k < r@.len() ==> #[trigger] r@[k] < sim.links@.len(),
            forall|t: int| 0 <= t < sim.links@.len() ==> #[trigger] listed(r@, t),
        decreases n - i,
    {
        let mut j: usize = i;
        while j > 0 && keys_lt(link_sort_key(sim, r[j]), link_sort_key(sim, r[j - 1]))
            invariant
                r@.len() == n,
                j < r@.len(),
                forall|k: int| 0 <= k < r@.len() ==> #[trigger] r@[k] < sim.links@.len(),
                forall|t: int| 0 <= t < sim.links@.len() ==> #[trigger] listed(r@, t),
            decreases j,
        {
            let t = r[j];
            let u = r[j - 1];
            let ghost r0 = r@;
            r.set(j, u);
            r.set(j - 1, t);
            proof {
                assert forall|x: int| 0 <= x < sim.links@.len() implies #[trigger] listed(r@, x) by {
                    assert(listed(r0, x));
                    let k = choose|k: int| 0 <= k < r0.len() && (#[trigger] r0[k]) == x;
                    if k == j {
                        assert(r@[j - 1] == x);
                    } else if k == j - 1 {
                        assert(r@[j as int] == x);
                    } else {
                        assert(r@[k] == x);
                    }
                }
            }
            j -= 1;
        }
        i += 1;
    }
    r
}

/// Node and edge indices of the routing graph stay below `u32::MAX`.
pub open spec fn graph_fits(sim: Simulation) -> bool {
    sim.nodes@.len() < 0xffff_fffe && sim.links@.len() < 0x7fff_fffe
}

pub open spec fn graph_fault(sim: Simulation) -> Option<ErrorKind> {
    if sim.state != State::Active {
        Some(ErrorKind::State)
    } else if exists|i: int| 0 <= i < sim.links@.len() && !((#[trigger] sim.links@[i]).spec.bandwidth_bps > 0
        && sim.links@[i].spec.latency_ns <= 1_000_000_000_000) {
        Some(ErrorKind::Invalid)
    } else {
        None
    }
}

impl RoutingGraph {
    /// The routing graph of `sim`. Edge choice depends on latency only: the cost of
    /// a link is its latency times one more than the node count, plus one, so that
    /// among equal latencies fewer hops win.
    fn new(sim: &Simulation) -> (r: Result<RoutingGraph>)
        requires
            sim.wf(),
            graph_fits(*sim),
        ensures
            r matches Ok(g) ==> g.graph_ok(*sim) && g.ids@.len() <= sim.nodes@.len(),
            outcome(r) == graph_fault(*sim),
    {
        sim.active()?;
        let order = active_in_name_order(sim);
        let mut graph = graph_new();
        let mut ids: Vec<String> = Vec::new();
        let mut switches: Vec<bool> = Vec::new();
        proof { assert(ids@.map_values(|x: String| x@) =~= graph_nodes(graph)); }
        let mut i: usize = 0;
        while i < order.len()
            invariant
                sim.wf(),
                forall|k: int| 0 <= k < order@.len() ==> #[trigger] order@[k] < sim.nodes@.len()
                    && sim.nodes@[order@[k] as int].state == State::Active,
                graph_edges(graph).len() == 0,
                ids@.len() == i,
                order@.len() <= sim.nodes@.len(),
                sim.nodes@.len() < 0xffff_fffe,
                i <= order@.len(),
                forall|q: int| 0 <= q < i ==> (#[trigger] ids@[q])@ == sim.nodes@[order@[q] as int].id@,
                forall|t: int| 0 <= t < sim.nodes@.len() && sim.nodes@[t].state == State::Active ==> #[trigger] listed(order@, t),
                graph_nodes(graph) == ids@.map_values(|x: String| x@),
                switches@.len() == ids@.len(),
                forall|k: int| 0 <= k < ids@.len() ==> active_node(*sim, (#[trigger] ids@[k])@)
                    && (switches@[k] <==> keyed(sim.nodes@, ids@[k]@).spec.role == Role::Switch),
            decreases order@.len() - i,
        {
            let k = order[i];
            let n = &sim.nodes[k];
            proof { lemma_index_of_key(sim.nodes@, k as int); }
            let ghost gn0 = graph_nodes(graph);
            let ghost ids0 = ids@;
            let ghost sw0 = switches@;
            graph_add_node(&mut graph, n.id.clone());
            ids.push(n.id.clone());
            switches.push(n.spec.role == Role::Switch);
            proof {
                assert(ids@.map_values(|x: String| x@) =~= ids0.map_values(|x: String| x@).push(n.id@));
                assert forall|q: int| 0 <= q < ids@.len() implies active_node(*sim, (#[trigger] ids@[q])@)
                    && (switches@[q] <==> keyed(sim.nodes@, ids@[q]@).spec.role == Role::Switch) by {
                    if q < ids0.len() {
                        assert(ids@[q] == ids0[q] && switches@[q] == sw0[q]);
                    }
                }
                assert forall|q: int| 0 <= q < i + 1 implies (#[trigger] ids@[q])@ == sim.nodes@[order@[q] as int].id@ by {
                    if q < i {
                        assert(ids@[q] == ids0[q]);
                    }
                }
            }
            i += 1;
        }
        proof {
            assert forall|x: Seq<char>| #[trigger] active_node(*sim, x) implies exists|k: int| 0 <= k < ids@.len() && ids@[k]@ == x by {
                let t = key_index(sim.nodes@, x);
                assert(sim.nodes@[t].key() == x);
                assert(listed(order@, t));
                let k = choose|k: int| 0 <= k < order@.len() && order@[k] == t;
                assert(ids@[k]@ == sim.nodes@[order@[k] as int].id@);
            }
        }
        let lorder = links_in_name_order(sim);
        let mut edge_count: usize = 0;
        let mut j: usize = 0;
        while j < lorder.len()
            invariant
                sim.wf(),
                sim.state == State::Active,
                forall|k: int| 0 <= k < lorder@.len() ==> #[trigger] lorder@[k] < sim.links@.len(),
                graph_nodes(graph).len() == ids@.len(),
                ids@.len() <= 0xffff_fffe,
                edge_count == graph_edges(graph).len(),
                edge_count <= 2 * j,
                j <= lorder@.len(),
                lorder@.len() == sim.links@.len(),
                sim.links@.len() < 0x7fff_fffe,
                ids@.len() <= sim.nodes@.len(),
                graph_base(graph, ids@, switches@, *sim),
                forall|k: int| 0 <= k < j ==> #[trigger] link_edged(graph_edges(graph), ids@, *sim, lorder@[k] as int),
                forall|t: int| 0 <= t < sim.links@.len() ==> #[trigger] listed(lorder@, t),
                forall|k: int| 0 <= k < j ==> (#[trigger] sim.links@[lorder@[k] as int]).spec.bandwidth_bps > 0
                    && sim.links@[lorder@[k] as int].spec.latency_ns <= 1_000_000_000_000,
            decreases lorder@.len() - j,
        {
            let li = lorder[j];
            let link = &sim.links[li];
            proof { lemma_index_of_key(sim.links@, li as int); }
            if let Err(e) = link.spec.validate() {
                proof {
                    assert(!(sim.links@[li as int].spec.bandwidth_bps > 0
                        && sim.links@[li as int].spec.latency_ns <= 1_000_000_000_000));
                }
                return Err(e);
            }
            let a = find(&sim.interfaces, link.interfaces[0].as_str()).unwrap();
            let b = find(&sim.interfaces, link.interfaces[1].as_str()).unwrap();
            proof {
                lemma_index_of_key(sim.interfaces@, a as int);
                lemma_index_of_key(sim.interfaces@, b as int);
            }
            if link.spec.up && sim.interfaces[a].interface_type == InterfaceType::Data {
                let x = position(&ids, sim.interfaces[a].node.as_str());
                let y = position(&ids, sim.interfaces[b].node.as_str());
                if let (Some(x), Some(y)) = (x, y) {
                    let count = sim.nodes.len() as u128 + 1;
                    let lat = link.spec.latency_ns as u128;
                    proof {
                        assert(lat * count <= 1_000_000_000_000 * 0x1_0000_0000) by (nonlinear_arith)
                            requires lat <= 1_000_000_000_000, count <= 0x1_0000_0000;
                    }
                    let cost: u128 = lat * count + 1;
                    let ghost ge0 = graph_edges(graph);
                    let ghost gn0 = graph_nodes(graph);
                    graph_add_edge(&mut graph, x, y, link.id.clone(), cost);
                    graph_add_edge(&mut graph, y, x, link.id.clone(), cost);
                    edge_count = edge_count + 2;
                    proof {
                        let ge = graph_edges(graph);
                        assert(ge =~= ge0.push((x as nat, y as nat, link.id@, cost)).push((y as nat, x as nat, link.id@, cost)));
                        assert(keyed(sim.links@, link.id@) == sim.links@[li as int]);
                        assert forall|e: int| 0 <= e < ge.len() implies (#[trigger] ge[e]).0 < ids@.len() && ge[e].1 < ids@.len() && ge[e].3 >= 1
                            && usable_link(*sim, ge[e].2, ids@[ge[e].0 as int]@, ids@[ge[e].1 as int]@) by {
                            if e < ge0.len() {
                                assert(ge[e] == ge0[e]);
                            }
                        }
                        assert forall|e: int| 0 <= e < ge.len() implies (#[trigger] ge[e]).3 <= max_cost() by {
                            if e < ge0.len() {
                                assert(ge[e] == ge0[e]);
                            }
                        }
                        assert forall|e: int| 0 <= e < ge.len() implies (#[trigger] ge[e]).3 == link_weight(*sim, ge[e].2) by {
                            if e < ge0.len() {
                                assert(ge[e] == ge0[e]);
                            }
                        }
                        assert(graph_nodes(graph) == gn0);
                        assert forall|k: int| 0 <= k < j implies #[trigger] link_edged(ge, ids@, *sim, lorder@[k] as int) by {
                            let t = lorder@[k] as int;
                            assert(link_edged(ge0, ids@, *sim, t));
                            assert forall|p: Seq<char>, q: Seq<char>, i: int, i2: int|
                                usable_link(*sim, sim.links@[t].id@, p, q) && first_at(ids@, p, i) && first_at(ids@, q, i2)
                                implies edge_in(ge, i as nat, i2 as nat, sim.links@[t].id@) by {
                                lemma_edge_in_grows(ge0, ge, i as nat, i2 as nat, sim.links@[t].id@);
                            }
                        }
                        let na = sim.interfaces@[a as int].node@;
                        let nb = sim.interfaces@[b as int].node@;
                        assert forall|p: Seq<char>, q: Seq<char>, i: int, i2: int|
                            usable_link(*sim, sim.links@[li as int].id@, p, q) && first_at(ids@, p, i) && first_at(ids@, q, i2)
                            implies edge_in(ge, i as nat, i2 as nat, sim.links@[li as int].id@) by {
                            assert(keyed(sim.interfaces@, link.interfaces[0]@) == sim.interfaces@[a as int]);
                            assert(keyed(sim.interfaces@, link.interfaces[1]@) == sim.interfaces@[b as int]);
                            if p == na && q == nb {
                                lemma_first_unique(ids@, p, i, x as int);
                                lemma_first_unique(ids@, q, i2, y as int);
                                assert(ge[ge0.len() as int] == (x as nat, y as nat, link.id@, cost));
                            } else {
                                lemma_first_unique(ids@, p, i, y as int);
                                lemma_first_unique(ids@, q, i2, x as int);
                                assert(ge[ge0.len() as int + 1] == (y as nat, x as nat, link.id@, cost));
                            }
                        }
                        assert(link_edged(ge, ids@, *sim, li as int));
                    }
                } else {
                    proof {
                        let ge = graph_edges(graph);
                        assert(keyed(sim.links@, link.id@) == sim.links@[li as int]);
                        assert(keyed(sim.interfaces@, link.interfaces[0]@) == sim.interfaces@[a as int]);
                        assert(keyed(sim.interfaces@, link.interfaces[1]@) == sim.interfaces@[b as int]);
                        assert forall|p: Seq<char>, q: Seq<char>, i: int, i2: int|
                            usable_link(*sim, sim.links@[li as int].id@, p, q) && first_at(ids@, p, i) && first_at(ids@, q, i2)
                            implies edge_in(ge, i as nat, i2 as nat, sim.links@[li as int].id@) by {
                            assert(ids@[i]@ == p && ids@[i2]@ == q);
                        }
                        assert(link_edged(ge, ids@, *sim, li as int));
                    }
                }
            } else {
                proof {
                    let ge = graph_edges(graph);
                    assert(keyed(sim.links@, link.id@) == sim.links@[li as int]);
                    assert(keyed(sim.interfaces@, link.interfaces[0]@) == sim.interfaces@[a as int]);
                    assert(link_edged(ge, ids@, *sim, li as int));
                }
            }
            j += 1;
        }
        proof {
            assert forall|t: int| 0 <= t < sim.links@.len() implies (#[trigger] sim.links@[t]).spec.bandwidth_bps > 0
                && sim.links@[t].spec.latency_ns <= 1_000_000_000_000 by {
                assert(listed(lorder@, t));
                let k = choose|k: int| 0 <= k < lorder@.len() && (#[trigger] lorder@[k]) == t;
                assert(sim.links@[lorder@[k] as int].spec.bandwidth_bps > 0);
            }
            assert forall|t: int| 0 <= t < sim.links@.len() implies #[trigger] link_edged(graph_edges(graph), ids@, *sim, t) by {
                assert(listed(lorder@, t));
                let k = choose|k: int| 0 <= k < lorder@.len() && (#[trigger] lorder@[k]) == t;
                assert(link_edged(graph_edges(graph), ids@, *sim, lorder@[k] as int));
            }
        }
        Ok(RoutingGraph { graph, ids, switches })
    }
}


/// The graph has an edge from `a` to `b` for link `l`.
pub open spec fn edge_in(ge: Seq<(nat, nat, Seq<char>, u128)>, a: nat, b: nat, l: Seq<char>) -> bool {
    exists|e: int| 0 <= e < ge.len() && (#[trigger] ge[e]).0 == a && ge[e].1 == b && ge[e].2 == l
}

/// Every edge joins nodes below `n` and costs at least one.
spec fn edges_ok(ge: Seq<(nat, nat, Seq<char>, u128)>, n: nat) -> bool {
    forall|e: int| 0 <= e < ge.len() ==> (#[trigger] ge[e]).0 < n && ge[e].1 < n && ge[e].3 >= 1 && ge[e].3 <= max_cost()
}

/// Every edge out of a reached node that relays leads to a reached node.
spec fn closed(ge: Seq<(nat, nat, Seq<char>, u128)>, switches: Seq<bool>, start: int, dist: Seq<Option<u128>>) -> bool {
    forall|k: int| 0 <= k < ge.len() && dist[(#[trigger] ge[k]).0 as int] is Some
        && (ge[k].0 == start || switches[ge[k].0 as int]) ==> dist[ge[k].1 as int] is Some
}

/// Every edge out of a settled node that relays leads to a reached node, but those out of `u`.
spec fn relaxed_but(ge: Seq<(nat, nat, Seq<char>, u128)>, switches: Seq<bool>, start: int, dist: Seq<Option<u128>>,
    settled: Seq<bool>, u: int) -> bool {
    forall|k: int| 0 <= k < ge.len() && settled[(#[trigger] ge[k]).0 as int] && ge[k].0 != u
        && (ge[k].0 == start || switches[ge[k].0 as int]) ==> dist[ge[k].1 as int] is Some
}

/// How many places of `s` are set.
spec fn count_true(s: Seq<bool>) -> nat
    decreases s.len(),
{
    if s.len() == 0 {
        0
    } else {
        count_true(s.drop_last()) + if s.last() { 1nat } else { 0nat }
    }
}

proof fn lemma_count_bound(s: Seq<bool>)
    ensures
        count_true(s) <= s.len(),
        count_true(s) == s.len() ==> forall|i: int| 0 <= i < s.len() ==> s[i],
    decreases s.len(),
{
    if s.len() > 0 {
        lemma_count_bound(s.drop_last());
        if count_true(s) == s.len() {
            assert forall|i: int| 0 <= i < s.len() implies s[i] by {
                if i < s.len() - 1 {
                    assert(s[i] == s.drop_last()[i]);
                }
            }
        }
    }
}

proof fn lemma_count_set(s: Seq<bool>, i: int)
    requires
        0 <= i < s.len(),
        !s[i],
    ensures
        count_true(s.update(i, true)) == count_true(s) + 1,
    decreases s.len(),
{
    let t = s.update(i, true);
    if i == s.len() - 1 {
        assert(t.drop_last() =~= s.drop_last());
    } else {
        assert(t.drop_last() =~= s.drop_last().update(i, true));
        lemma_count_set(s.drop_last(), i);
    }
}

/// Every edge out of `a` is listed among its outgoing edges.
pub(crate) proof fn lemma_out_edge_listed(edges: Seq<(nat, nat, Seq<char>, u128)>, a: nat, k: int)
    requires
        0 <= k < edges.len(),
        edges[k].0 == a,
    ensures
        exists|i: int| 0 <= i < out_edges(edges, a).len()
            && #[trigger] out_edges(edges, a)[i] == (edges[k].1, edges[k].2, edges[k].3),
    decreases edges.len(),
{
    let last = edges.last();
    let rest = out_edges(edges.drop_last(), a);
    if k == edges.len() - 1 {
        assert(out_edges(edges, a)[0] == (edges[k].1, edges[k].2, edges[k].3));
    } else {
        assert(edges.drop_last()[k] == edges[k]);
        lemma_out_edge_listed(edges.drop_last(), a, k);
        let i = choose|i: int| 0 <= i < rest.len() && #[trigger] rest[i] == (edges[k].1, edges[k].2, edges[k].3);
        if last.0 == a {
            assert(out_edges(edges, a)[i + 1] == rest[i]);
        } else {
            assert(out_edges(edges, a)[i] == rest[i]);
        }
    }
}

/// A relaying chain from `start` ends at a reached node.
proof fn lemma_chain_reached(ge: Seq<(nat, nat, Seq<char>, u128)>, switches: Seq<bool>, start: int,
    dist: Seq<Option<u128>>, path: Seq<nat>, links: Seq<Seq<char>>, i: int)
    requires
        closed(ge, switches, start, dist),
        dist.len() == switches.len(),
        dist[start] is Some,
        chain(ge, switches, path, links),
        path[0] == start,
        0 <= i < path.len(),
    ensures
        dist[path[i] as int] is Some,
    decreases i,
{
    if i > 0 {
        let j = i - 1;
        lemma_chain_reached(ge, switches, start, dist, path, links, j);
        assert(edge_in(ge, path[j], path[j + 1], links[j]));
        let e = choose|e: int| 0 <= e < ge.len() && (#[trigger] ge[e]).0 == path[j] && ge[e].1 == path[j + 1] && ge[e].2 == links[j];
        if j > 0 {
            assert(switches[path[j] as int]);
        }
    }
}

/// Every edge out of a settled node that relays, but those out of `u`, leads to a
/// reached node at most the edge's cost farther.
#[verifier::opaque]
spec fn tight_but(ge: Seq<(nat, nat, Seq<char>, u128)>, switches: Seq<bool>, start: int, dist: Seq<Option<u128>>,
    settled: Seq<bool>, u: int) -> bool {
    forall|k: int| 0 <= k < ge.len() && settled[(#[trigger] ge[k]).0 as int] && ge[k].0 != u
        && (ge[k].0 == start || switches[ge[k].0 as int]) ==> dist[ge[k].1 as int] is Some
        && dist[ge[k].1 as int]->0 <= dist[ge[k].0 as int]->0 + ge[k].3
}

/// Every edge out of a reached node that relays leads to a reached node at most the
/// edge's cost farther.
#[verifier::opaque]
spec fn relaxed_all(ge: Seq<(nat, nat, Seq<char>, u128)>, switches: Seq<bool>, start: int, dist: Seq<Option<u128>>) -> bool {
    forall|k: int| 0 <= k < ge.len() && dist[(#[trigger] ge[k]).0 as int] is Some
        && (ge[k].0 == start || switches[ge[k].0 as int]) ==> dist[ge[k].1 as int] is Some
        && dist[ge[k].1 as int]->0 <= dist[ge[k].0 as int]->0 + ge[k].3
}

/// No settled node is farther than a reached node that is not settled.
#[verifier::opaque]
spec fn settled_first(dist: Seq<Option<u128>>, settled: Seq<bool>) -> bool {
    forall|a: int, b: int| #![trigger settled[a], settled[b]] 0 <= a < settled.len() && 0 <= b < settled.len()
        && settled[a] && !settled[b] && dist[b] is Some ==> dist[a]->0 <= dist[b]->0
}

/// Every settled node is at most `d` away.
#[verifier::opaque]
spec fn settled_within(dist: Seq<Option<u128>>, settled: Seq<bool>, d: u128) -> bool {
    forall|a: int| 0 <= a < settled.len() && #[trigger] settled[a] ==> dist[a]->0 <= d
}

/// A node's parent is one edge back, and its distance is the parent's plus that edge's cost.
#[verifier::opaque]
spec fn tree_costs(ge: Seq<(nat, nat, Seq<char>, u128)>, dist: Seq<Option<u128>>, prev: Seq<Option<(usize, String)>>) -> bool {
    forall|v: int| 0 <= v < dist.len() && (#[trigger] prev[v]) is Some ==> parent_edge(ge, dist, prev, v)
}

spec fn parent_edge(ge: Seq<(nat, nat, Seq<char>, u128)>, dist: Seq<Option<u128>>, prev: Seq<Option<(usize, String)>>, v: int) -> bool {
    exists|e: int| 0 <= e < ge.len() && (#[trigger] ge[e]).0 == parent(prev, v) as nat && ge[e].1 == v as nat
        && ge[e].2 == parent_link(prev, v) && dist[v] is Some && dist[parent(prev, v)] is Some
        && dist[v]->0 == dist[parent(prev, v)]->0 + ge[e].3
}

/// The search state from `start`: parents are settled nodes that may carry
/// transit and lie strictly closer, along graph edges.
spec fn tree_ok(ge: Seq<(nat, nat, Seq<char>, u128)>, switches: Seq<bool>, start: int,
    dist: Seq<Option<u128>>, prev: Seq<Option<(usize, String)>>, settled: Seq<bool>) -> bool {
    let n = switches.len();
    &&& dist.len() == n && prev.len() == n && settled.len() == n
    &&& 0 <= start < n && dist[start] == Some(0u128) && prev[start] is None
    &&& forall|v: int| 0 <= v < n && #[trigger] settled[v] ==> dist[v] is Some
    &&& forall|v: int| 0 <= v < n && (#[trigger] dist[v]) is Some && v != start ==> prev[v] is Some
    &&& forall|v: int| 0 <= v < n && (#[trigger] prev[v]) is Some ==> {
        let p = parent(prev, v);
        &&& 0 <= p < n && settled[p] && dist[v] is Some && dist[p] is Some
        &&& dist[p]->0 < dist[v]->0
        &&& (p == start || switches[p])
        &&& v != start
        &&& edge_in(ge, p as nat, v as nat, parent_link(prev, v))
    }
}

spec fn parent(prev: Seq<Option<(usize, String)>>, v: int) -> int {
    match prev[v] {
        Some(e) => e.0 as int,
        None => 0,
    }
}

spec fn parent_link(prev: Seq<Option<(usize, String)>>, v: int) -> Seq<char> {
    match prev[v] {
        Some(e) => e.1@,
        None => Seq::empty(),
    }
}

spec fn searched(ge: Seq<(nat, nat, Seq<char>, u128)>, switches: Seq<bool>, start: int,
    dist: Seq<Option<u128>>, prev: Seq<Option<(usize, String)>>) -> bool {
    exists|settled: Seq<bool>| tree_ok(ge, switches, start, dist, prev, settled)
}

/// All edges of one link cost the same.
spec fn uniform(ge: Seq<(nat, nat, Seq<char>, u128)>) -> bool {
    forall|e1: int, e2: int| 0 <= e1 < ge.len() && 0 <= e2 < ge.len() && (#[trigger] ge[e1]).2 == (#[trigger] ge[e2]).2
        ==> ge[e1].3 == ge[e2].3
}

/// The cost of the edges of link `l`.
spec fn link_cost(ge: Seq<(nat, nat, Seq<char>, u128)>, l: Seq<char>) -> int {
    ge[choose|e: int| 0 <= e < ge.len() && ge[e].2 == l].3 as int
}

/// The cost of following `links` in turn.
spec fn links_cost(ge: Seq<(nat, nat, Seq<char>, u128)>, links: Seq<Seq<char>>) -> int
    decreases links.len(),
{
    if links.len() == 0 {
        0
    } else {
        links_cost(ge, links.drop_last()) + link_cost(ge, links.last())
    }
}

proof fn lemma_links_cost_prepend(ge: Seq<(nat, nat, Seq<char>, u128)>, l: Seq<char>, links: Seq<Seq<char>>)
    ensures
        links_cost(ge, seq![l] + links) == link_cost(ge, l) + links_cost(ge, links),
    decreases links.len(),
{
    if links.len() > 0 {
        let all = seq![l] + links;
        assert(all.drop_last() =~= seq![l] + links.drop_last());
        assert(all.last() == links.last());
        lemma_links_cost_prepend(ge, l, links.drop_last());
        assert(links_cost(ge, all) == links_cost(ge, all.drop_last()) + link_cost(ge, all.last()));
        assert(links_cost(ge, links) == links_cost(ge, links.drop_last()) + link_cost(ge, links.last()));
    } else {
        let all = seq![l] + links;
        assert(all.drop_last() =~= Seq::<Seq<char>>::empty());
        assert(all.last() == l);
        assert(links_cost(ge, all) == links_cost(ge, all.drop_last()) + link_cost(ge, all.last()));
        assert(links_cost(ge, all.drop_last()) == 0);
        assert(links =~= Seq::<Seq<char>>::empty());
    }
}

/// The cost of an edge is the cost of its link.
proof fn lemma_edge_cost(ge: Seq<(nat, nat, Seq<char>, u128)>, e: int)
    requires
        uniform(ge),
        0 <= e < ge.len(),
    ensures
        ge[e].3 as int == link_cost(ge, ge[e].2),
{
    let c = choose|c: int| 0 <= c < ge.len() && ge[c].2 == ge[e].2;
    assert(0 <= c < ge.len() && ge[c].2 == ge[e].2);
}

/// The search reaches every node of a relaying chain from `start`, no farther than the
/// chain's cost.
proof fn lemma_chain_bound(ge: Seq<(nat, nat, Seq<char>, u128)>, switches: Seq<bool>, start: int, dist: Seq<Option<u128>>,
    path: Seq<nat>, links: Seq<Seq<char>>, i: int)
    requires
        relaxed_all(ge, switches, start, dist),
        uniform(ge),
        dist.len() == switches.len(),
        0 <= start < dist.len() && dist[start] == Some(0u128),
        chain(ge, switches, path, links),
        path[0] == start,
        0 <= i < path.len(),
    ensures
        dist[path[i] as int] is Some,
        dist[path[i] as int]->0 <= links_cost(ge, links.subrange(0, i)),
    decreases i,
{
    if i == 0 {
        assert(links.subrange(0, 0) =~= Seq::<Seq<char>>::empty());
        assert(path[0] as int == start);
    } else {
        let j = i - 1;
        lemma_chain_bound(ge, switches, start, dist, path, links, j);
        assert(edge_in(ge, path[j], path[j + 1], links[j]));
        let e = choose|e: int| 0 <= e < ge.len() && (#[trigger] ge[e]).0 == path[j] && ge[e].1 == path[j + 1] && ge[e].2 == links[j];
        if j > 0 {
            assert(switches[path[j] as int]);
        }
        assert(ge[e].0 < dist.len()) by {
            assert(path[j] < switches.len());
        }
        assert(dist[path[i] as int] is Some && dist[path[i] as int]->0 <= dist[path[j] as int]->0 + ge[e].3) by {
            reveal(relaxed_all);
            assert(path[j] as int == 0 || path[j] as int > 0);
            if j == 0 {
                assert(ge[e].0 == start);
            }
        }
        lemma_edge_cost(ge, e);
        assert(links.subrange(0, i).drop_last() =~= links.subrange(0, j));
        assert(links.subrange(0, i).last() == links[j]);
    }
}

/// A path of graph nodes from `source` to `destination` that `links` follows.
spec fn routed(ge: Seq<(nat, nat, Seq<char>, u128)>, switches: Seq<bool>, ids: Seq<String>,
    source: Seq<char>, destination: Seq<char>, links: Seq<Seq<char>>) -> bool {
    exists|path: Seq<nat>| #[trigger] chain(ge, switches, path, links)
        && ids[path[0] as int]@ == source && ids[path.last() as int]@ == destination
}

/// The search's measure of a node: its distance, or beyond every distance when unreached.
spec fn rank(dist: Seq<Option<u128>>, v: int) -> int {
    match dist[v] {
        Some(d) => d as int,
        None => u128::MAX as int + 1,
    }
}

/// The texts of a sequence of strings.
pub open spec fn views(v: Seq<String>) -> Seq<Seq<char>> {
    v.map_values(|x: String| x@)
}

/// `links` follows graph edges along `path`, whose inner nodes carry transit.
spec fn chain(ge: Seq<(nat, nat, Seq<char>, u128)>, switches: Seq<bool>, path: Seq<nat>, links: Seq<Seq<char>>) -> bool {
    &&& path.len() == links.len() + 1
    &&& forall|i: int| 0 <= i < path.len() ==> #[trigger] path[i] < switches.len()
    &&& forall|i: int| 0 < i < path.len() - 1 ==> switches[#[trigger] path[i] as int]
    &&& forall|i: int| 0 <= i < links.len() ==> edge_in(ge, path[i], path[i + 1], #[trigger] links[i])
}

impl RoutingGraph {
    /// Lowering the distance of an unsettled node along an edge from the settled node `u`
    /// keeps the search invariants.
    proof fn lemma_lower(ge: Seq<(nat, nat, Seq<char>, u128)>, switches: Seq<bool>, start: int, settled: Seq<bool>,
        dist0: Seq<Option<u128>>, prev0: Seq<Option<(usize, String)>>, dist: Seq<Option<u128>>,
        prev: Seq<Option<(usize, String)>>, u: int, next: int, best_d: u128, pv: (usize, String), kk: int)
        requires
            tree_ok(ge, switches, start, dist0, prev0, settled),
            edges_ok(ge, settled.len() as nat),
            0 <= u < settled.len() && 0 <= next < settled.len(),
            settled[u] && !settled[next] && dist0[u] == Some(best_d),
            0 <= kk < ge.len() && ge[kk].0 == u as nat && ge[kk].1 == next as nat && ge[kk].2 == pv.1@,
            pv.0 == u,
            best_d + ge[kk].3 <= u128::MAX,
            dist == dist0.update(next, Some((best_d + ge[kk].3) as u128)),
            prev == prev0.update(next, Some(pv)),
            dist0[next] is None || best_d + ge[kk].3 < dist0[next]->0,
            tight_but(ge, switches, start, dist0, settled, u),
            settled_first(dist0, settled),
            settled_within(dist0, settled, best_d),
            tree_costs(ge, dist0, prev0),
        ensures
            tight_but(ge, switches, start, dist, settled, u),
            settled_first(dist, settled),
            settled_within(dist, settled, best_d),
            tree_costs(ge, dist, prev),
    {
        reveal(tight_but);
        reveal(settled_first);
        reveal(settled_within);
        reveal(tree_costs);
        let n = settled.len();
        assert forall|k: int| 0 <= k < ge.len() && settled[(#[trigger] ge[k]).0 as int] && ge[k].0 != u
            && (ge[k].0 == start || switches[ge[k].0 as int]) implies dist[ge[k].1 as int] is Some
            && dist[ge[k].1 as int]->0 <= dist[ge[k].0 as int]->0 + ge[k].3 by {
            assert(ge[k].0 != next);
            assert(dist[ge[k].0 as int] == dist0[ge[k].0 as int]);
        }
        assert forall|a: int, b: int| #![trigger settled[a], settled[b]] 0 <= a < settled.len() && 0 <= b < settled.len()
            && settled[a] && !settled[b] && dist[b] is Some implies dist[a]->0 <= dist[b]->0 by {
            assert(a != next);
            if b != next {
                assert(dist[b] == dist0[b]);
            }
        }
        assert forall|a: int| 0 <= a < settled.len() && #[trigger] settled[a] implies dist[a]->0 <= best_d by {
            assert(a != next);
        }
        assert forall|v: int| 0 <= v < dist.len() && (#[trigger] prev[v]) is Some implies parent_edge(ge, dist, prev, v) by {
            if v == next {
                assert(parent(prev, v) == u);
                assert(parent_link(prev, v) == pv.1@);
                assert(dist[u] == dist0[u]);
            } else {
                assert(prev[v] == prev0[v]);
                assert(prev0[v] is Some);
                let p = parent(prev0, v);
                assert(settled[p]);
                assert(p != next);
                assert(parent_edge(ge, dist0, prev0, v));
                let e = choose|e: int| 0 <= e < ge.len() && (#[trigger] ge[e]).0 == parent(prev0, v) as nat && ge[e].1 == v as nat
                    && ge[e].2 == parent_link(prev0, v) && dist0[v] is Some && dist0[parent(prev0, v)] is Some
                    && dist0[v]->0 == dist0[parent(prev0, v)]->0 + ge[e].3;
                assert(dist[v] == dist0[v] && dist[p] == dist0[p]);
                assert(parent(prev, v) == p && parent_link(prev, v) == parent_link(prev0, v));
            }
        }
    }

    /// Relaxes the edges out of the newly settled node `u`, at distance `best_d`.
    #[verifier::spinoff_prover]
    #[verifier::rlimit(60)]
    fn relax(&self, start: usize, u: usize, best_d: u128, dist: &mut Vec<Option<u128>>, prev: &mut Vec<Option<(usize, String)>>,
        settled: &Vec<bool>, Ghost(cnt): Ghost<nat>) -> (r: Result<()>)
        requires
            self.ids@.len() < 0x1_0000_0000,
            self.switches@.len() == self.ids@.len(),
            graph_nodes(self.graph).len() == self.ids@.len(),
            edges_ok(graph_edges(self.graph), self.ids@.len() as nat),
            u < self.ids@.len() && settled@[u as int] && old(dist)@[u as int] == Some(best_d),
            u == start || self.switches@[u as int],
            tree_ok(graph_edges(self.graph), self.switches@, start as int, old(dist)@, old(prev)@, settled@),
            1 <= cnt <= self.ids@.len(),
            count_true(settled@) == cnt,
            best_d <= (cnt - 1) * max_cost(),
            forall|v: int| 0 <= v < self.ids@.len() && (#[trigger] old(dist)@[v]) is Some ==> old(dist)@[v]->0 <= cnt * max_cost(),
            relaxed_but(graph_edges(self.graph), self.switches@, start as int, old(dist)@, settled@, u as int),
            tight_but(graph_edges(self.graph), self.switches@, start as int, old(dist)@, settled@, u as int),
            settled_first(old(dist)@, settled@),
            settled_within(old(dist)@, settled@, best_d),
            tree_costs(graph_edges(self.graph), old(dist)@, old(prev)@),
        ensures
            r is Ok,
            tree_ok(graph_edges(self.graph), self.switches@, start as int, final(dist)@, final(prev)@, settled@),
            forall|v: int| 0 <= v < self.ids@.len() && (#[trigger] final(dist)@[v]) is Some ==> final(dist)@[v]->0 <= cnt * max_cost(),
            relaxed_but(graph_edges(self.graph), self.switches@, start as int, final(dist)@, settled@, -1),
            tight_but(graph_edges(self.graph), self.switches@, start as int, final(dist)@, settled@, -1),
            settled_first(final(dist)@, settled@),
            tree_costs(graph_edges(self.graph), final(dist)@, final(prev)@),
    {
        let n = self.ids.len();
        let ghost ge = graph_edges(self.graph);
        let edges = graph_out_edges(&self.graph, u);
        let mut e: usize = 0;
        while e < edges.len()
            invariant
                n == self.ids@.len(),
                n < 0x1_0000_0000,
                self.switches@.len() == n,
                edges_ok(ge, n as nat),
                u < n && settled@[u as int] && dist@[u as int] == Some(best_d),
                u == start || self.switches@[u as int],
                tree_ok(ge, self.switches@, start as int, dist@, prev@, settled@),
                edges@.len() == out_edges(ge, u as nat).len(),
                forall|i: int| 0 <= i < edges@.len() ==> {
                    let x = #[trigger] out_edges(ge, u as nat)[i];
                    edges@[i].0 as nat == x.0 && edges@[i].1@ == x.1 && edges@[i].2 == x.2
                },
                1 <= cnt <= n,
                count_true(settled@) == cnt,
                best_d <= (cnt - 1) * max_cost(),
                forall|v: int| 0 <= v < n && (#[trigger] dist@[v]) is Some ==> dist@[v]->0 <= cnt * max_cost(),
                relaxed_but(ge, self.switches@, start as int, dist@, settled@, u as int),
                forall|i: int| 0 <= i < e ==> dist@[(#[trigger] out_edges(ge, u as nat)[i]).0 as int] is Some,
                forall|i: int| 0 <= i < e ==> dist@[(#[trigger] out_edges(ge, u as nat)[i]).0 as int]->0
                    <= best_d + out_edges(ge, u as nat)[i].2,
                tight_but(ge, self.switches@, start as int, dist@, settled@, u as int),
                settled_first(dist@, settled@),
                settled_within(dist@, settled@, best_d),
                tree_costs(ge, dist@, prev@),
                e <= edges@.len(),
            decreases edges@.len() - e,
        {
            let next = edges[e].0;
            let ghost dist_e = dist@;
            proof {
                let x = out_edges(ge, u as nat)[e as int];
                lemma_out_edge(ge, u as nat, e as int);
                let k = choose|k: int| 0 <= k < ge.len() && #[trigger] ge[k] == (u as nat, x.0, x.1, x.2);
                assert(ge[k].1 < n && ge[k].3 >= 1 && ge[k].3 <= max_cost());
                assert(edge_in(ge, u as nat, next as nat, edges@[e as int].1@));
                assert(cnt * max_cost() <= 0x1_0000_0000 * max_cost());
            }
            if !settled[next] {
                let d = match best_d.checked_add(edges[e].2) {
                    Some(d) => d,
                    None => return Err(Error::Invalid("route cost overflow".to_owned())),
                };
                let closer = match dist[next] {
                    None => true,
                    Some(old) => d < old,
                };
                if closer {
                    let ghost prev0 = prev@;
                    let ghost dist0 = dist@;
                    let pv = (u, edges[e].1.clone());
                    dist.set(next, Some(d));
                    prev.set(next, Some(pv));
                    proof {
                        let x = out_edges(ge, u as nat)[e as int];
                        lemma_out_edge(ge, u as nat, e as int);
                        let kk = choose|k: int| 0 <= k < ge.len() && #[trigger] ge[k] == (u as nat, x.0, x.1, x.2);
                        Self::lemma_lower(ge, self.switches@, start as int, settled@, dist0, prev0, dist@, prev@,
                            u as int, next as int, best_d, pv, kk);
                        assert(next != start);
                        assert forall|w: int| 0 <= w < n && (#[trigger] prev@[w]) is Some implies {
                            let p = parent(prev@, w);
                            &&& 0 <= p < n && settled@[p] && dist@[w] is Some && dist@[p] is Some
                            &&& dist@[p]->0 < dist@[w]->0
                            &&& (p == start || self.switches@[p])
                            &&& w != start
                            &&& edge_in(ge, p as nat, w as nat, parent_link(prev@, w))
                        } by {
                            if w != next {
                                assert(prev@[w] == prev0[w]);
                                let p = parent(prev0, w);
                                assert(p != next);
                            }
                        }
                        assert forall|w: int| 0 <= w < n && (#[trigger] dist@[w]) is Some && w != start
                            implies prev@[w] is Some by {
                            if w != next {
                                assert(dist@[w] == dist0[w]);
                            }
                        }
                        assert forall|w: int| 0 <= w < n && (#[trigger] dist@[w]) is Some
                            implies dist@[w]->0 <= cnt * max_cost() by {
                            if w != next {
                                assert(dist@[w] == dist0[w]);
                            }
                        }
                        assert forall|k: int| 0 <= k < ge.len() && settled@[(#[trigger] ge[k]).0 as int] && ge[k].0 != u
                            && (ge[k].0 == start || self.switches@[ge[k].0 as int]) implies dist@[ge[k].1 as int] is Some by {
                            assert(dist0[ge[k].1 as int] is Some);
                        }
                    }
                }
            }
            proof {
                assert(out_edges(ge, u as nat)[e as int].0 == next as nat);
                assert(dist@[next as int] is Some);
                assert forall|w: int| 0 <= w < n && dist_e[w] is Some implies #[trigger] dist@[w] is Some
                    && dist@[w]->0 <= dist_e[w]->0 by {
                    if w != next {
                        assert(dist@[w] == dist_e[w]);
                    }
                }
                if settled@[next as int] {
                    assert(dist@[next as int]->0 <= best_d) by { reveal(settled_within); }
                }
                assert(dist@[next as int]->0 <= best_d + out_edges(ge, u as nat)[e as int].2);
                assert forall|i: int| 0 <= i < e + 1 implies dist@[(#[trigger] out_edges(ge, u as nat)[i]).0 as int]->0
                    <= best_d + out_edges(ge, u as nat)[i].2 by {
                    if i < e {
                        lemma_out_edge(ge, u as nat, i);
                        let x = out_edges(ge, u as nat)[i];
                        let k = choose|k: int| 0 <= k < ge.len() && #[trigger] ge[k] == (u as nat, x.0, x.1, x.2);
                        assert(ge[k].1 < n);
                        assert(dist_e[out_edges(ge, u as nat)[i].0 as int] is Some);
                    }
                }
                assert forall|w: int| 0 <= w < n && dist_e[w] is Some implies #[trigger] dist@[w] is Some by {
                    if w != next {
                        assert(dist@[w] == dist_e[w]);
                    }
                }
                assert forall|i: int| 0 <= i < e + 1 implies dist@[(#[trigger] out_edges(ge, u as nat)[i]).0 as int] is Some by {
                    if i < e {
                        lemma_out_edge(ge, u as nat, i);
                        let x = out_edges(ge, u as nat)[i];
                        let k = choose|k: int| 0 <= k < ge.len() && #[trigger] ge[k] == (u as nat, x.0, x.1, x.2);
                        assert(ge[k].1 < n);
                        assert(dist_e[out_edges(ge, u as nat)[i].0 as int] is Some);
                    }
                }
            }
            e += 1;
        }
        proof {
            assert forall|k: int| 0 <= k < ge.len() && settled@[(#[trigger] ge[k]).0 as int]
                && (ge[k].0 == start || self.switches@[ge[k].0 as int]) implies dist@[ge[k].1 as int] is Some by {
                if ge[k].0 == u {
                    lemma_out_edge_listed(ge, u as nat, k);
                    let i = choose|i: int| 0 <= i < out_edges(ge, u as nat).len()
                        && #[trigger] out_edges(ge, u as nat)[i] == (ge[k].1, ge[k].2, ge[k].3);
                    assert(dist@[out_edges(ge, u as nat)[i].0 as int] is Some);
                }
            }
            assert(tight_but(ge, self.switches@, start as int, dist@, settled@, -1)) by {
                reveal(tight_but);
                assert forall|k: int| 0 <= k < ge.len() && settled@[(#[trigger] ge[k]).0 as int] && ge[k].0 != -1
                    && (ge[k].0 == start || self.switches@[ge[k].0 as int]) implies dist@[ge[k].1 as int] is Some
                    && dist@[ge[k].1 as int]->0 <= dist@[ge[k].0 as int]->0 + ge[k].3 by {
                    if ge[k].0 == u {
                        lemma_out_edge_listed(ge, u as nat, k);
                        let i = choose|i: int| 0 <= i < out_edges(ge, u as nat).len()
                            && #[trigger] out_edges(ge, u as nat)[i] == (ge[k].1, ge[k].2, ge[k].3);
                        assert(dist@[out_edges(ge, u as nat)[i].0 as int]->0 <= best_d + out_edges(ge, u as nat)[i].2);
                    }
                }
            }
        }
        Ok(())
    }

    /// Lowest-cost search from `start`, where only `start` and switches relay.
    /// Among equal costs the lower node index is settled first; a node keeps the
    /// first parent that reached it at its final cost.
    #[verifier::spinoff_prover]
    #[verifier::rlimit(100)]
    fn predecessors(&self, start: usize) -> (r: Result<(Vec<Option<u128>>, Vec<Option<(usize, String)>>)>)
        requires
            start < self.ids@.len(),
            self.ids@.len() < 0x1_0000_0000,
            graph_nodes(self.graph).len() == self.ids@.len(),
            self.switches@.len() == self.ids@.len(),
            edges_ok(graph_edges(self.graph), self.ids@.len() as nat),
        ensures
            r is Ok,
            r matches Ok((dist, prev)) ==> searched(graph_edges(self.graph), self.switches@, start as int, dist@, prev@)
                && closed(graph_edges(self.graph), self.switches@, start as int, dist@),
            r matches Ok((dist, prev)) ==> relaxed_all(graph_edges(self.graph), self.switches@, start as int, dist@)
                && tree_costs(graph_edges(self.graph), dist@, prev@),
    {
        let n = self.ids.len();
        let ghost ge = graph_edges(self.graph);
        let mut dist: Vec<Option<u128>> = Vec::new();
        let mut prev: Vec<Option<(usize, String)>> = Vec::new();
        let mut settled: Vec<bool> = Vec::new();
        let mut i: usize = 0;
        while i < n
            invariant
                i <= n,
                dist@.len() == i && prev@.len() == i && settled@.len() == i,
                forall|v: int| 0 <= v < i ==> (#[trigger] dist@[v]) is None,
                forall|v: int| 0 <= v < i ==> (#[trigger] prev@[v]) is None,
                forall|v: int| 0 <= v < i ==> !(#[trigger] settled@[v]),
                count_true(settled@) == 0,
            decreases n - i,
        {
            proof { assert(settled@.push(false).drop_last() =~= settled@); }
            dist.push(None);
            prev.push(None);
            settled.push(false);
            i += 1;
        }
        dist.set(start, Some(0));
        proof {
            assert(prev@[start as int] is None);
            assert forall|v: int| 0 <= v < n && #[trigger] settled@[v] implies dist@[v] is Some by {}
            assert forall|v: int| 0 <= v < n && (#[trigger] prev@[v]) is Some implies false by {}
            assert(tree_ok(ge, self.switches@, start as int, dist@, prev@, settled@));
            assert(tight_but(ge, self.switches@, start as int, dist@, settled@, -1)) by { reveal(tight_but); }
            assert(settled_first(dist@, settled@)) by { reveal(settled_first); }
            assert(tree_costs(ge, dist@, prev@)) by { reveal(tree_costs); }
        }
        let ghost mut cnt: nat = 0;
        let mut done = false;
        let mut round: usize = 0;
        while !done && round < n
            invariant
                n == self.ids@.len(),
                n < 0x1_0000_0000,
                self.switches@.len() == n,
                edges_ok(ge, n as nat),
                ge == graph_edges(self.graph),
                graph_nodes(self.graph).len() == n,
                tree_ok(ge, self.switches@, start as int, dist@, prev@, settled@),
                !done ==> cnt == round,
                cnt <= round,
                round <= n,
                count_true(settled@) == cnt,
                forall|v: int| 0 <= v < n && (#[trigger] dist@[v]) is Some ==> dist@[v]->0 <= cnt * max_cost(),
                relaxed_but(ge, self.switches@, start as int, dist@, settled@, -1),
                tight_but(ge, self.switches@, start as int, dist@, settled@, -1),
                settled_first(dist@, settled@),
                tree_costs(ge, dist@, prev@),
                done ==> forall|v: int| 0 <= v < n && (#[trigger] dist@[v]) is Some ==> settled@[v],
            decreases n - round,
        {
            let mut best: Option<usize> = None;
            let mut best_d: u128 = 0;
            let mut v: usize = 0;
            while v < n
                invariant
                    n == self.ids@.len(),
                    tree_ok(ge, self.switches@, start as int, dist@, prev@, settled@),
                    best matches Some(u) ==> u < n && !settled@[u as int] && dist@[u as int] == Some(best_d),
                    best is None ==> forall|w: int| 0 <= w < v ==> settled@[w] || (#[trigger] dist@[w]) is None,
                    best is Some ==> forall|w: int| 0 <= w < v && !settled@[w] && (#[trigger] dist@[w]) is Some
                        ==> best_d <= dist@[w]->0,
                    v <= n,
                decreases n - v,
            {
                if !settled[v] {
                    if let Some(d) = dist[v] {
                        if best.is_none() || d < best_d {
                            best = Some(v);
                            best_d = d;
                        }
                    }
                }
                v += 1;
            }
            match best {
                None => {
                    done = true;
                },
                Some(u) => {
                    proof {
                        lemma_count_set(settled@, u as int);
                        lemma_count_bound(settled@);
                    }
                    let ghost settled0 = settled@;
                    settled.set(u, true);
                    proof {
                        cnt = cnt + 1;
                        assert(relaxed_but(ge, self.switches@, start as int, dist@, settled@, u as int));
                        assert(best_d <= (cnt - 1) * max_cost());
                        assert(settled_first(dist@, settled@)) by {
                            reveal(settled_first);
                            assert forall|a: int, b: int| #![trigger settled@[a], settled@[b]] 0 <= a < settled@.len()
                                && 0 <= b < settled@.len() && settled@[a] && !settled@[b] && dist@[b] is Some
                                implies dist@[a]->0 <= dist@[b]->0 by {
                                assert(settled0[b] == settled@[b]);
                                if a != u {
                                    assert(settled0[a]);
                                }
                            }
                        }
                        assert(settled_within(dist@, settled@, best_d)) by {
                            reveal(settled_first);
                            reveal(settled_within);
                            assert forall|a: int| 0 <= a < settled@.len() && #[trigger] settled@[a] implies dist@[a]->0 <= best_d by {
                                if a != u {
                                    assert(settled0[a] && !settled0[u as int]);
                                }
                            }
                        }
                        assert(tight_but(ge, self.switches@, start as int, dist@, settled@, u as int)) by {
                            reveal(tight_but);
                            assert forall|k: int| 0 <= k < ge.len() && settled@[(#[trigger] ge[k]).0 as int] && ge[k].0 != u
                                && (ge[k].0 == start || self.switches@[ge[k].0 as int]) implies dist@[ge[k].1 as int] is Some
                                && dist@[ge[k].1 as int]->0 <= dist@[ge[k].0 as int]->0 + ge[k].3 by {
                                assert(settled0[ge[k].0 as int]);
                            }
                        }
                    }
                    if u == start || self.switches[u] {
                        match self.relax(start, u, best_d, &mut dist, &mut prev, &settled, Ghost(cnt)) {
                            Ok(()) => {},
                            Err(e) => return Err(e),
                        }
                    } else {
                        proof {
                            assert(tight_but(ge, self.switches@, start as int, dist@, settled@, -1)) by {
                                reveal(tight_but);
                            }
                        }
                    }
                },
            }
            round += 1;
        }
        proof {
            if !done {
                lemma_count_bound(settled@);
                assert(count_true(settled@) == settled@.len());
            }
            assert forall|k: int| 0 <= k < ge.len() && dist@[(#[trigger] ge[k]).0 as int] is Some
                && (ge[k].0 == start || self.switches@[ge[k].0 as int]) implies dist@[ge[k].1 as int] is Some by {
                assert(ge[k].0 < n);
                assert(settled@[ge[k].0 as int]);
            }
            assert(closed(ge, self.switches@, start as int, dist@));
            assert(tree_ok(ge, self.switches@, start as int, dist@, prev@, settled@));
            assert(searched(ge, self.switches@, start as int, dist@, prev@));
            assert(relaxed_all(ge, self.switches@, start as int, dist@)) by {
                reveal(relaxed_all);
                reveal(tight_but);
                assert forall|k: int| 0 <= k < ge.len() && dist@[(#[trigger] ge[k]).0 as int] is Some
                    && (ge[k].0 == start || self.switches@[ge[k].0 as int]) implies dist@[ge[k].1 as int] is Some
                    && dist@[ge[k].1 as int]->0 <= dist@[ge[k].0 as int]->0 + ge[k].3 by {
                    assert(ge[k].0 < n);
                    assert(settled@[ge[k].0 as int]);
                }
            }
        }
        Ok((dist, prev))
    }

    /// The links of the lowest-cost path from `source` to `destination`.
    #[verifier::spinoff_prover]
    fn route(&self, source: &str, destination: &str) -> (r: Result<Vec<String>>)
        requires
            self.ids@.len() < 0x1_0000_0000,
            graph_nodes(self.graph).len() == self.ids@.len(),
            self.switches@.len() == self.ids@.len(),
            edges_ok(graph_edges(self.graph), self.ids@.len() as nat),
            uniform(graph_edges(self.graph)),
        ensures
            !(exists|k: int| 0 <= k < self.ids@.len() && (#[trigger] self.ids@[k])@ == destination@)
                ==> r is Err && r->Err_0 is State,
            r matches Ok(links) ==> forall|path: Seq<nat>, l2: Seq<Seq<char>>| #[trigger] chain(graph_edges(self.graph), self.switches@, path, l2)
                && first_at(self.ids@, source@, path[0] as int) && first_at(self.ids@, destination@, path.last() as int)
                ==> links_cost(graph_edges(self.graph), views(links@)) <= links_cost(graph_edges(self.graph), l2),
            !(exists|k: int| 0 <= k < self.ids@.len() && (#[trigger] self.ids@[k])@ == source@)
                ==> r is Err && r->Err_0 is State,
            r is Err ==> r->Err_0 is State || r->Err_0 is NoRoute,
            (exists|path: Seq<nat>, links: Seq<Seq<char>>| #[trigger] chain(graph_edges(self.graph), self.switches@, path, links)
                && first_at(self.ids@, source@, path[0] as int) && first_at(self.ids@, destination@, path.last() as int))
                ==> r is Ok,
            r is Err && r->Err_0 is State ==>
                !(exists|k: int| 0 <= k < self.ids@.len() && (#[trigger] self.ids@[k])@ == destination@)
                || !(exists|k: int| 0 <= k < self.ids@.len() && (#[trigger] self.ids@[k])@ == source@),
            r matches Ok(links) ==> routed(graph_edges(self.graph), self.switches@, self.ids@, source@, destination@, views(links@)),
    {
        let goal = match position(&self.ids, destination) {
            Some(g) => g,
            None => return Err(Error::State("destination node is inactive".to_owned())),
        };
        let start = match position(&self.ids, source) {
            Some(s) => s,
            None => return Err(Error::State("source node is inactive".to_owned())),
        };
        let (dist, prev) = match self.predecessors(start) {
            Ok(x) => x,
            Err(e) => return Err(e),
        };
        let ghost ge = graph_edges(self.graph);
        let ghost settled = choose|settled: Seq<bool>| tree_ok(ge, self.switches@, start as int, dist@, prev@, settled);
        proof {
            if exists|path: Seq<nat>, links: Seq<Seq<char>>| #[trigger] chain(ge, self.switches@, path, links)
                && first_at(self.ids@, source@, path[0] as int) && first_at(self.ids@, destination@, path.last() as int) {
                let (path, links) = choose|path: Seq<nat>, links: Seq<Seq<char>>| #[trigger] chain(ge, self.switches@, path, links)
                    && first_at(self.ids@, source@, path[0] as int) && first_at(self.ids@, destination@, path.last() as int);
                lemma_first_unique(self.ids@, source@, path[0] as int, start as int);
                lemma_first_unique(self.ids@, destination@, path.last() as int, goal as int);
                lemma_chain_reached(ge, self.switches@, start as int, dist@, path, links, path.len() - 1);
            }
        }
        let mut node = goal;
        let mut links: Vec<String> = Vec::new();
        let ghost mut path: Seq<nat> = seq![goal as nat];
        let ghost mut fwd: Seq<Seq<char>> = Seq::empty();
        while node != start
            invariant
                tree_ok(ge, self.switches@, start as int, dist@, prev@, settled),
                node < self.ids@.len(),
                path.len() >= 1 && path[0] == node && path.last() == goal,
                chain(ge, self.switches@, path, fwd),
                path.len() > 1 ==> (node == start || self.switches@[node as int]),
                path.len() > 1 ==> dist@[node as int] is Some,
                dist@[goal as int] is Some ==> dist@[node as int] is Some,
                goal < self.ids@.len(),
                start < self.ids@.len(),
                (exists|path: Seq<nat>, links: Seq<Seq<char>>| #[trigger] chain(ge, self.switches@, path, links)
                    && first_at(self.ids@, source@, path[0] as int) && first_at(self.ids@, destination@, path.last() as int))
                    ==> dist@[goal as int] is Some,
                links@.len() == fwd.len(),
                forall|i: int| 0 <= i < links@.len() ==> (#[trigger] links@[i])@ == fwd[fwd.len() - 1 - i],
                tree_costs(ge, dist@, prev@),
                uniform(ge),
                path.len() > 1 ==> dist@[goal as int] is Some,
                dist@[goal as int] is Some ==> links_cost(ge, fwd) + dist@[node as int]->0 == dist@[goal as int]->0,
            decreases rank(dist@, node as int),
        {
            let ghost old_rank = rank(dist@, node as int);
            match &prev[node] {
                None => {
                    return Err(Error::NoRoute(source.to_owned(), destination.to_owned()));
                },
                Some((p, l)) => {
                    let ghost path0 = path;
                    let ghost fwd0 = fwd;
                    links.push(l.clone());
                    proof {
                        assert(parent_edge(ge, dist@, prev@, node as int)) by { reveal(tree_costs); }
                        let pe = choose|e: int| 0 <= e < ge.len() && (#[trigger] ge[e]).0 == parent(prev@, node as int) as nat
                            && ge[e].1 == node as nat && ge[e].2 == parent_link(prev@, node as int)
                            && dist@[node as int] is Some && dist@[parent(prev@, node as int)] is Some
                            && dist@[node as int]->0 == dist@[parent(prev@, node as int)]->0 + ge[e].3;
                        lemma_edge_cost(ge, pe);
                        lemma_links_cost_prepend(ge, l@, fwd0);
                        path = seq![*p as nat] + path0;
                        fwd = seq![l@] + fwd0;
                        assert(chain(ge, self.switches@, path, fwd)) by {
                            assert forall|i: int| 0 < i < path.len() - 1 implies self.switches@[#[trigger] path[i] as int] by {
                                if i > 1 {
                                    assert(path[i] == path0[i - 1]);
                                }
                            }
                            assert forall|i: int| 0 <= i < fwd.len() implies edge_in(ge, path[i], path[i + 1], #[trigger] fwd[i]) by {
                                if i > 0 {
                                    assert(fwd[i] == fwd0[i - 1] && path[i] == path0[i - 1] && path[i + 1] == path0[i]);
                                }
                            }
                            assert forall|i: int| 0 <= i < path.len() implies #[trigger] path[i] < self.switches@.len() by {
                                if i > 0 {
                                    assert(path[i] == path0[i - 1]);
                                }
                            }
                        }
                        assert forall|i: int| 0 <= i < links@.len() implies (#[trigger] links@[i])@ == fwd[fwd.len() - 1 - i] by {
                            if i < links@.len() - 1 {
                                assert(fwd[fwd.len() - 1 - i] == fwd0[fwd0.len() - 1 - i]);
                            }
                        }
                    }
                    node = *p;
                },
            }
        }
        let ghost back = links@;
        let links = crate::keyed::reversed(links);
        proof {
            assert(views(links@) =~= fwd) by {
                assert forall|i: int| 0 <= i < fwd.len() implies views(links@)[i] == fwd[i] by {
                    assert(links@[i] == back[back.len() - 1 - i]);
                }
            }
            assert(chain(ge, self.switches@, path, views(links@)));
            assert(self.ids@[path[0] as int]@ == source@ && self.ids@[path.last() as int]@ == destination@);
            assert(routed(ge, self.switches@, self.ids@, source@, destination@, views(links@)));
            if path.len() == 1 {
                assert(goal == start);
            }
            assert(links_cost(ge, views(links@)) == dist@[goal as int]->0);
            assert forall|path2: Seq<nat>, l2: Seq<Seq<char>>| #[trigger] chain(ge, self.switches@, path2, l2)
                && first_at(self.ids@, source@, path2[0] as int) && first_at(self.ids@, destination@, path2.last() as int)
                implies links_cost(ge, views(links@)) <= links_cost(ge, l2) by {
                lemma_first_unique(self.ids@, source@, path2[0] as int, start as int);
                lemma_first_unique(self.ids@, destination@, path2.last() as int, goal as int);
                lemma_chain_bound(ge, self.switches@, start as int, dist@, path2, l2, path2.len() - 1);
                assert(l2.subrange(0, path2.len() - 1) =~= l2);
            }
        }
        Ok(links)
    }
}


/// A walk through the routing graph is a route through the simulation.
proof fn lemma_chain_route(g: DiGraph<String, (String, u128)>, ids: Seq<String>, switches: Seq<bool>, sim: Simulation,
    source: Seq<char>, destination: Seq<char>, links: Seq<Seq<char>>)
    requires
        graph_ok(g, ids, switches, sim),
        routed(graph_edges(g), switches, ids, source, destination, links),
    ensures
        route_ok(sim, source, destination, links),
{
    let ge = graph_edges(g);
    let path = choose|path: Seq<nat>| #[trigger] chain(ge, switches, path, links)
        && ids[path[0] as int]@ == source && ids[path.last() as int]@ == destination;
    let nodes = path.map_values(|k: nat| ids[k as int]@);
    assert forall|i: int| 0 <= i < nodes.len() implies active_node(sim, #[trigger] nodes[i]) by {
        assert(path[i] < switches.len());
        assert(active_node(sim, ids[path[i] as int]@));
    }
    assert forall|i: int| 0 < i < nodes.len() - 1 implies switch_node(sim, #[trigger] nodes[i]) by {
        assert(path[i] < switches.len());
        assert(switches[path[i] as int]);
        assert(active_node(sim, ids[path[i] as int]@));
    }
    assert forall|i: int| 0 <= i < links.len() implies usable_link(sim, #[trigger] links[i], nodes[i], nodes[i + 1]) by {
        assert(edge_in(ge, path[i], path[i + 1], links[i]));
        let e = choose|e: int| 0 <= e < ge.len() && (#[trigger] ge[e]).0 == path[i] && ge[e].1 == path[i + 1] && ge[e].2 == links[i];
        assert(usable_link(sim, ge[e].2, ids[ge[e].0 as int]@, ids[ge[e].1 as int]@));
    }
    assert(walk(sim, nodes, links));
    assert(nodes[0] == source && nodes.last() == destination);
}

/// A route through the simulation is a walk through the routing graph between the
/// first places of its ends.
proof fn lemma_walk_chain(g: DiGraph<String, (String, u128)>, ids: Seq<String>, switches: Seq<bool>, sim: Simulation,
    source: Seq<char>, destination: Seq<char>, links: Seq<Seq<char>>)
    requires
        sim.wf(),
        graph_ok(g, ids, switches, sim),
        route_ok(sim, source, destination, links),
    ensures
        exists|path: Seq<nat>, l2: Seq<Seq<char>>| #[trigger] chain(graph_edges(g), switches, path, l2)
            && first_at(ids, source, path[0] as int) && first_at(ids, destination, path.last() as int),
        exists|path: Seq<nat>| #[trigger] chain(graph_edges(g), switches, path, links)
            && first_at(ids, source, path[0] as int) && first_at(ids, destination, path.last() as int),
{
    let ge = graph_edges(g);
    let names = choose|path: Seq<Seq<char>>| #[trigger] walk(sim, path, links) && path[0] == source && path.last() == destination;
    assert forall|i: int| 0 <= i < names.len() implies #[trigger] placed(ids, names[i]) by {
        assert(active_node(sim, names[i]));
        let k = choose|k: int| 0 <= k < ids.len() && ids[k]@ == names[i];
        lemma_first_exists(ids, names[i], k);
    }
    let path = Seq::new(names.len(), |i: int| (choose|k: int| first_at(ids, names[i], k)) as nat);
    assert forall|i: int| 0 <= i < names.len() implies first_at(ids, names[i], #[trigger] path[i] as int) by {
        assert(placed(ids, names[i]));
        let k = choose|k: int| first_at(ids, names[i], k);
        assert(first_at(ids, names[i], k));
    }
    assert forall|i: int| 0 <= i < path.len() implies #[trigger] path[i] < switches.len() by {
        assert(first_at(ids, names[i], path[i] as int));
    }
    assert forall|i: int| 0 < i < path.len() - 1 implies switches[#[trigger] path[i] as int] by {
        assert(first_at(ids, names[i], path[i] as int));
        assert(switch_node(sim, names[i]));
        let k = path[i] as int;
        assert(active_node(sim, ids[k]@));
    }
    assert forall|i: int| 0 <= i < links.len() implies edge_in(ge, path[i], path[i + 1], #[trigger] links[i]) by {
        assert(usable_link(sim, links[i], names[i], names[i + 1]));
        let t = key_index(sim.links@, links[i]);
        assert(sim.links@[t].id@ == links[i]);
        assert(link_edged(ge, ids, sim, t));
        assert(first_at(ids, names[i], path[i] as int));
        assert(first_at(ids, names[i + 1], path[i + 1] as int));
        assert(usable_link(sim, sim.links@[t].id@, names[i], names[i + 1]));
    }
    assert(chain(ge, switches, path, links));
    assert(first_at(ids, source, path[0] as int));
    assert(first_at(ids, destination, path.last() as int));
}

/// The total latency of following `links`.
pub open spec fn route_latency(sim: Simulation, links: Seq<Seq<char>>) -> int
    decreases links.len(),
{
    if links.len() == 0 {
        0
    } else {
        route_latency(sim, links.drop_last()) + keyed(sim.links@, links.last()).spec.latency_ns
    }
}

/// The order routes are chosen by: total latency first, then the number of hops.
pub open spec fn route_weight(sim: Simulation, links: Seq<Seq<char>>) -> int {
    route_latency(sim, links) * (sim.nodes@.len() + 1) + links.len()
}

/// Some edge belongs to link `l`.
spec fn labeled(ge: Seq<(nat, nat, Seq<char>, u128)>, l: Seq<char>) -> bool {
    exists|e: int| 0 <= e < ge.len() && ge[e].2 == l
}

/// Along links that all have edges, the search cost of a route is its weight.
proof fn lemma_links_weight(ge: Seq<(nat, nat, Seq<char>, u128)>, sim: Simulation, links: Seq<Seq<char>>)
    requires
        forall|e: int| 0 <= e < ge.len() ==> (#[trigger] ge[e]).3 == link_weight(sim, ge[e].2),
        forall|i: int| 0 <= i < links.len() ==> labeled(ge, #[trigger] links[i]),
    ensures
        links_cost(ge, links) == route_weight(sim, links),
    decreases links.len(),
{
    if links.len() > 0 {
        let rest = links.drop_last();
        assert forall|i: int| 0 <= i < rest.len() implies labeled(ge, #[trigger] rest[i]) by {
            assert(rest[i] == links[i]);
        }
        lemma_links_weight(ge, sim, rest);
        let l = links.last();
        assert(links[links.len() - 1] == l);
        assert(labeled(ge, links[links.len() - 1]));
        let c = choose|e: int| 0 <= e < ge.len() && ge[e].2 == l;
        assert(0 <= c < ge.len() && ge[c].2 == l);
        assert(link_cost(ge, l) == link_weight(sim, l));
        let k = sim.nodes@.len() + 1;
        let a = route_latency(sim, rest);
        let x = keyed(sim.links@, l).spec.latency_ns as int;
        assert((a + x) * k == a * k + x * k) by (nonlinear_arith);
    }
}

/// What fails first when a route is asked for.
pub open spec fn route_fault(sim: Simulation, source: Seq<char>, destination: Seq<char>, bytes: usize) -> Option<ErrorKind> {
    if !has_key(sim.nodes@, source) || !has_key(sim.nodes@, destination) {
        Some(ErrorKind::NotFound)
    } else if bytes > 16 * 1024 * 1024 {
        Some(ErrorKind::Invalid)
    } else if !graph_fits(sim) {
        Some(ErrorKind::Invalid)
    } else if graph_fault(sim) is Some {
        graph_fault(sim)
    } else if !active_node(sim, destination) || !active_node(sim, source) {
        Some(ErrorKind::State)
    } else {
        None
    }
}

impl Simulation {
    /// The links of the route between two active nodes that a lowest-cost search
    /// (latency, then hop count) picks, where only switches carry transit; a route
    /// is found whenever one exists. Transfers are limited to 16 MiB.
    #[verifier::spinoff_prover]
    pub fn route(&self, source: &str, destination: &str, bytes: usize) -> (r: Result<Vec<String>>)
        requires
            self.wf(),
        ensures
            route_fault(*self, source@, destination@, bytes) matches Some(k) ==> r is Err && r->Err_0.kind() == k,
            r is Ok ==> route_fault(*self, source@, destination@, bytes) is None,
            r is Err && route_fault(*self, source@, destination@, bytes) is None
                ==> r->Err_0 is NoRoute && !(exists|l: Seq<Seq<char>>| route_ok(*self, source@, destination@, l)),
            route_fault(*self, source@, destination@, bytes) is None
                && (exists|l: Seq<Seq<char>>| route_ok(*self, source@, destination@, l)) ==> r is Ok,
            r matches Ok(links) ==> route_ok(*self, source@, destination@, views(links@)),
            r matches Ok(links) ==> forall|l2: Seq<Seq<char>>| #[trigger] route_ok(*self, source@, destination@, l2)
                ==> route_weight(*self, views(links@)) <= route_weight(*self, l2),
            r matches Ok(links) ==> forall|l2: Seq<Seq<char>>| #[trigger] route_ok(*self, source@, destination@, l2)
                && l2.len() <= self.nodes@.len() ==> route_latency(*self, views(links@)) <= route_latency(*self, l2),
    {
        if find(&self.nodes, source).is_none() {
            return Err(Error::NotFound(source.to_owned()));
        }
        if find(&self.nodes, destination).is_none() {
            return Err(Error::NotFound(destination.to_owned()));
        }
        if bytes > 16 * 1024 * 1024 {
            return Err(Error::Invalid("transfer exceeds 16 MiB".to_owned()));
        }
        if self.nodes.len() >= 0xffff_fffe || self.links.len() >= 0x7fff_fffe {
            return Err(Error::Invalid("simulation exceeds the routing index range".to_owned()));
        }
        let g = RoutingGraph::new(self)?;
        proof {
            let ge = graph_edges(g.graph);
            assert(edges_ok(ge, g.ids@.len() as nat));
            if active_node(*self, destination@) {
                assert(exists|k: int| 0 <= k < g.ids@.len() && g.ids@[k]@ == destination@);
                let k = choose|k: int| 0 <= k < g.ids@.len() && g.ids@[k]@ == destination@;
                assert(exists|k: int| 0 <= k < g.ids@.len() && (#[trigger] g.ids@[k])@ == destination@);
            } else {
                assert forall|k: int| 0 <= k < g.ids@.len() implies (#[trigger] g.ids@[k])@ != destination@ by {
                    assert(active_node(*self, g.ids@[k]@));
                }
            }
            if active_node(*self, source@) {
                assert(exists|k: int| 0 <= k < g.ids@.len() && g.ids@[k]@ == source@);
                let k = choose|k: int| 0 <= k < g.ids@.len() && g.ids@[k]@ == source@;
                assert(exists|k: int| 0 <= k < g.ids@.len() && (#[trigger] g.ids@[k])@ == source@);
            } else {
                assert forall|k: int| 0 <= k < g.ids@.len() implies (#[trigger] g.ids@[k])@ != source@ by {
                    assert(active_node(*self, g.ids@[k]@));
                }
            }
        }
        let r = g.route(source, destination);
        proof {
            if exists|l: Seq<Seq<char>>| route_ok(*self, source@, destination@, l) {
                let l = choose|l: Seq<Seq<char>>| route_ok(*self, source@, destination@, l);
                lemma_walk_chain(g.graph, g.ids@, g.switches@, *self, source@, destination@, l);
            }
            if r is Ok {
                lemma_chain_route(g.graph, g.ids@, g.switches@, *self, source@, destination@, views(r->Ok_0@));
                let ge = graph_edges(g.graph);
                let ls = views(r->Ok_0@);
                let p = choose|path: Seq<nat>| #[trigger] chain(ge, g.switches@, path, ls)
                    && g.ids@[path[0] as int]@ == source@ && g.ids@[path.last() as int]@ == destination@;
                assert forall|i: int| 0 <= i < ls.len() implies labeled(ge, #[trigger] ls[i]) by {
                    assert(edge_in(ge, p[i], p[i + 1], ls[i]));
                }
                lemma_links_weight(ge, *self, ls);
                assert forall|l2: Seq<Seq<char>>| #[trigger] route_ok(*self, source@, destination@, l2)
                    implies route_weight(*self, ls) <= route_weight(*self, l2)
                    && (l2.len() <= self.nodes@.len() ==> route_latency(*self, ls) <= route_latency(*self, l2)) by {
                    lemma_walk_chain(g.graph, g.ids@, g.switches@, *self, source@, destination@, l2);
                    let p2 = choose|path: Seq<nat>| #[trigger] chain(ge, g.switches@, path, l2)
                        && first_at(g.ids@, source@, path[0] as int) && first_at(g.ids@, destination@, path.last() as int);
                    assert forall|i: int| 0 <= i < l2.len() implies labeled(ge, #[trigger] l2[i]) by {
                        assert(edge_in(ge, p2[i], p2[i + 1], l2[i]));
                    }
                    lemma_links_weight(ge, *self, l2);
                    let k = self.nodes@.len() + 1;
                    let a = route_latency(*self, ls);
                    let b = route_latency(*self, l2);
                    let h1 = ls.len() as int;
                    let h2 = l2.len() as int;
                    assert(a * k + h1 <= b * k + h2);
                    if h2 <= self.nodes@.len() {
                        assert(a <= b) by (nonlinear_arith)
                            requires a * k + h1 <= b * k + h2, 0 <= h1, h2 < k, k >= 1;
                    }
                }
            }
        }
        r
    }
}


/// A reservation as plain values: link, transmitting node, time its transmitter is free.
pub open spec fn slot(r: Reservation) -> (Seq<char>, Seq<char>, u64) {
    (r.link@, r.from@, r.free_ns)
}

pub open spec fn slots(v: Seq<Reservation>) -> Seq<(Seq<char>, Seq<char>, u64)> {
    v.map_values(|r: Reservation| slot(r))
}

/// When the transmitter of `from` on link `l` is next free: the first matching
/// reservation's time, else zero.
pub open spec fn free_at(av: Seq<(Seq<char>, Seq<char>, u64)>, l: Seq<char>, from: Seq<char>) -> u64
    decreases av.len(),
{
    if av.len() == 0 {
        0
    } else if av[0].0 == l && av[0].1 == from {
        av[0].2
    } else {
        free_at(av.drop_first(), l, from)
    }
}

/// `av` with the transmitter of `from` on `l` reserved until `t`.
pub open spec fn set_free(av: Seq<(Seq<char>, Seq<char>, u64)>, l: Seq<char>, from: Seq<char>, t: u64)
    -> Seq<(Seq<char>, Seq<char>, u64)>
    decreases av.len(),
{
    if av.len() == 0 {
        seq![(l, from, t)]
    } else if av[0].0 == l && av[0].1 == from {
        av.update(0, (l, from, t))
    } else {
        seq![av[0]] + set_free(av.drop_first(), l, from, t)
    }
}

/// One hop as plain values.
pub struct HopPlan {
    pub link: Seq<char>,
    pub from: Seq<char>,
    pub to: Seq<char>,
    pub start: int,
    pub serialized: int,
    pub arrival: int,
}

/// The node at the other end of link `l` from `current`.
pub open spec fn other_end(sim: Simulation, l: Seq<char>, current: Seq<char>) -> Seq<char> {
    let link = keyed(sim.links@, l);
    if end_node(sim, link, 0) == current { end_node(sim, link, 1) } else { end_node(sim, link, 0) }
}

/// Store and forward: the hop starts when the data has arrived and the link's
/// transmitter is free, serializes, then propagates for the link's latency.
pub open spec fn next_hop(sim: Simulation, l: Seq<char>, bytes: nat, time: int, current: Seq<char>,
    av: Seq<(Seq<char>, Seq<char>, u64)>) -> HopPlan {
    let link = keyed(sim.links@, l);
    let free = free_at(av, l, current) as int;
    let start = if time >= free { time } else { free };
    let serialized = start + serialization(bytes, link.spec.bandwidth_bps as nat);
    HopPlan { link: l, from: current, to: other_end(sim, l, current), start, serialized,
        arrival: serialized + link.spec.latency_ns }
}

/// The hops of a transfer of `bytes` along `links` from `current` at `time`, and the
/// reservations after it; `None` when a time exceeds `u64`.
pub open spec fn plan(sim: Simulation, links: Seq<Seq<char>>, bytes: nat, time: int, current: Seq<char>,
    av: Seq<(Seq<char>, Seq<char>, u64)>) -> Option<(Seq<HopPlan>, Seq<(Seq<char>, Seq<char>, u64)>)>
    decreases links.len(),
{
    if links.len() == 0 {
        Some((Seq::empty(), av))
    } else {
        let h = next_hop(sim, links[0], bytes, time, current, av);
        if h.serialized > u64::MAX || h.arrival > u64::MAX {
            None
        } else {
            match plan(sim, links.drop_first(), bytes, h.arrival, h.to, set_free(av, links[0], current, h.serialized as u64)) {
                None => None,
                Some((hs, after)) => Some((seq![h] + hs, after)),
            }
        }
    }
}

pub open spec fn hop_plan(h: Hop) -> HopPlan {
    HopPlan { link: h.link@, from: h.from@, to: h.to@, start: h.start_ns as int, serialized: h.serialized_ns as int,
        arrival: h.arrival_ns as int }
}

pub open spec fn hop_plans(v: Seq<Hop>) -> Seq<HopPlan> {
    v.map_values(|h: Hop| hop_plan(h))
}

spec fn prepend(hs: Seq<HopPlan>, rest: Option<(Seq<HopPlan>, Seq<(Seq<char>, Seq<char>, u64)>)>)
    -> Option<(Seq<HopPlan>, Seq<(Seq<char>, Seq<char>, u64)>)> {
    match rest {
        None => None,
        Some((x, after)) => Some((hs + x, after)),
    }
}

proof fn lemma_skip_first<A>(s: Seq<A>, i: int)
    requires
        0 <= i < s.len(),
    ensures
        s.skip(i)[0] == s[i],
        s.skip(i).drop_first() =~= s.skip(i + 1),
        s.skip(i).len() > 0,
{
}

/// The first reservation's time for `from` on `l`, else zero.
fn free_lookup(v: &Vec<Reservation>, l: &str, from: &str) -> (r: u64)
    ensures
        r == free_at(slots(v@), l@, from@),
{
    let mut i: usize = 0;
    proof { assert(slots(v@).skip(0) =~= slots(v@)); }
    while i < v.len()
        invariant
            i <= v@.len(),
            free_at(slots(v@), l@, from@) == free_at(slots(v@).skip(i as int), l@, from@),
        decreases v@.len() - i,
    {
        proof { lemma_skip_first(slots(v@), i as int); }
        if str_eq(v[i].link.as_str(), l) && str_eq(v[i].from.as_str(), from) {
            return v[i].free_ns;
        }
        i += 1;
    }
    proof { assert(slots(v@).skip(i as int).len() == 0); }
    0
}

proof fn lemma_set_free_at(s: Seq<(Seq<char>, Seq<char>, u64)>, l: Seq<char>, f: Seq<char>, t: u64, i: int)
    requires
        0 <= i < s.len(),
        s[i].0 == l && s[i].1 == f,
        forall|j: int| 0 <= j < i ==> !((#[trigger] s[j]).0 == l && s[j].1 == f),
    ensures
        set_free(s, l, f, t) == s.update(i, (l, f, t)),
    decreases i,
{
    if i > 0 {
        lemma_set_free_at(s.drop_first(), l, f, t, i - 1);
        assert(!(s[0].0 == l && s[0].1 == f));
        assert(seq![s[0]] + s.drop_first().update(i - 1, (l, f, t)) =~= s.update(i, (l, f, t)));
    }
}

proof fn lemma_set_free_none(s: Seq<(Seq<char>, Seq<char>, u64)>, l: Seq<char>, f: Seq<char>, t: u64)
    requires
        forall|j: int| 0 <= j < s.len() ==> !((#[trigger] s[j]).0 == l && s[j].1 == f),
    ensures
        set_free(s, l, f, t) == s.push((l, f, t)),
    decreases s.len(),
{
    if s.len() > 0 {
        assert(!(s[0].0 == l && s[0].1 == f));
        lemma_set_free_none(s.drop_first(), l, f, t);
        assert(seq![s[0]] + s.drop_first().push((l, f, t)) =~= s.push((l, f, t)));
    }
}

/// Reserves the transmitter of `from` on `l` until `t`.
fn set_slot(v: &mut Vec<Reservation>, l: &str, from: &str, t: u64)
    ensures
        slots(final(v)@) == set_free(slots(old(v)@), l@, from@, t),
{
    let ghost s = slots(v@);
    let mut i: usize = 0;
    while i < v.len()
        invariant
            i <= v@.len(),
            s == slots(v@),
            forall|j: int| 0 <= j < i ==> !((#[trigger] s[j]).0 == l@ && s[j].1 == from@),
        decreases v@.len() - i,
    {
        if str_eq(v[i].link.as_str(), l) && str_eq(v[i].from.as_str(), from) {
            proof { lemma_set_free_at(s, l@, from@, t, i as int); }
            v[i].free_ns = t;
            proof { assert(slots(v@) =~= s.update(i as int, (l@, from@, t))); }
            return;
        }
        i += 1;
    }
    proof { lemma_set_free_none(s, l@, from@, t); }
    v.push(Reservation { link: l.to_owned(), from: from.to_owned(), free_ns: t });
    proof { assert(slots(v@) =~= s.push((l@, from@, t))); }
}

/// A copy of the reservations.
fn copy_reservations(v: &Vec<Reservation>) -> (r: Vec<Reservation>)
    ensures
        r@ == v@,
{
    let mut r: Vec<Reservation> = Vec::new();
    let mut i: usize = 0;
    while i < v.len()
        invariant
            i <= v@.len(),
            r@ == v@.subrange(0, i as int),
        decreases v@.len() - i,
    {
        r.push(Reservation { link: v[i].link.clone(), from: v[i].from.clone(), free_ns: v[i].free_ns });
        proof { assert(r@ =~= v@.subrange(0, i + 1)); }
        i += 1;
    }
    proof { assert(v@.subrange(0, v@.len() as int) =~= v@); }
    r
}

/// `b` is `a` after a transfer was scheduled: new reservations and frontier, all else kept.
pub open spec fn scheduled(a: Simulation, b: Simulation, at_ns: u64) -> bool {
    &&& b.limits == a.limits && b.id == a.id && b.name == a.name && b.state == a.state
    &&& b.created == a.created && b.modified == a.modified && b.metadata == a.metadata
    &&& b.sleep_at == a.sleep_at && b.expires_at == a.expires_at
    &&& b.auto_oob_enabled == a.auto_oob_enabled && b.enable_dhcp == a.enable_dhcp
    &&& b.nodes == a.nodes && b.interfaces == a.interfaces && b.links == a.links
    &&& b.services == a.services && b.instructions == a.instructions
    &&& b.checkpoints == a.checkpoints && b.ztp_script == a.ztp_script && b.history == a.history
    &&& b.clock_ns == a.clock_ns && b.history_limit == a.history_limit && b.next_mac == a.next_mac
    &&& b.scheduling_frontier_ns == at_ns
}

/// `b` is `a` after `t` carried `bytes` from `source` to `destination`, submitted at
/// `a`'s clock, which then advanced to the transfer's completion.
pub open spec fn transferred(a: Simulation, b: Simulation, source: Seq<char>, destination: Seq<char>, bytes: usize, t: Transmission) -> bool {
    let links = hop_plans(t.hops@).map_values(|h: HopPlan| h.link);
    &&& route_ok(a, source, destination, links)
    &&& plan(a, links, bytes as nat, a.clock_ns as int, source, slots(a.available@))
        == Some((hop_plans(t.hops@), slots(b.available@)))
    &&& t.source@ == source && t.destination@ == destination && t.bytes == bytes
    &&& t.submitted_ns == a.clock_ns
    &&& t.completed_ns == (if t.hops@.len() == 0 { a.clock_ns as int } else { t.hops@.last().arrival_ns as int })
    &&& b.clock_ns == t.completed_ns
    &&& b.scheduling_frontier_ns == a.clock_ns
    &&& b.nodes == a.nodes && b.interfaces == a.interfaces && b.links == a.links && b.state == a.state
    &&& b.id == a.id
}

/// A transfer at the clock can be carried: a route exists, and along every route
/// the hop times fit in `u64`.
pub open spec fn transfer_feasible(sim: Simulation, source: Seq<char>, destination: Seq<char>, bytes: usize) -> bool {
    &&& exists|l: Seq<Seq<char>>| route_ok(sim, source, destination, l)
    &&& forall|l: Seq<Seq<char>>| #[trigger] route_ok(sim, source, destination, l)
        ==> plan(sim, l, bytes as nat, sim.clock_ns as int, source, slots(sim.available@)) is Some
}

/// Why a transfer at the clock that no fault stops is refused: no route at all, or
/// hop times past `u64` along some route.
pub open spec fn transfer_refused(sim: Simulation, source: Seq<char>, destination: Seq<char>, bytes: usize, e: Error) -> bool {
    ||| e is NoRoute && !(exists|l: Seq<Seq<char>>| route_ok(sim, source, destination, l))
    ||| e is Invalid && exists|l: Seq<Seq<char>>| #[trigger] route_ok(sim, source, destination, l)
        && plan(sim, l, bytes as nat, sim.clock_ns as int, source, slots(sim.available@)) is None
}

/// What fails first when a transfer is submitted at the clock.
pub open spec fn transfer_fault(sim: Simulation, source: Seq<char>, destination: Seq<char>, bytes: usize) -> Option<ErrorKind> {
    if sim.clock_ns < sim.scheduling_frontier_ns {
        Some(ErrorKind::Invalid)
    } else {
        route_fault(sim, source, destination, bytes)
    }
}

impl Simulation {
    /// Schedules a transfer submitted at `at_ns` along the route from `source` to
    /// `destination`: store and forward, full duplex, FIFO on each directed link.
    /// Submissions must not precede the clock or the previous submission.
    #[verifier::spinoff_prover]
    #[verifier::rlimit(40)]
    pub fn schedule_transfer(&mut self, source: &str, destination: &str, bytes: usize, at_ns: u64) -> (r: Result<Transmission>)
        requires
            old(self).wf(),
        ensures
            final(self).wf(),
            r is Err ==> *final(self) == *old(self),
            at_ns < old(self).clock_ns || at_ns < old(self).scheduling_frontier_ns ==> r is Err && r->Err_0 is Invalid,
            at_ns >= old(self).clock_ns && at_ns >= old(self).scheduling_frontier_ns
                && route_fault(*old(self), source@, destination@, bytes) is Some
                ==> r is Err && Some(r->Err_0.kind()) == route_fault(*old(self), source@, destination@, bytes),
            r is Ok ==> at_ns >= old(self).clock_ns && at_ns >= old(self).scheduling_frontier_ns
                && route_fault(*old(self), source@, destination@, bytes) is None,
            r is Err && at_ns >= old(self).clock_ns && at_ns >= old(self).scheduling_frontier_ns
                && route_fault(*old(self), source@, destination@, bytes) is None
                ==> (r->Err_0 is NoRoute && !(exists|l: Seq<Seq<char>>| route_ok(*old(self), source@, destination@, l)))
                || (r->Err_0 is Invalid && exists|l: Seq<Seq<char>>| #[trigger] route_ok(*old(self), source@, destination@, l)
                    && plan(*old(self), l, bytes as nat, at_ns as int, source@, slots(old(self).available@)) is None),
            at_ns >= old(self).clock_ns && at_ns >= old(self).scheduling_frontier_ns
                && route_fault(*old(self), source@, destination@, bytes) is None
                && (exists|l: Seq<Seq<char>>| route_ok(*old(self), source@, destination@, l))
                && (forall|l: Seq<Seq<char>>| #[trigger] route_ok(*old(self), source@, destination@, l)
                    ==> plan(*old(self), l, bytes as nat, at_ns as int, source@, slots(old(self).available@)) is Some)
                ==> r is Ok,
            r matches Ok(t) ==> {
                let links = hop_plans(t.hops@).map_values(|h: HopPlan| h.link);
                &&& route_ok(*old(self), source@, destination@, links)
                &&& plan(*old(self), links, bytes as nat, at_ns as int, source@, slots(old(self).available@))
                    == Some((hop_plans(t.hops@), slots(final(self).available@)))
                &&& t.source@ == source@ && t.destination@ == destination@ && t.bytes == bytes
                &&& t.submitted_ns == at_ns
                &&& t.completed_ns == (if t.hops@.len() == 0 { at_ns as int } else { t.hops@.last().arrival_ns as int })
                &&& scheduled(*old(self), *final(self), at_ns)
            },
    {
        if at_ns < self.clock_ns || at_ns < self.scheduling_frontier_ns {
            return Err(Error::Invalid("submission precedes completed time or the monotonic scheduling frontier".to_owned()));
        }
        let route = match self.route(source, destination, bytes) {
            Ok(r) => r,
            Err(e) => return Err(e),
        };
        let ghost links = views(route@);
        let ghost full = plan(*self, links, bytes as nat, at_ns as int, source@, slots(self.available@));
        let mut available = copy_reservations(&self.available);
        let mut time: u64 = at_ns;
        let mut current: String = source.to_owned();
        let mut hops: Vec<Hop> = Vec::new();
        let mut i: usize = 0;
        proof {
            assert(links.skip(0) =~= links);
            assert(hop_plans(hops@) =~= Seq::<HopPlan>::empty());
            assert(prepend(Seq::empty(), full) == full);
        }
        while i < route.len()
            invariant
                i <= route@.len(),
                links == views(route@),
                route_ok(*self, source@, destination@, links),
                graph_fault(*self) is None,
                self.wf(),
                full == prepend(hop_plans(hops@), plan(*self, links.skip(i as int), bytes as nat, time as int, current@, slots(available@))),
                hops@.len() == i,
                forall|k: int| 0 <= k < i ==> (#[trigger] hops@[k]).link@ == links[k],
                i == 0 ==> time == at_ns && current@ == source@,
                i > 0 ==> time == hops@.last().arrival_ns,
            decreases route@.len() - i,
        {
            let ghost rest = links.skip(i as int);
            proof { lemma_skip_first(links, i as int); }
            let l = route[i].as_str();
            let k = find(&self.links, l).unwrap();
            proof {
                lemma_index_of_key(self.links@, k as int);
                let path = choose|path: Seq<Seq<char>>| #[trigger] walk(*self, path, links) && path[0] == source@ && path.last() == destination@;
                assert(usable_link(*self, links[i as int], path[i as int], path[i + 1]));
            }
            let link = &self.links[k];
            let ia = find(&self.interfaces, link.interfaces[0].as_str()).unwrap();
            let ib = find(&self.interfaces, link.interfaces[1].as_str()).unwrap();
            proof {
                lemma_index_of_key(self.interfaces@, ia as int);
                lemma_index_of_key(self.interfaces@, ib as int);
                assert(self.links@[k as int].spec.bandwidth_bps > 0);
            }
            let next = if str_eq(current.as_str(), self.interfaces[ia].node.as_str()) {
                self.interfaces[ib].node.clone()
            } else {
                self.interfaces[ia].node.clone()
            };
            let prior = free_lookup(&available, l, current.as_str());
            let start = if time >= prior { time } else { prior };
            let ghost h = next_hop(*self, l@, bytes as nat, time as int, current@, slots(available@));
            let ser = match serialization_ns(bytes, link.spec.bandwidth_bps) {
                Ok(t) => t,
                Err(e) => {
                    proof {
                        assert(plan(*self, rest, bytes as nat, time as int, current@, slots(available@)) is None);
                        assert(full is None);
                        assert(route_ok(*self, source@, destination@, links));
                    }
                    return Err(e);
                },
            };
            let serialized = match start.checked_add(ser) {
                Some(t) => t,
                None => {
                    proof {
                        assert(plan(*self, rest, bytes as nat, time as int, current@, slots(available@)) is None);
                        assert(full is None);
                        assert(route_ok(*self, source@, destination@, links));
                    }
                    return Err(Error::Invalid("simulation clock overflow".to_owned()));
                },
            };
            let arrival = match serialized.checked_add(link.spec.latency_ns) {
                Some(t) => t,
                None => {
                    proof {
                        assert(plan(*self, rest, bytes as nat, time as int, current@, slots(available@)) is None);
                        assert(full is None);
                        assert(route_ok(*self, source@, destination@, links));
                    }
                    return Err(Error::Invalid("simulation clock overflow".to_owned()));
                },
            };
            let ghost av0 = slots(available@);
            set_slot(&mut available, l, current.as_str(), serialized);
            let hop = Hop {
                link: route[i].clone(),
                from: current.clone(),
                to: next.clone(),
                start_ns: start,
                serialized_ns: serialized,
                arrival_ns: arrival,
            };
            proof {
                assert(hop_plan(hop) == h);
                assert(hop_plans(hops@.push(hop)) =~= hop_plans(hops@).push(h));
                assert(hop_plans(hops@).push(h) =~= hop_plans(hops@) + seq![h]);
                let tail = plan(*self, links.skip(i + 1), bytes as nat, arrival as int, next@, slots(available@));
                match tail {
                    None => {}
                    Some((x, after)) => {
                        assert(hop_plans(hops@) + (seq![h] + x) =~= (hop_plans(hops@) + seq![h]) + x);
                    }
                }
            }
            hops.push(hop);
            current = next;
            time = arrival;
            i += 1;
        }
        proof {
            assert(links.skip(i as int).len() == 0);
            assert(hop_plans(hops@) + Seq::<HopPlan>::empty() =~= hop_plans(hops@));
            assert(hop_plans(hops@).map_values(|h: HopPlan| h.link) =~= links);
        }
        self.available = available;
        self.scheduling_frontier_ns = at_ns;
        Ok(Transmission {
            source: source.to_owned(),
            destination: destination.to_owned(),
            bytes,
            submitted_ns: at_ns,
            completed_ns: time,
            hops,
        })
    }

    /// Schedules a transfer at the current clock and advances the clock to its completion.
    pub fn transfer(&mut self, source: &str, destination: &str, bytes: usize) -> (r: Result<Transmission>)
        requires
            old(self).wf(),
        ensures
            final(self).wf(),
            r is Err ==> *final(self) == *old(self),
            transfer_fault(*old(self), source@, destination@, bytes) matches Some(k) ==> r is Err && r->Err_0.kind() == k,
            r is Ok ==> transfer_fault(*old(self), source@, destination@, bytes) is None,
            r is Err && transfer_fault(*old(self), source@, destination@, bytes) is None
                ==> transfer_refused(*old(self), source@, destination@, bytes, r->Err_0),
            transfer_fault(*old(self), source@, destination@, bytes) is None
                && transfer_feasible(*old(self), source@, destination@, bytes) ==> r is Ok,
            r matches Ok(t) ==> transferred(*old(self), *final(self), source@, destination@, bytes, t),
    {
        let at = self.clock_ns;
        let trace = self.schedule_transfer(source, destination, bytes, at)?;
        let ghost mid = *self;
        self.clock_ns = trace.completed_ns;
        proof {
            assert(self.checkpoints@ == mid.checkpoints@ && self.nodes@ == mid.nodes@);
            assert forall|c: int, k: int| 0 <= c < self.checkpoints@.len() && 0 <= k < self.checkpoints@[c].runtime@.len()
                implies keys_unique(#[trigger] self.checkpoints@[c].runtime@[k].1.files@) by {
                assert(mid.checkpoints@[c] == self.checkpoints@[c]);
            }
        }
        Ok(trace)
    }
}

#[verifier::external_type_specification]
#[verifier::external_body]
#[verifier::reject_recursive_types(K)]
pub struct ExUnionFind<K>(petgraph::unionfind::UnionFind<K>);

/// The representative of each element of a union-find, by element.
pub uninterp spec fn uf_reps(u: UnionFind<usize>) -> Seq<nat>;

/// `petgraph::unionfind::UnionFind::new`: `n` singleton sets, each element its
/// own representative (its parent is itself).
#[verifier::external_body]
fn uf_new(n: usize) -> (u: UnionFind<usize>)
    ensures
        uf_reps(u) == Seq::new(n as nat, |i: int| i as nat),
{
    UnionFind::new(n)
}

/// `UnionFind::find`: the representative of `x`, read without changing the
/// structure. It panics on an element out of range, which `requires` leaves out.
#[verifier::external_body]
fn uf_find(u: &UnionFind<usize>, x: usize) -> (r: usize)
    requires
        x < uf_reps(*u).len(),
    ensures
        r as nat == uf_reps(*u)[x as int],
{
    u.find(x)
}

/// `a` and `b` are in one set once the sets of `x` and `y` are merged.
pub open spec fn joined(r: Seq<nat>, x: int, y: int, a: int, b: int) -> bool {
    ||| r[a] == r[b]
    ||| r[a] == r[x] && r[b] == r[y]
    ||| r[a] == r[y] && r[b] == r[x]
}

/// `UnionFind::union`: merges the sets of `x` and `y`; path compression moves
/// parents but not the partition. It panics on an element out of range.
/// Which of the two representatives survives is not stated.
#[verifier::external_body]
fn uf_union(u: &mut UnionFind<usize>, x: usize, y: usize)
    requires
        x < uf_reps(*old(u)).len(),
        y < uf_reps(*old(u)).len(),
    ensures
        uf_reps(*final(u)).len() == uf_reps(*old(u)).len(),
        forall|a: int, b: int| 0 <= a < uf_reps(*old(u)).len() && 0 <= b < uf_reps(*old(u)).len() ==>
            (uf_reps(*final(u))[a] == uf_reps(*final(u))[b] <==> #[trigger] joined(uf_reps(*old(u)), x as int, y as int, a, b)),
{
    u.union(x, y);
}

/// `a` and `b` are joined by the pairs of `edges`, merged one after another.
pub open spec fn same_set(edges: Seq<(nat, nat)>, a: nat, b: nat) -> bool
    decreases edges.len(),
{
    if edges.len() == 0 {
        a == b
    } else {
        let (x, y) = edges.last();
        let rest = edges.drop_last();
        ||| same_set(rest, a, b)
        ||| same_set(rest, a, x) && same_set(rest, y, b)
        ||| same_set(rest, a, y) && same_set(rest, x, b)
    }
}

/// The switch-to-switch edges of graph edges `ge`, in order.
pub open spec fn switch_pairs(ge: Seq<(nat, nat, Seq<char>, u128)>, switches: Seq<bool>) -> Seq<(nat, nat)>
    decreases ge.len(),
{
    if ge.len() == 0 {
        Seq::empty()
    } else {
        let e = ge.last();
        let rest = switch_pairs(ge.drop_last(), switches);
        if switches[e.0 as int] && switches[e.1 as int] { rest.push((e.0, e.1)) } else { rest }
    }
}

/// Representatives that describe the partition of `done` over `n` elements.
spec fn reps_match(r: Seq<nat>, done: Seq<(nat, nat)>, n: nat) -> bool {
    &&& r.len() == n
    &&& forall|a: int, b: int| 0 <= a < n && 0 <= b < n ==> (r[a] == r[b] <==> #[trigger] same_set(done, a as nat, b as nat))
}

impl RoutingGraph {
    /// Union-find over the switch-to-switch edges: two switches share a
    /// representative exactly when switch links join them.
    fn switch_components(&self) -> (r: (UnionFind<usize>, Ghost<Seq<(nat, nat)>>))
        requires
            graph_nodes(self.graph).len() == self.ids@.len(),
            self.switches@.len() == self.ids@.len(),
            forall|e: int| 0 <= e < graph_edges(self.graph).len() ==> (#[trigger] graph_edges(self.graph)[e]).0 < self.ids@.len()
                && graph_edges(self.graph)[e].1 < self.ids@.len(),
        ensures
            reps_match(uf_reps(r.0), r.1@, self.ids@.len() as nat),
            forall|k: int| 0 <= k < r.1@.len() ==> (#[trigger] r.1@[k]).0 < self.ids@.len() && r.1@[k].1 < self.ids@.len()
                && self.switches@[r.1@[k].0 as int] && self.switches@[r.1@[k].1 as int],
            forall|k: int| 0 <= k < r.1@.len() ==> exists|e: int| 0 <= e < graph_edges(self.graph).len()
                && (#[trigger] graph_edges(self.graph)[e]).0 == (#[trigger] r.1@[k]).0 && graph_edges(self.graph)[e].1 == r.1@[k].1,
    {
        let n = self.ids.len();
        let mut uf = uf_new(n);
        let ghost mut done: Seq<(nat, nat)> = Seq::empty();
        proof {
            assert forall|a: int, b: int| 0 <= a < n && 0 <= b < n implies
                (uf_reps(uf)[a] == uf_reps(uf)[b] <==> #[trigger] same_set(done, a as nat, b as nat)) by {}
        }
        let mut a: usize = 0;
        while a < n
            invariant
                n == self.ids@.len(),
                graph_nodes(self.graph).len() == n,
                self.switches@.len() == n,
                forall|e: int| 0 <= e < graph_edges(self.graph).len() ==> (#[trigger] graph_edges(self.graph)[e]).0 < n
                    && graph_edges(self.graph)[e].1 < n,
                a <= n,
                reps_match(uf_reps(uf), done, n as nat),
                forall|k: int| 0 <= k < done.len() ==> (#[trigger] done[k]).0 < n && done[k].1 < n
                    && self.switches@[done[k].0 as int] && self.switches@[done[k].1 as int],
                forall|k: int| 0 <= k < done.len() ==> exists|e: int| 0 <= e < graph_edges(self.graph).len()
                    && (#[trigger] graph_edges(self.graph)[e]).0 == (#[trigger] done[k]).0 && graph_edges(self.graph)[e].1 == done[k].1,
            decreases n - a,
        {
            let out = graph_out_edges(&self.graph, a);
            let mut i: usize = 0;
            while i < out.len()
                invariant
                    n == self.ids@.len(),
                    graph_nodes(self.graph).len() == n,
                    self.switches@.len() == n,
                    forall|e: int| 0 <= e < graph_edges(self.graph).len() ==> (#[trigger] graph_edges(self.graph)[e]).0 < n
                        && graph_edges(self.graph)[e].1 < n,
                    a < n,
                    i <= out@.len(),
                    out@.len() == out_edges(graph_edges(self.graph), a as nat).len(),
                    forall|j: int| 0 <= j < out@.len() ==> {
                        let e = #[trigger] out_edges(graph_edges(self.graph), a as nat)[j];
                        out@[j].0 as nat == e.0 && out@[j].1@ == e.1 && out@[j].2 == e.2
                    },
                    reps_match(uf_reps(uf), done, n as nat),
                    forall|k: int| 0 <= k < done.len() ==> (#[trigger] done[k]).0 < n && done[k].1 < n
                        && self.switches@[done[k].0 as int] && self.switches@[done[k].1 as int],
                    forall|k: int| 0 <= k < done.len() ==> exists|e: int| 0 <= e < graph_edges(self.graph).len()
                        && (#[trigger] graph_edges(self.graph)[e]).0 == (#[trigger] done[k]).0 && graph_edges(self.graph)[e].1 == done[k].1,
                decreases out@.len() - i,
            {
                let t = out[i].0;
                proof {
                    lemma_out_edge(graph_edges(self.graph), a as nat, i as int);
                    let e = choose|e: int| 0 <= e < graph_edges(self.graph).len() && #[trigger] graph_edges(self.graph)[e]
                        == (a as nat, out_edges(graph_edges(self.graph), a as nat)[i as int].0,
                            out_edges(graph_edges(self.graph), a as nat)[i as int].1,
                            out_edges(graph_edges(self.graph), a as nat)[i as int].2);
                    assert(graph_edges(self.graph)[e].1 < n);
                }
                if self.switches[a] && self.switches[t] {
                    let ghost before = uf_reps(uf);
                    uf_union(&mut uf, a, t);
                    proof {
                        let d2 = done.push(((a as int) as nat, (t as int) as nat));
                        assert(d2.drop_last() =~= done);
                        let ai: int = a as int;
                        let ti: int = t as int;
                        assert forall|x: int, y: int| 0 <= x < n && 0 <= y < n implies
                            (uf_reps(uf)[x] == uf_reps(uf)[y] <==> #[trigger] same_set(d2, x as nat, y as nat)) by {
                            assert(joined(before, ai, ti, x, y) == (uf_reps(uf)[x] == uf_reps(uf)[y]));
                            assert(same_set(done, x as nat, y as nat) <==> before[x] == before[y]);
                            assert(same_set(done, x as nat, ai as nat) <==> before[x] == before[ai]);
                            assert(same_set(done, ti as nat, y as nat) <==> before[ti] == before[y]);
                            assert(same_set(done, x as nat, ti as nat) <==> before[x] == before[ti]);
                            assert(same_set(done, ai as nat, y as nat) <==> before[ai] == before[y]);
                        }
                        let e = choose|e: int| 0 <= e < graph_edges(self.graph).len() && #[trigger] graph_edges(self.graph)[e]
                            == (a as nat, out_edges(graph_edges(self.graph), a as nat)[i as int].0,
                                out_edges(graph_edges(self.graph), a as nat)[i as int].1,
                                out_edges(graph_edges(self.graph), a as nat)[i as int].2);
                        assert forall|k: int| 0 <= k < d2.len() implies exists|e2: int| 0 <= e2 < graph_edges(self.graph).len()
                            && (#[trigger] graph_edges(self.graph)[e2]).0 == (#[trigger] d2[k]).0 && graph_edges(self.graph)[e2].1 == d2[k].1 by {
                            if k < done.len() {
                                assert(d2[k] == done[k]);
                            } else {
                                assert(graph_edges(self.graph)[e].0 == d2[k].0 && graph_edges(self.graph)[e].1 == d2[k].1);
                            }
                        }
                        done = d2;
                    }
                }
                i += 1;
            }
            a += 1;
        }
        (uf, Ghost(done))
    }
}

/// A walk over active switches only.
pub open spec fn switch_walk(sim: Simulation, path: Seq<Seq<char>>, links: Seq<Seq<char>>) -> bool {
    &&& path.len() == links.len() + 1
    &&& forall|i: int| 0 <= i < path.len() ==> switch_node(sim, #[trigger] path[i])
    &&& forall|i: int| 0 <= i < links.len() ==> usable_link(sim, #[trigger] links[i], path[i], path[i + 1])
}

/// Switches `x` and `y` are joined by usable links between switches.
pub open spec fn switch_joined(sim: Simulation, x: Seq<char>, y: Seq<char>) -> bool {
    exists|path: Seq<Seq<char>>, links: Seq<Seq<char>>| #[trigger] switch_walk(sim, path, links)
        && path[0] == x && path.last() == y
}

/// Some route leads from `x` to `y`.
pub open spec fn reachable(sim: Simulation, x: Seq<char>, y: Seq<char>) -> bool {
    exists|links: Seq<Seq<char>>| #[trigger] route_ok(sim, x, y, links)
}

proof fn lemma_switch_refl(sim: Simulation, x: Seq<char>)
    requires
        switch_node(sim, x),
    ensures
        switch_joined(sim, x, x),
{
    let p = seq![x];
    let l = Seq::<Seq<char>>::empty();
    assert(switch_walk(sim, p, l));
}

proof fn lemma_switch_step(sim: Simulation, x: Seq<char>, y: Seq<char>, z: Seq<char>, l: Seq<char>)
    requires
        switch_joined(sim, x, y),
        switch_node(sim, z),
        usable_link(sim, l, y, z),
    ensures
        switch_joined(sim, x, z),
{
    let (p, m) = choose|p: Seq<Seq<char>>, m: Seq<Seq<char>>| #[trigger] switch_walk(sim, p, m) && p[0] == x && p.last() == y;
    let p2 = p.push(z);
    let m2 = m.push(l);
    assert forall|i: int| 0 <= i < p2.len() implies switch_node(sim, #[trigger] p2[i]) by {
        if i < p.len() {
            assert(p2[i] == p[i]);
        }
    }
    assert forall|i: int| 0 <= i < m2.len() implies usable_link(sim, #[trigger] m2[i], p2[i], p2[i + 1]) by {
        if i < m.len() {
            assert(m2[i] == m[i] && p2[i] == p[i] && p2[i + 1] == p[i + 1]);
        }
    }
    assert(switch_walk(sim, p2, m2));
}

/// Following a switch walk from its start keeps `x` joined to every node on it.
proof fn lemma_switch_along(sim: Simulation, x: Seq<char>, p: Seq<Seq<char>>, m: Seq<Seq<char>>, k: int)
    requires
        switch_walk(sim, p, m),
        switch_joined(sim, x, p[0]),
        0 <= k < p.len(),
    ensures
        switch_joined(sim, x, p[k]),
    decreases k,
{
    if k > 0 {
        lemma_switch_along(sim, x, p, m, k - 1);
        assert(usable_link(sim, m[k - 1], p[k - 1], p[k]));
        lemma_switch_step(sim, x, p[k - 1], p[k], m[k - 1]);
    }
}

proof fn lemma_switch_concat(sim: Simulation, x: Seq<char>, y: Seq<char>, z: Seq<char>)
    requires
        switch_joined(sim, x, y),
        switch_joined(sim, y, z),
    ensures
        switch_joined(sim, x, z),
{
    let (p, m) = choose|p: Seq<Seq<char>>, m: Seq<Seq<char>>| #[trigger] switch_walk(sim, p, m) && p[0] == y && p.last() == z;
    lemma_switch_along(sim, x, p, m, p.len() - 1);
}

/// Nodes that the merged pairs put in one set are joined by switch links, when every
/// pair is a usable link between switches.
proof fn lemma_same_set_joined(sim: Simulation, ids: Seq<String>, done: Seq<(nat, nat)>, a: nat, b: nat)
    requires
        forall|k: int| 0 <= k < done.len() ==> (#[trigger] done[k]).0 < ids.len() && done[k].1 < ids.len()
            && switch_node(sim, ids[done[k].0 as int]@) && switch_node(sim, ids[done[k].1 as int]@)
            && linked(sim, ids[done[k].0 as int]@, ids[done[k].1 as int]@),
        a < ids.len() && b < ids.len(),
        switch_node(sim, ids[a as int]@) && switch_node(sim, ids[b as int]@),
        same_set(done, a, b),
    ensures
        switch_joined(sim, ids[a as int]@, ids[b as int]@),
    decreases done.len(),
{
    if done.len() == 0 {
        lemma_switch_refl(sim, ids[a as int]@);
    } else {
        let (x, y) = done.last();
        let rest = done.drop_last();
        assert(done[done.len() - 1] == (x, y));
        assert forall|k: int| 0 <= k < rest.len() implies (#[trigger] rest[k]).0 < ids.len() && rest[k].1 < ids.len()
            && switch_node(sim, ids[rest[k].0 as int]@) && switch_node(sim, ids[rest[k].1 as int]@)
            && linked(sim, ids[rest[k].0 as int]@, ids[rest[k].1 as int]@) by {
            assert(rest[k] == done[k]);
        }
        let xs = ids[x as int]@;
        let ys = ids[y as int]@;
        assert(linked(sim, xs, ys));
        let l = choose|l: Seq<char>| #[trigger] usable_link(sim, l, xs, ys);
        if same_set(rest, a, b) {
            lemma_same_set_joined(sim, ids, rest, a, b);
        } else if same_set(rest, a, x) && same_set(rest, y, b) {
            lemma_same_set_joined(sim, ids, rest, a, x);
            lemma_same_set_joined(sim, ids, rest, y, b);
            lemma_switch_step(sim, ids[a as int]@, xs, ys, l);
            lemma_switch_concat(sim, ids[a as int]@, ys, ids[b as int]@);
        } else {
            lemma_same_set_joined(sim, ids, rest, a, y);
            lemma_same_set_joined(sim, ids, rest, x, b);
            assert(usable_link(sim, l, ys, xs));
            lemma_switch_step(sim, ids[a as int]@, ys, xs, l);
            lemma_switch_concat(sim, ids[a as int]@, xs, ids[b as int]@);
        }
    }
}

/// A link to a switch at each end, and switch links between the two switches, make a route.
proof fn lemma_route_via_switches(sim: Simulation, x: Seq<char>, a: Seq<char>, b: Seq<char>, y: Seq<char>)
    requires
        active_node(sim, x),
        active_node(sim, y),
        linked(sim, x, a),
        linked(sim, y, b),
        switch_joined(sim, a, b),
    ensures
        reachable(sim, x, y),
{
    let (p, m) = choose|p: Seq<Seq<char>>, m: Seq<Seq<char>>| #[trigger] switch_walk(sim, p, m) && p[0] == a && p.last() == b;
    let l1 = choose|l: Seq<char>| #[trigger] usable_link(sim, l, x, a);
    let l2 = choose|l: Seq<char>| #[trigger] usable_link(sim, l, y, b);
    assert(usable_link(sim, l2, b, y));
    let path = seq![x] + p + seq![y];
    let links = seq![l1] + m + seq![l2];
    assert forall|i: int| 0 <= i < path.len() implies active_node(sim, #[trigger] path[i]) by {
        if 0 < i < path.len() - 1 {
            assert(path[i] == p[i - 1]);
            assert(switch_node(sim, p[i - 1]));
        }
    }
    assert forall|i: int| 0 < i < path.len() - 1 implies switch_node(sim, #[trigger] path[i]) by {
        assert(path[i] == p[i - 1]);
    }
    assert forall|i: int| 0 <= i < links.len() implies usable_link(sim, #[trigger] links[i], path[i], path[i + 1]) by {
        if i == 0 {
            assert(links[0] == l1 && path[0] == x && path[1] == p[0]);
        } else if i <= m.len() {
            assert(links[i] == m[i - 1] && path[i] == p[i - 1] && path[i + 1] == p[i]);
        } else {
            assert(links[i] == l2 && path[i] == p[p.len() - 1] && path[i + 1] == y);
        }
    }
    assert(walk(sim, path, links));
    assert(route_ok(sim, x, y, links));
}

/// A usable link between two active nodes is a route.
proof fn lemma_route_direct(sim: Simulation, x: Seq<char>, y: Seq<char>)
    requires
        active_node(sim, x),
        active_node(sim, y),
        linked(sim, x, y),
    ensures
        reachable(sim, x, y),
{
    let l = choose|l: Seq<char>| #[trigger] usable_link(sim, l, x, y);
    let path = seq![x, y];
    let links = seq![l];
    assert(walk(sim, path, links));
    assert(route_ok(sim, x, y, links));
}

/// Switches with one representative are joined by switch links.
spec fn reps_joined(sim: Simulation, ids: Seq<String>, switches: Seq<bool>, reps: Seq<nat>) -> bool {
    forall|s1: int, s2: int| #![trigger reps[s1], reps[s2]] 0 <= s1 < ids.len() && 0 <= s2 < ids.len()
        && switches[s1] && switches[s2] && reps[s1] == reps[s2] ==> switch_joined(sim, ids[s1]@, ids[s2]@)
}

/// `r` is the representative of a switch that `x` has a usable link to.
spec fn rep_near(sim: Simulation, ids: Seq<String>, switches: Seq<bool>, reps: Seq<nat>, x: Seq<char>, r: usize) -> bool {
    exists|s: int| 0 <= s < ids.len() && switches[s] && #[trigger] reps[s] == r as nat && linked(sim, x, ids[s]@)
}

spec fn switches_named(sim: Simulation, ids: Seq<String>, switches: Seq<bool>) -> bool {
    forall|s: int| 0 <= s < ids.len() && #[trigger] switches[s] ==> switch_node(sim, ids[s]@)
}

proof fn lemma_pair_reachable(sim: Simulation, ids: Seq<String>, switches: Seq<bool>, reps: Seq<nat>,
    x: Seq<char>, y: Seq<char>, r: usize)
    requires
        reps_joined(sim, ids, switches, reps),
        switches_named(sim, ids, switches),
        rep_near(sim, ids, switches, reps, x, r),
        rep_near(sim, ids, switches, reps, y, r),
        active_node(sim, x),
        active_node(sim, y),
    ensures
        reachable(sim, x, y),
{
    let s1 = choose|s: int| 0 <= s < ids.len() && switches[s] && #[trigger] reps[s] == r as nat && linked(sim, x, ids[s]@);
    let s2 = choose|s: int| 0 <= s < ids.len() && switches[s] && #[trigger] reps[s] == r as nat && linked(sim, y, ids[s]@);
    assert(switch_joined(sim, ids[s1]@, ids[s2]@));
    lemma_route_via_switches(sim, x, ids[s1]@, ids[s2]@, y);
}

/// Whether two lists of representatives share one.
fn shares(a: &Vec<usize>, b: &Vec<usize>) -> (r: bool)
    ensures
        r <==> exists|i: int, j: int| 0 <= i < a@.len() && 0 <= j < b@.len() && #[trigger] a@[i] == #[trigger] b@[j],
{
    let mut i: usize = 0;
    while i < a.len()
        invariant
            i <= a@.len(),
            forall|x: int, j: int| 0 <= x < i && 0 <= j < b@.len() ==> #[trigger] a@[x] != #[trigger] b@[j],
        decreases a@.len() - i,
    {
        let mut j: usize = 0;
        while j < b.len()
            invariant
                i < a@.len(),
                j <= b@.len(),
                forall|x: int, y: int| 0 <= x < i && 0 <= y < b@.len() ==> #[trigger] a@[x] != #[trigger] b@[y],
                forall|y: int| 0 <= y < j ==> a@[i as int] != #[trigger] b@[y],
            decreases b@.len() - j,
        {
            if a[i] == b[j] {
                return true;
            }
            j += 1;
        }
        i += 1;
    }
    false
}

fn holds(v: &Vec<usize>, x: usize) -> (r: bool)
    ensures
        r == v@.contains(x),
{
    let mut i: usize = 0;
    while i < v.len()
        invariant
            i <= v@.len(),
            forall|k: int| 0 <= k < i ==> v@[k] != x,
        decreases v@.len() - i,
    {
        if v[i] == x {
            return true;
        }
        i += 1;
    }
    false
}

fn names(v: &Vec<String>, x: &str) -> (r: bool)
    ensures
        r == exists|k: int| 0 <= k < v@.len() && (#[trigger] v@[k])@ == x@,
{
    position(v, x).is_some()
}

impl Simulation {
    /// Ranks can reach each other: all share a switch network, or each pair shares
    /// one or is joined by a direct host link. Inactive ranks are a state error.
    #[verifier::spinoff_prover]
    #[verifier::rlimit(50)]
    pub(crate) fn validate_rank_connectivity(&self, ranks: &Vec<String>) -> (r: Result<()>)
        requires
            self.wf(),
            graph_fits(*self),
        ensures
            graph_fault(*self) matches Some(k) ==> r is Err && r->Err_0.kind() == k,
            r is Err ==> r->Err_0 is State || r->Err_0 is Invalid || r->Err_0 is NoRoute,
            r is Ok ==> graph_fault(*self) is None && forall|i: int| 0 <= i < ranks@.len()
                ==> active_node(*self, (#[trigger] ranks@[i])@),
            r is Err && graph_fault(*self) is None && (forall|i: int| 0 <= i < ranks@.len()
                ==> active_node(*self, (#[trigger] ranks@[i])@)) ==> r->Err_0 is NoRoute && ranks@.len() >= 2,
            graph_fault(*self) is None && (forall|i: int| 0 <= i < ranks@.len() ==> active_node(*self, (#[trigger] ranks@[i])@))
                && ranks@.len() <= 1 ==> r is Ok,
            r is Err && r->Err_0 is NoRoute ==> graph_fault(*self) is None && ranks@.len() >= 2
                && forall|i: int| 0 <= i < ranks@.len() ==> active_node(*self, (#[trigger] ranks@[i])@),
            graph_fault(*self) is None && ranks@.len() >= 2
                && (forall|i: int| 0 <= i < ranks@.len() ==> active_node(*self, (#[trigger] ranks@[i])@))
                && (exists|i: int| 0 <= i < ranks@.len() && isolated(*self, (#[trigger] ranks@[i])@)) ==> r is Err,
            r is Ok ==> forall|i: int, j: int| 0 <= i < j < ranks@.len()
                ==> reachable(*self, (#[trigger] ranks@[i])@, (#[trigger] ranks@[j])@),
    {
        let ghost iso = exists|i: int| 0 <= i < ranks@.len() && isolated(*self, (#[trigger] ranks@[i])@);
        let ghost kk: int = choose|i: int| 0 <= i < ranks@.len() && isolated(*self, (#[trigger] ranks@[i])@);
        let ghost js: int = if kk == 0 { 1 } else { kk };
        let g = RoutingGraph::new(self)?;
        proof {
            assert forall|e: int| 0 <= e < graph_edges(g.graph).len() implies (#[trigger] graph_edges(g.graph)[e]).0 < g.ids@.len()
                && graph_edges(g.graph)[e].1 < g.ids@.len() by {}
        }
        let (uf, Ghost(done)) = g.switch_components();
        let n = g.ids.len();
        proof {
            let ids = g.ids@;
            let ge = graph_edges(g.graph);
            assert forall|s: int| 0 <= s < ids.len() && #[trigger] g.switches@[s] implies switch_node(*self, ids[s]@) by {
                assert(active_node(*self, ids[s]@));
            }
            assert forall|k: int| 0 <= k < done.len() implies (#[trigger] done[k]).0 < ids.len() && done[k].1 < ids.len()
                && switch_node(*self, ids[done[k].0 as int]@) && switch_node(*self, ids[done[k].1 as int]@)
                && linked(*self, ids[done[k].0 as int]@, ids[done[k].1 as int]@) by {
                let e = choose|e: int| 0 <= e < ge.len() && (#[trigger] ge[e]).0 == done[k].0 && ge[e].1 == done[k].1;
                assert(usable_link(*self, ge[e].2, ids[ge[e].0 as int]@, ids[ge[e].1 as int]@));
                assert(g.switches@[done[k].0 as int] && g.switches@[done[k].1 as int]);
            }
            assert forall|s1: int, s2: int| #![trigger uf_reps(uf)[s1], uf_reps(uf)[s2]] 0 <= s1 < ids.len() && 0 <= s2 < ids.len()
                && g.switches@[s1] && g.switches@[s2] && uf_reps(uf)[s1] == uf_reps(uf)[s2]
                implies switch_joined(*self, ids[s1]@, ids[s2]@) by {
                assert(same_set(done, s1 as nat, s2 as nat));
                lemma_same_set_joined(*self, ids, done, s1 as nat, s2 as nat);
            }
            assert(reps_joined(*self, ids, g.switches@, uf_reps(uf)));
            assert(switches_named(*self, ids, g.switches@));
        }
        let mut attached: Vec<Vec<usize>> = Vec::new();
        let mut direct: Vec<Vec<String>> = Vec::new();
        let mut k: usize = 0;
        while k < ranks.len()
            invariant
                g.graph_ok(*self),
                n == g.ids@.len(),
                graph_nodes(g.graph).len() == n,
                uf_reps(uf).len() == n,
                k <= ranks@.len(),
                attached@.len() == k && direct@.len() == k,
                forall|i: int| 0 <= i < k ==> active_node(*self, (#[trigger] ranks@[i])@),
                forall|i: int| 0 <= i < k && isolated(*self, (#[trigger] ranks@[i])@) ==> attached@[i]@.len() == 0,
                forall|i: int, m: int| 0 <= i < k && 0 <= m < direct@[i]@.len() ==> linked(*self, ranks@[i]@, (#[trigger] direct@[i]@[m])@),
                forall|i: int, m: int| 0 <= i < k && 0 <= m < attached@[i]@.len()
                    ==> rep_near(*self, g.ids@, g.switches@, uf_reps(uf), ranks@[i]@, #[trigger] attached@[i]@[m]),
            decreases ranks@.len() - k,
        {
            let node = match position(&g.ids, ranks[k].as_str()) {
                Some(x) => x,
                None => {
                    return Err(Error::State("rank is inactive".to_owned()));
                },
            };
            proof {
                assert(active_node(*self, g.ids@[node as int]@));
            }
            let out = graph_out_edges(&g.graph, node);
            proof {
                if isolated(*self, ranks@[k as int]@) && out@.len() > 0 {
                    lemma_out_edge(graph_edges(g.graph), node as nat, 0);
                    let e = choose|e: int| 0 <= e < graph_edges(g.graph).len() && #[trigger] graph_edges(g.graph)[e]
                        == (node as nat, out_edges(graph_edges(g.graph), node as nat)[0].0,
                            out_edges(graph_edges(g.graph), node as nat)[0].1,
                            out_edges(graph_edges(g.graph), node as nat)[0].2);
                    let ge = graph_edges(g.graph)[e];
                    assert(usable_link(*self, ge.2, g.ids@[ge.0 as int]@, g.ids@[ge.1 as int]@));
                }
            }
            let mut networks: Vec<usize> = Vec::new();
            let mut neighbors: Vec<String> = Vec::new();
            let mut i: usize = 0;
            while i < out.len()
                invariant
                    g.graph_ok(*self),
                    n == g.ids@.len(),
                    graph_nodes(g.graph).len() == n,
                    uf_reps(uf).len() == n,
                    node < n,
                    g.ids@[node as int]@ == ranks@[k as int]@,
                    k < ranks@.len(),
                    isolated(*self, ranks@[k as int]@) ==> out@.len() == 0,
                    networks@.len() <= i,
                    forall|m: int| 0 <= m < networks@.len()
                        ==> rep_near(*self, g.ids@, g.switches@, uf_reps(uf), ranks@[k as int]@, #[trigger] networks@[m]),
                    forall|m: int| 0 <= m < neighbors@.len() ==> linked(*self, ranks@[k as int]@, (#[trigger] neighbors@[m])@),
                    i <= out@.len(),
                    out@.len() == out_edges(graph_edges(g.graph), node as nat).len(),
                    forall|j: int| 0 <= j < out@.len() ==> {
                        let e = #[trigger] out_edges(graph_edges(g.graph), node as nat)[j];
                        out@[j].0 as nat == e.0 && out@[j].1@ == e.1 && out@[j].2 == e.2
                    },
                decreases out@.len() - i,
            {
                let t = out[i].0;
                proof {
                    lemma_out_edge(graph_edges(g.graph), node as nat, i as int);
                    let e = choose|e: int| 0 <= e < graph_edges(g.graph).len() && #[trigger] graph_edges(g.graph)[e]
                        == (node as nat, out_edges(graph_edges(g.graph), node as nat)[i as int].0,
                            out_edges(graph_edges(g.graph), node as nat)[i as int].1,
                            out_edges(graph_edges(g.graph), node as nat)[i as int].2);
                    assert(graph_edges(g.graph)[e].1 < n);
                }
                let ghost lk = out_edges(graph_edges(g.graph), node as nat)[i as int].1;
                proof {
                    lemma_out_edge(graph_edges(g.graph), node as nat, i as int);
                    let e = choose|e: int| 0 <= e < graph_edges(g.graph).len() && #[trigger] graph_edges(g.graph)[e]
                        == (node as nat, out_edges(graph_edges(g.graph), node as nat)[i as int].0,
                            out_edges(graph_edges(g.graph), node as nat)[i as int].1,
                            out_edges(graph_edges(g.graph), node as nat)[i as int].2);
                    assert(usable_link(*self, lk, ranks@[k as int]@, g.ids@[t as int]@));
                }
                if g.switches[t] {
                    let rep = uf_find(&uf, t);
                    let ghost before_n = networks@;
                    networks.push(rep);
                    proof {
                        assert(linked(*self, ranks@[k as int]@, g.ids@[t as int]@));
                        assert(uf_reps(uf)[t as int] == rep as nat);
                        assert(rep_near(*self, g.ids@, g.switches@, uf_reps(uf), ranks@[k as int]@, rep));
                        assert forall|m: int| 0 <= m < networks@.len()
                            implies rep_near(*self, g.ids@, g.switches@, uf_reps(uf), ranks@[k as int]@, #[trigger] networks@[m]) by {
                            if m < before_n.len() {
                                assert(networks@[m] == before_n[m]);
                            }
                        }
                    }
                } else {
                    let ghost before = neighbors@;
                    neighbors.push(g.ids[t].clone());
                    proof {
                        assert forall|m: int| 0 <= m < neighbors@.len() implies linked(*self, ranks@[k as int]@, (#[trigger] neighbors@[m])@) by {
                            if m < before.len() {
                                assert(neighbors@[m] == before[m]);
                            } else {
                                assert(usable_link(*self, lk, ranks@[k as int]@, neighbors@[m]@));
                            }
                        }
                    }
                }
                i += 1;
            }
            let ghost old_attached = attached@;
            let ghost old_direct = direct@;
            attached.push(networks);
            direct.push(neighbors);
            proof {
                assert forall|i: int| 0 <= i < k + 1 && isolated(*self, (#[trigger] ranks@[i])@) implies attached@[i]@.len() == 0 by {
                    if i < k {
                        assert(attached@[i] == old_attached[i]);
                    } else {
                        assert(attached@[i] == networks);
                    }
                }
                assert forall|i: int, m: int| 0 <= i < k + 1 && 0 <= m < direct@[i]@.len() implies linked(*self, ranks@[i]@, (#[trigger] direct@[i]@[m])@) by {
                    if i < k {
                        assert(direct@[i] == old_direct[i]);
                    }
                }
                assert forall|i: int, m: int| 0 <= i < k + 1 && 0 <= m < attached@[i]@.len()
                    implies rep_near(*self, g.ids@, g.switches@, uf_reps(uf), ranks@[i]@, #[trigger] attached@[i]@[m]) by {
                    if i < k {
                        assert(attached@[i] == old_attached[i]);
                    } else {
                        assert(attached@[i] == networks);
                    }
                }
            }
            k += 1;
        }
        if ranks.len() > 0 {
            let first = &attached[0];
            let mut c: usize = 0;
            while c < first.len()
                invariant
                    attached@.len() == ranks@.len(),
                    ranks@.len() > 0,
                    *first == attached@[0],
                    c <= first@.len(),
                    iso ==> 0 <= kk < ranks@.len() && isolated(*self, ranks@[kk]@),
                    forall|i: int| 0 <= i < ranks@.len() && isolated(*self, (#[trigger] ranks@[i])@) ==> attached@[i]@.len() == 0,
                    graph_fault(*self) is None,
                    forall|x: int| 0 <= x < ranks@.len() ==> active_node(*self, (#[trigger] ranks@[x])@),
                    reps_joined(*self, g.ids@, g.switches@, uf_reps(uf)),
                    switches_named(*self, g.ids@, g.switches@),
                    forall|x: int, m: int| 0 <= x < ranks@.len() && 0 <= m < attached@[x]@.len()
                        ==> rep_near(*self, g.ids@, g.switches@, uf_reps(uf), ranks@[x]@, #[trigger] attached@[x]@[m]),
                iso && kk == 0 ==> first@.len() == 0,
                decreases first@.len() - c,
            {
                let mut everywhere = true;
                let mut j: usize = 1;
                while j < attached.len()
                    invariant
                        c < first@.len(),
                        1 <= j <= attached@.len(),
                        attached@.len() == ranks@.len(),
                        iso ==> 0 <= kk < ranks@.len() && isolated(*self, ranks@[kk]@),
                        forall|i: int| 0 <= i < ranks@.len() && isolated(*self, (#[trigger] ranks@[i])@) ==> attached@[i]@.len() == 0,
                        iso && 1 <= kk < j ==> !everywhere,
                        *first == attached@[0],
                        everywhere ==> forall|x: int| 1 <= x < j ==> (#[trigger] attached@[x])@.contains(first@[c as int]),
                    decreases attached@.len() - j,
                {
                    if !holds(&attached[j], first[c]) {
                        everywhere = false;
                    }
                    j += 1;
                }
                if everywhere {
                    proof {
                        let rc = first@[c as int];
                        assert forall|x: int| 0 <= x < ranks@.len()
                            implies rep_near(*self, g.ids@, g.switches@, uf_reps(uf), ranks@[x]@, rc) by {
                            if x == 0 {
                                assert(attached@[0]@[c as int] == rc);
                            } else {
                                assert(attached@[x]@.contains(rc));
                                let m = choose|m: int| 0 <= m < attached@[x]@.len() && attached@[x]@[m] == rc;
                                assert(rep_near(*self, g.ids@, g.switches@, uf_reps(uf), ranks@[x]@, attached@[x]@[m]));
                            }
                        }
                        assert forall|a: int, b: int| 0 <= a < b < ranks@.len()
                            implies reachable(*self, (#[trigger] ranks@[a])@, (#[trigger] ranks@[b])@) by {
                            lemma_pair_reachable(*self, g.ids@, g.switches@, uf_reps(uf), ranks@[a]@, ranks@[b]@, rc);
                        }
                    }
                    return Ok(());
                }
                c += 1;
            }
        }
        let mut i: usize = 0;
        while i < ranks.len()
            invariant
                attached@.len() == ranks@.len() && direct@.len() == ranks@.len(),
                i <= ranks@.len(),
                graph_fault(*self) is None,
                forall|x: int| 0 <= x < ranks@.len() ==> active_node(*self, (#[trigger] ranks@[x])@),
                iso ==> 0 <= kk < ranks@.len() && isolated(*self, ranks@[kk]@),
                js == (if kk == 0 { 1 } else { kk }),
                forall|x: int| 0 <= x < ranks@.len() && isolated(*self, (#[trigger] ranks@[x])@) ==> attached@[x]@.len() == 0,
                forall|x: int, m: int| 0 <= x < ranks@.len() && 0 <= m < direct@[x]@.len() ==> linked(*self, ranks@[x]@, (#[trigger] direct@[x]@[m])@),
                reps_joined(*self, g.ids@, g.switches@, uf_reps(uf)),
                switches_named(*self, g.ids@, g.switches@),
                forall|x: int, m: int| 0 <= x < ranks@.len() && 0 <= m < attached@[x]@.len()
                    ==> rep_near(*self, g.ids@, g.switches@, uf_reps(uf), ranks@[x]@, #[trigger] attached@[x]@[m]),
                iso && ranks@.len() >= 2 ==> i == 0,
                forall|a: int, b: int| 0 <= a < i && a < b < ranks@.len()
                    ==> reachable(*self, (#[trigger] ranks@[a])@, (#[trigger] ranks@[b])@),
            decreases ranks@.len() - i,
        {
            let mut j: usize = i + 1;
            while j < ranks.len()
                invariant
                    attached@.len() == ranks@.len() && direct@.len() == ranks@.len(),
                    graph_fault(*self) is None,
                    forall|x: int| 0 <= x < ranks@.len() ==> active_node(*self, (#[trigger] ranks@[x])@),
                    i < ranks@.len(),
                    i + 1 <= j <= ranks@.len(),
                    iso ==> 0 <= kk < ranks@.len() && isolated(*self, ranks@[kk]@),
                    js == (if kk == 0 { 1 } else { kk }),
                    forall|x: int| 0 <= x < ranks@.len() && isolated(*self, (#[trigger] ranks@[x])@) ==> attached@[x]@.len() == 0,
                    forall|x: int, m: int| 0 <= x < ranks@.len() && 0 <= m < direct@[x]@.len() ==> linked(*self, ranks@[x]@, (#[trigger] direct@[x]@[m])@),
                    reps_joined(*self, g.ids@, g.switches@, uf_reps(uf)),
                    switches_named(*self, g.ids@, g.switches@),
                    forall|x: int, m: int| 0 <= x < ranks@.len() && 0 <= m < attached@[x]@.len()
                        ==> rep_near(*self, g.ids@, g.switches@, uf_reps(uf), ranks@[x]@, #[trigger] attached@[x]@[m]),
                    iso && ranks@.len() >= 2 ==> i == 0 && j <= js,
                    forall|a: int, b: int| 0 <= a < i && a < b < ranks@.len()
                        ==> reachable(*self, (#[trigger] ranks@[a])@, (#[trigger] ranks@[b])@),
                    forall|b: int| i < b < j ==> reachable(*self, ranks@[i as int]@, (#[trigger] ranks@[b])@),
                decreases ranks@.len() - j,
            {
                proof {
                    if iso && ranks@.len() >= 2 && j == js {
                        if kk == 0 {
                            assert(attached@[0]@.len() == 0);
                            assert forall|m: int| 0 <= m < direct@[0]@.len() implies (#[trigger] direct@[0]@[m])@ != ranks@[js]@ by {
                                assert(linked(*self, ranks@[0]@, direct@[0]@[m]@));
                                let l = choose|l: Seq<char>| #[trigger] usable_link(*self, l, ranks@[0]@, direct@[0]@[m]@);
                                assert(!usable_link(*self, l, ranks@[0]@, direct@[0]@[m]@));
                            }
                        } else {
                            assert(attached@[js]@.len() == 0);
                            assert forall|m: int| 0 <= m < direct@[0]@.len() implies (#[trigger] direct@[0]@[m])@ != ranks@[js]@ by {
                                assert(linked(*self, ranks@[0]@, direct@[0]@[m]@));
                                let l = choose|l: Seq<char>| #[trigger] usable_link(*self, l, ranks@[0]@, direct@[0]@[m]@);
                                if direct@[0]@[m]@ == ranks@[js]@ {
                                    assert(usable_link(*self, l, ranks@[kk]@, ranks@[0]@));
                                }
                            }
                        }
                    }
                }
                if !shares(&attached[i], &attached[j]) && !names(&direct[i], ranks[j].as_str()) {
                    return Err(Error::NoRoute(ranks[i].clone(), ranks[j].clone()));
                }
                proof {
                    let (x, y) = (i as int, j as int);
                    if exists|p: int, q: int| 0 <= p < attached@[x]@.len() && 0 <= q < attached@[y]@.len()
                        && #[trigger] attached@[x]@[p] == #[trigger] attached@[y]@[q] {
                        let (p, q) = choose|p: int, q: int| 0 <= p < attached@[x]@.len() && 0 <= q < attached@[y]@.len()
                            && #[trigger] attached@[x]@[p] == #[trigger] attached@[y]@[q];
                        assert(rep_near(*self, g.ids@, g.switches@, uf_reps(uf), ranks@[x]@, attached@[x]@[p]));
                        assert(rep_near(*self, g.ids@, g.switches@, uf_reps(uf), ranks@[y]@, attached@[y]@[q]));
                        lemma_pair_reachable(*self, g.ids@, g.switches@, uf_reps(uf), ranks@[x]@, ranks@[y]@, attached@[x]@[p]);
                    } else {
                        let m = choose|m: int| 0 <= m < direct@[x]@.len() && (#[trigger] direct@[x]@[m])@ == ranks@[y]@;
                        assert(linked(*self, ranks@[x]@, direct@[x]@[m]@));
                        lemma_route_direct(*self, ranks@[x]@, ranks@[y]@);
                    }
                }
                j += 1;
            }
            i += 1;
        }
        Ok(())
    }
}

} // verus!
