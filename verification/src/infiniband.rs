//! The plan for running a topology on a simulated InfiniBand subnet: native node
//! names in name order, port numbers in interface-name order, and the cabling.
//! Building and driving the native subnet is the caller's business.
use vstd::prelude::*;
use crate::keyed::{find, keyed, has_key, lemma_index_of_key};
use crate::model::{Error, Result, Simulation, Node, Interface, InterfaceType, Role, invalid, pair_get, pairs_get};
use crate::text::{bytes_lt, utf8, str_lt, decimal, lemma_decimal_ascii, push_decimal, ascii_chars, all_ascii, ascii_string, append};
use crate::outside::{json_text_str, json_as_str};

verus! {

/// A node of the native subnet: a switch or a host channel adapter.
#[derive(Clone, Debug)]
pub struct IbNode {
    pub name: String,
    pub switch: bool,
    pub ports: u8,
}

/// One end of a native cable.
#[derive(Clone, Debug)]
pub struct IbPort {
    pub node: String,
    pub port: u8,
}

#[derive(Clone, Debug)]
pub struct IbLink {
    pub id: String,
    pub endpoints: [IbPort; 2],
    pub up: bool,
}

/// What the native subnet will and will not exercise, and how model names map
/// onto it. `nodes` maps model node names to native names and `ports` maps
/// `node:interface` to port numbers, both in model order.
#[derive(Clone, Debug)]
pub struct IbPlan {
    pub scope: String,
    pub rdma_payload_tested: bool,
    pub nccl_tested: bool,
    pub bandwidth_latency_enforced: bool,
    pub nodes: Vec<(String, String)>,
    pub ports: Vec<(String, u8)>,
    pub native_nodes: Vec<IbNode>,
    pub links: Vec<IbLink>,
}

pub open spec fn name_less(a: Seq<char>, b: Seq<char>) -> bool {
    bytes_lt(utf8(a), utf8(b))
}

/// How many nodes have a name ordered before `name`.
pub open spec fn node_rank(nodes: Seq<Node>, name: Seq<char>) -> nat
    decreases nodes.len(),
{
    if nodes.len() == 0 {
        0
    } else {
        node_rank(nodes.drop_last(), name) + if name_less(nodes.last().spec.name@, name) { 1nat } else { 0nat }
    }
}

/// How many interfaces of node `owner` have a name ordered before `name`.
pub open spec fn port_rank(ifaces: Seq<Interface>, owner: Seq<char>, name: Seq<char>) -> nat
    decreases ifaces.len(),
{
    if ifaces.len() == 0 {
        0
    } else {
        let i = ifaces.last();
        port_rank(ifaces.drop_last(), owner, name) + if i.node@ == owner && name_less(i.name@, name) { 1nat } else { 0nat }
    }
}

/// How many interfaces node `owner` has.
pub open spec fn port_count(ifaces: Seq<Interface>, owner: Seq<char>) -> nat
    decreases ifaces.len(),
{
    if ifaces.len() == 0 {
        0
    } else {
        port_count(ifaces.drop_last(), owner) + if ifaces.last().node@ == owner { 1nat } else { 0nat }
    }
}

/// Decimal digits of `n`, zero-padded to at least four.
pub open spec fn padded(n: nat) -> Seq<u8> {
    let d = decimal(n);
    if d.len() < 4 { Seq::new((4 - d.len()) as nat, |i: int| 0x30u8) + d } else { d }
}

/// The native name of the node at position `n` in name order: `n0000`, `n0001`, ...
pub open spec fn native_name(n: nat) -> Seq<char> {
    ascii_chars(seq![0x6eu8] + padded(n))
}

/// An unsplit data interface.
pub open spec fn plain(i: Interface) -> bool {
    i.interface_type == InterfaceType::Data && i.split_parent is None && i.split_children@.len() == 0
}

/// A node whose `simulator.medium` label, when it holds a string, says `infiniband`.
pub open spec fn medium_ok(n: Node) -> bool {
    match pair_get(n.spec.labels@, "simulator.medium"@) {
        Some(v) => match json_text_str(v@) {
            Some(m) => m == "infiniband"@,
            None => true,
        },
        None => true,
    }
}

/// The topology can run on the native subnet.
pub open spec fn ib_ready(sim: Simulation) -> bool {
    &&& forall|j: int| 0 <= j < sim.interfaces@.len() ==> plain(#[trigger] sim.interfaces@[j])
    &&& forall|k: int| 0 <= k < sim.nodes@.len() ==> medium_ok(#[trigger] sim.nodes@[k])
    &&& forall|k: int| 0 <= k < sim.nodes@.len() ==> port_count(sim.interfaces@, (#[trigger] sim.nodes@[k]).id@) <= 255
}

/// The native name of the node with identifier `id`.
pub open spec fn native_of(sim: Simulation, id: Seq<char>) -> Seq<char> {
    native_name(node_rank(sim.nodes@, keyed(sim.nodes@, id).spec.name@))
}

/// The native port of interface `i`.
pub open spec fn port_of(sim: Simulation, i: Interface) -> int {
    (port_rank(sim.interfaces@, i.node@, i.name@) + 1) as int
}

pub open spec fn endpoint_planned(sim: Simulation, e: IbPort, iface_id: Seq<char>) -> bool {
    let q = keyed(sim.interfaces@, iface_id);
    &&& e.node@ == native_of(sim, q.node@)
    &&& e.port == port_of(sim, q)
}

/// `plan` is the native plan of `sim`.
pub open spec fn plan_of(plan: IbPlan, sim: Simulation) -> bool {
    &&& plan.scope@ == "infiniband-management"@
    &&& !plan.rdma_payload_tested && !plan.nccl_tested && !plan.bandwidth_latency_enforced
    &&& plan.nodes@.len() == sim.nodes@.len()
    &&& plan.native_nodes@.len() == sim.nodes@.len()
    &&& forall|k: int| 0 <= k < sim.nodes@.len() ==> {
        let n = #[trigger] sim.nodes@[k];
        let native = native_name(node_rank(sim.nodes@, n.spec.name@));
        &&& plan.nodes@[k].0@ == n.spec.name@ && plan.nodes@[k].1@ == native
        &&& plan.native_nodes@[k].name@ == native
        &&& plan.native_nodes@[k].switch == (n.spec.role == Role::Switch)
        &&& plan.native_nodes@[k].ports == port_count(sim.interfaces@, n.id@)
    }
    &&& plan.ports@.len() == sim.interfaces@.len()
    &&& forall|j: int| 0 <= j < sim.interfaces@.len() ==> {
        let i = #[trigger] sim.interfaces@[j];
        &&& plan.ports@[j].0@ == keyed(sim.nodes@, i.node@).spec.name@ + ":"@ + i.name@
        &&& plan.ports@[j].1 == port_of(sim, i)
    }
    &&& plan.links@.len() == sim.links@.len()
    &&& forall|j: int| 0 <= j < sim.links@.len() ==> {
        let l = #[trigger] sim.links@[j];
        &&& plan.links@[j].id@ == l.id@ && plan.links@[j].up == l.spec.up
        &&& endpoint_planned(sim, plan.links@[j].endpoints[0], l.interfaces[0]@)
        &&& endpoint_planned(sim, plan.links@[j].endpoints[1], l.interfaces[1]@)
    }
}

pub(crate) fn rank_of_node(nodes: &Vec<Node>, name: &str) -> (r: usize)
    ensures
        r == node_rank(nodes@, name@),
        r <= nodes@.len(),
{
    let mut c: usize = 0;
    let mut k: usize = 0;
    while k < nodes.len()
        invariant
            k <= nodes@.len(),
            c == node_rank(nodes@.subrange(0, k as int), name@),
            c <= k,
        decreases nodes@.len() - k,
    {
        proof { assert(nodes@.subrange(0, k + 1).drop_last() =~= nodes@.subrange(0, k as int)); }
        if str_lt(nodes[k].spec.name.as_str(), name) {
            c += 1;
        }
        k += 1;
    }
    proof { assert(nodes@.subrange(0, k as int) =~= nodes@); }
    c
}

/// Port rank and count of the interfaces of `owner`.
pub(crate) fn ports_of(ifaces: &Vec<Interface>, owner: &str, name: &str) -> (r: (usize, usize))
    ensures
        r.0 == port_rank(ifaces@, owner@, name@),
        r.1 == port_count(ifaces@, owner@),
{
    let mut rank: usize = 0;
    let mut count: usize = 0;
    let mut k: usize = 0;
    while k < ifaces.len()
        invariant
            k <= ifaces@.len(),
            rank == port_rank(ifaces@.subrange(0, k as int), owner@, name@),
            count == port_count(ifaces@.subrange(0, k as int), owner@),
            rank <= k,
            count <= k,
        decreases ifaces@.len() - k,
    {
        proof { assert(ifaces@.subrange(0, k + 1).drop_last() =~= ifaces@.subrange(0, k as int)); }
        if str_eq_owner(&ifaces[k], owner) {
            count += 1;
            if str_lt(ifaces[k].name.as_str(), name) {
                rank += 1;
            }
        }
        k += 1;
    }
    proof { assert(ifaces@.subrange(0, k as int) =~= ifaces@); }
    (rank, count)
}

fn str_eq_owner(i: &Interface, owner: &str) -> (r: bool)
    ensures
        r == (i.node@ == owner@),
{
    crate::keyed::str_eq(i.node.as_str(), owner)
}

fn native_name_of(index: usize) -> (r: String)
    ensures
        r@ == native_name(index as nat),
{
    let mut d: Vec<u8> = Vec::new();
    assert(index <= u64::MAX);
    push_decimal(&mut d, index as u64);
    proof {
        lemma_decimal_ascii(index as nat);
        assert(d@ =~= decimal(index as nat));
    }
    let mut v: Vec<u8> = Vec::new();
    v.push(0x6e);
    let mut pad: usize = d.len();
    while pad < 4
        invariant
            d@ == decimal(index as nat),
            d@.len() <= pad <= 4 || (pad == d@.len() && pad > 4),
            v@ == seq![0x6eu8] + Seq::new((pad - d@.len()) as nat, |i: int| 0x30u8),
        decreases 4 - pad,
    {
        v.push(0x30);
        proof {
            assert(v@ =~= seq![0x6eu8] + Seq::new((pad + 1 - d@.len()) as nat, |i: int| 0x30u8));
        }
        pad += 1;
    }
    let ghost prefix = v@;
    let mut k: usize = 0;
    while k < d.len()
        invariant
            k <= d@.len(),
            v@ == prefix + d@.subrange(0, k as int),
        decreases d@.len() - k,
    {
        v.push(d[k]);
        proof { assert(v@ =~= prefix + d@.subrange(0, k + 1)); }
        k += 1;
    }
    proof {
        assert(d@.subrange(0, k as int) =~= d@);
        let w = seq![0x6eu8] + padded(index as nat);
        if d@.len() < 4 {
            assert(pad == 4);
        } else {
            assert(pad == d@.len());
            assert(Seq::new((pad - d@.len()) as nat, |i: int| 0x30u8) =~= Seq::<u8>::empty());
        }
        assert(v@ =~= w);
        assert forall|i: int| 0 <= i < w.len() implies w[i] < 128 by {
            if i > 0 && i >= w.len() - d@.len() {
                assert(w[i] == d@[i - (w.len() - d@.len())]);
            }
        }
    }
    ascii_string(v)
}

fn medium_checked(n: &Node) -> (r: bool)
    ensures
        r == medium_ok(*n),
{
    match pairs_get(&n.spec.labels, "simulator.medium") {
        Some(v) => match json_as_str(v) {
            Some(m) => crate::keyed::str_eq(m.as_str(), "infiniband"),
            None => true,
        },
        None => true,
    }
}

/// Plans the native subnet for `sim`: every interface must be an unsplit data
/// port, no node may declare another medium, and no node may have more than 255
/// ports. Nodes are numbered in name order and ports in interface-name order.
pub fn topology(sim: &Simulation) -> (r: Result<IbPlan>)
    requires
        sim.wf(),
    ensures
        r is Ok <==> ib_ready(*sim),
        r is Err ==> r->Err_0 is Invalid,
        r matches Ok(plan) ==> plan_of(plan, *sim),
{
    let mut j: usize = 0;
    while j < sim.interfaces.len()
        invariant
            j <= sim.interfaces@.len(),
            forall|x: int| 0 <= x < j ==> plain(#[trigger] sim.interfaces@[x]),
        decreases sim.interfaces@.len() - j,
    {
        let i = &sim.interfaces[j];
        if i.interface_type != InterfaceType::Data || i.split_parent.is_some() || i.split_children.len() > 0 {
            proof { assert(!plain(sim.interfaces@[j as int])); }
            return Err(invalid("ibsim requires unsplit data interfaces; export the selected InfiniBand plane"));
        }
        j += 1;
    }
    let ghost s = *sim;
    let mut names: Vec<(String, String)> = Vec::new();
    let mut natives: Vec<IbNode> = Vec::new();
    let mut k: usize = 0;
    while k < sim.nodes.len()
        invariant
            s == *sim,
            sim.wf(),
            k <= sim.nodes@.len(),
            forall|x: int| 0 <= x < sim.interfaces@.len() ==> plain(#[trigger] sim.interfaces@[x]),
            forall|x: int| 0 <= x < k ==> medium_ok(#[trigger] sim.nodes@[x]),
            forall|x: int| 0 <= x < k ==> port_count(sim.interfaces@, (#[trigger] sim.nodes@[x]).id@) <= 255,
            names@.len() == k,
            natives@.len() == k,
            forall|x: int| 0 <= x < k ==> {
                let n = #[trigger] sim.nodes@[x];
                let native = native_name(node_rank(sim.nodes@, n.spec.name@));
                &&& names@[x].0@ == n.spec.name@ && names@[x].1@ == native
                &&& natives@[x].name@ == native
                &&& natives@[x].switch == (n.spec.role == Role::Switch)
                &&& natives@[x].ports == port_count(sim.interfaces@, n.id@)
            },
        decreases sim.nodes@.len() - k,
    {
        let n = &sim.nodes[k];
        if !medium_checked(n) {
            return Err(invalid("cannot import another network medium into ibsim"));
        }
        let (_, count) = ports_of(&sim.interfaces, n.id.as_str(), "");
        if count > 255 {
            return Err(invalid("ibsim supports at most 255 ports per node"));
        }
        let rank = rank_of_node(&sim.nodes, n.spec.name.as_str());
        let native = native_name_of(rank);
        names.push((n.spec.name.clone(), native.clone()));
        natives.push(IbNode { name: native, switch: n.spec.role == Role::Switch, ports: count as u8 });
        k += 1;
    }
    let mut ports: Vec<(String, u8)> = Vec::new();
    let mut j: usize = 0;
    while j < sim.interfaces.len()
        invariant
            sim.wf(),
            j <= sim.interfaces@.len(),
            forall|x: int| 0 <= x < sim.nodes@.len() ==> port_count(sim.interfaces@, (#[trigger] sim.nodes@[x]).id@) <= 255,
            ports@.len() == j,
            forall|x: int| 0 <= x < j ==> {
                let i = #[trigger] sim.interfaces@[x];
                &&& ports@[x].0@ == keyed(sim.nodes@, i.node@).spec.name@ + ":"@ + i.name@
                &&& ports@[x].1 == port_of(*sim, i)
            },
        decreases sim.interfaces@.len() - j,
    {
        let i = &sim.interfaces[j];
        let at = match find(&sim.nodes, i.node.as_str()) {
            Some(at) => at,
            None => {
                proof { assert(has_key(sim.nodes@, sim.interfaces@[j as int].node@)); }
                return Err(Error::State("interface without node".to_owned()));
            },
        };
        proof {
            lemma_index_of_key(sim.nodes@, at as int);
            lemma_port_rank_below(sim.interfaces@, i.node@, i.name@, j as int);
        }
        let (rank, _) = ports_of(&sim.interfaces, i.node.as_str(), i.name.as_str());
        let mut key = sim.nodes[at].spec.name.clone();
        append(&mut key, ":");
        append(&mut key, i.name.as_str());
        ports.push((key, (rank + 1) as u8));
        j += 1;
    }
    let mut links: Vec<crate::infiniband::IbLink> = Vec::new();
    let mut j: usize = 0;
    while j < sim.links.len()
        invariant
            sim.wf(),
            j <= sim.links@.len(),
            forall|x: int| 0 <= x < sim.nodes@.len() ==> port_count(sim.interfaces@, (#[trigger] sim.nodes@[x]).id@) <= 255,
            links@.len() == j,
            forall|x: int| 0 <= x < j ==> {
                let l = #[trigger] sim.links@[x];
                &&& links@[x].id@ == l.id@ && links@[x].up == l.spec.up
                &&& endpoint_planned(*sim, links@[x].endpoints[0], l.interfaces[0]@)
                &&& endpoint_planned(*sim, links@[x].endpoints[1], l.interfaces[1]@)
            },
        decreases sim.links@.len() - j,
    {
        let l = &sim.links[j];
        proof {
            assert(has_key(sim.interfaces@, sim.links@[j as int].interfaces[0]@));
        }
        let a = endpoint(sim, l.interfaces[0].as_str())?;
        let b = endpoint(sim, l.interfaces[1].as_str())?;
        links.push(IbLink { id: l.id.clone(), endpoints: [a, b], up: l.spec.up });
        j += 1;
    }
    Ok(IbPlan {
        scope: "infiniband-management".to_owned(),
        rdma_payload_tested: false,
        nccl_tested: false,
        bandwidth_latency_enforced: false,
        nodes: names,
        ports,
        native_nodes: natives,
        links,
    })
}

/// The native end of interface `id`.
fn endpoint(sim: &Simulation, id: &str) -> (r: Result<IbPort>)
    requires
        sim.wf(),
        has_key(sim.interfaces@, id@),
        forall|x: int| 0 <= x < sim.nodes@.len() ==> port_count(sim.interfaces@, (#[trigger] sim.nodes@[x]).id@) <= 255,
    ensures
        r matches Ok(e) && endpoint_planned(*sim, e, id@),
{
    let q = match find(&sim.interfaces, id) {
        Some(q) => q,
        None => return Err(Error::State("link without interface".to_owned())),
    };
    proof { lemma_index_of_key(sim.interfaces@, q as int); }
    let i = &sim.interfaces[q];
    proof { assert(has_key(sim.nodes@, sim.interfaces@[q as int].node@)); }
    let at = match find(&sim.nodes, i.node.as_str()) {
        Some(at) => at,
        None => return Err(Error::State("interface without node".to_owned())),
    };
    proof {
        lemma_index_of_key(sim.nodes@, at as int);
        lemma_port_rank_below(sim.interfaces@, i.node@, i.name@, q as int);
        assert(port_count(sim.interfaces@, sim.nodes@[at as int].id@) <= 255);
    }
    let rank = rank_of_node(&sim.nodes, sim.nodes[at].spec.name.as_str());
    let (port, _) = ports_of(&sim.interfaces, i.node.as_str(), i.name.as_str());
    Ok(IbPort { node: native_name_of(rank), port: (port + 1) as u8 })
}

/// An interface ranks below the number of its node's interfaces.
pub(crate) proof fn lemma_port_rank_below(s: Seq<Interface>, owner: Seq<char>, name: Seq<char>, j: int)
    requires
        0 <= j < s.len(),
        s[j].node@ == owner,
        s[j].name@ == name,
    ensures
        port_rank(s, owner, name) < port_count(s, owner),
    decreases s.len(),
{
    lemma_rank_le_count(s.drop_last(), owner, name);
    if j < s.len() - 1 {
        lemma_port_rank_below(s.drop_last(), owner, name, j);
    } else {
        crate::text::lemma_bytes_lt_irreflexive(utf8(name));
    }
}

proof fn lemma_rank_le_count(s: Seq<Interface>, owner: Seq<char>, name: Seq<char>)
    ensures
        port_rank(s, owner, name) <= port_count(s, owner),
    decreases s.len(),
{
    if s.len() > 0 {
        lemma_rank_le_count(s.drop_last(), owner, name);
    }
}

/// A node ranks below the number of nodes.
pub(crate) proof fn lemma_node_rank_below(s: Seq<Node>, j: int)
    requires
        0 <= j < s.len(),
    ensures
        node_rank(s, s[j].spec.name@) < s.len(),
    decreases s.len(),
{
    lemma_node_rank_le(s.drop_last(), s[j].spec.name@);
    if j < s.len() - 1 {
        lemma_node_rank_below(s.drop_last(), j);
    } else {
        crate::text::lemma_bytes_lt_irreflexive(utf8(s[j].spec.name@));
    }
}

proof fn lemma_node_rank_le(s: Seq<Node>, name: Seq<char>)
    ensures
        node_rank(s, name) <= s.len(),
    decreases s.len(),
{
    if s.len() > 0 {
        lemma_node_rank_le(s.drop_last(), name);
    }
}

proof fn lemma_node_rank_mono(s: Seq<Node>, a: Seq<char>, b: Seq<char>)
    requires
        name_less(a, b),
    ensures
        node_rank(s, a) <= node_rank(s, b),
    decreases s.len(),
{
    if s.len() > 0 {
        lemma_node_rank_mono(s.drop_last(), a, b);
        if name_less(s.last().spec.name@, a) {
            crate::text::lemma_bytes_lt_transitive(utf8(s.last().spec.name@), utf8(a), utf8(b));
        }
    }
}

proof fn lemma_node_rank_strict(s: Seq<Node>, a: Seq<char>, b: Seq<char>, j: int)
    requires
        name_less(a, b),
        0 <= j < s.len(),
        s[j].spec.name@ == a,
    ensures
        node_rank(s, a) < node_rank(s, b),
    decreases s.len(),
{
    if j < s.len() - 1 {
        lemma_node_rank_strict(s.drop_last(), a, b, j);
        if name_less(s.last().spec.name@, a) {
            crate::text::lemma_bytes_lt_transitive(utf8(s.last().spec.name@), utf8(a), utf8(b));
        }
    } else {
        lemma_node_rank_mono(s.drop_last(), a, b);
        crate::text::lemma_bytes_lt_irreflexive(utf8(a));
    }
}

proof fn lemma_port_rank_mono(s: Seq<Interface>, owner: Seq<char>, a: Seq<char>, b: Seq<char>)
    requires
        name_less(a, b),
    ensures
        port_rank(s, owner, a) <= port_rank(s, owner, b),
    decreases s.len(),
{
    if s.len() > 0 {
        lemma_port_rank_mono(s.drop_last(), owner, a, b);
        if name_less(s.last().name@, a) {
            crate::text::lemma_bytes_lt_transitive(utf8(s.last().name@), utf8(a), utf8(b));
        }
    }
}

proof fn lemma_port_rank_strict(s: Seq<Interface>, owner: Seq<char>, a: Seq<char>, b: Seq<char>, j: int)
    requires
        name_less(a, b),
        0 <= j < s.len(),
        s[j].node@ == owner,
        s[j].name@ == a,
    ensures
        port_rank(s, owner, a) < port_rank(s, owner, b),
    decreases s.len(),
{
    if j < s.len() - 1 {
        lemma_port_rank_strict(s.drop_last(), owner, a, b, j);
        if s.last().node@ == owner && name_less(s.last().name@, a) {
            crate::text::lemma_bytes_lt_transitive(utf8(s.last().name@), utf8(a), utf8(b));
        }
    } else {
        lemma_port_rank_mono(s.drop_last(), owner, a, b);
        crate::text::lemma_bytes_lt_irreflexive(utf8(a));
    }
}

/// Distinct nodes of a topology take distinct places in name order, so no two
/// of them get the same native node number.
pub proof fn lemma_node_positions_distinct(sim: Simulation, x: int, y: int)
    requires
        sim.wf(),
        0 <= x < sim.nodes@.len(),
        0 <= y < sim.nodes@.len(),
        x != y,
    ensures
        node_rank(sim.nodes@, sim.nodes@[x].spec.name@) != node_rank(sim.nodes@, sim.nodes@[y].spec.name@),
{
    let a = sim.nodes@[x].spec.name@;
    let b = sim.nodes@[y].spec.name@;
    crate::text::lemma_utf8_injective(a, b);
    crate::text::lemma_bytes_lt_total(utf8(a), utf8(b));
    if name_less(a, b) {
        lemma_node_rank_strict(sim.nodes@, a, b, x);
    } else {
        lemma_node_rank_strict(sim.nodes@, b, a, y);
    }
}

/// Distinct interfaces of one node take distinct places in name order, so no two
/// of them get the same port number.
pub proof fn lemma_port_positions_distinct(sim: Simulation, x: int, y: int)
    requires
        sim.wf(),
        0 <= x < sim.interfaces@.len(),
        0 <= y < sim.interfaces@.len(),
        x != y,
        sim.interfaces@[x].node@ == sim.interfaces@[y].node@,
    ensures
        port_rank(sim.interfaces@, sim.interfaces@[x].node@, sim.interfaces@[x].name@)
            != port_rank(sim.interfaces@, sim.interfaces@[y].node@, sim.interfaces@[y].name@),
{
    let owner = sim.interfaces@[x].node@;
    let a = sim.interfaces@[x].name@;
    let b = sim.interfaces@[y].name@;
    crate::text::lemma_utf8_injective(a, b);
    crate::text::lemma_bytes_lt_total(utf8(a), utf8(b));
    if name_less(a, b) {
        lemma_port_rank_strict(sim.interfaces@, owner, a, b, x);
    } else {
        lemma_port_rank_strict(sim.interfaces@, owner, b, a, y);
    }
}

} // verus!
