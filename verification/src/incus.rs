//! Plans for running a topology as Incus system containers joined by
//! point-to-point host cables. Talking to the Incus API and shaping the cables
//! are the caller's business; the plan fixes names, resources and wiring.
use vstd::prelude::*;
use crate::keyed::{find, keyed, has_key, lemma_index_of_key, str_eq};
use crate::model::{Error, Result, Simulation, Node, Interface, Link, Role, invalid, queue_packets};
use crate::manifest::Manifest;
use crate::api::Simulator;
use crate::infiniband::{node_rank, port_rank, port_count, plain, name_less};
use crate::model::{pair_get, pairs_get};
use crate::outside::{json_text_str, json_as_str};
use crate::text::{ascii_chars, all_ascii, ascii_string, append};
use crate::outside::new_id;

verus! {

/// Local resources for the containers. Images must already be in Incus.
#[derive(Clone, Debug)]
pub struct Config {
    pub project: String,
    pub socket: String,
    pub storage_pool: String,
    pub image_fingerprint: String,
    pub manifest: String,
    pub max_memory_mib: u64,
}

/// One container, with its resources and the owner token of this run.
#[derive(Clone, Debug)]
pub struct NodePlan {
    pub name: String,
    pub switch: bool,
    pub os: String,
    pub fingerprint: String,
    pub pool: String,
    pub cpu: u32,
    pub memory_mib: u64,
    pub storage_gib: u64,
    pub owner: String,
}

/// One point-to-point NIC: the guest interface and its host-side peer.
#[derive(Clone, Debug)]
pub struct NicPlan {
    pub node: String,
    pub name: String,
    pub host_name: String,
    pub hwaddr: String,
}

#[derive(Clone, Debug)]
pub struct CablePlan {
    pub name: String,
    pub peers: [String; 2],
    pub latency_ns: u64,
    pub bandwidth_bps: u64,
    pub queue_packets: u32,
    pub up: bool,
}

/// Containers in node order, NICs in interface order, cables in link order.
#[derive(Clone, Debug)]
pub struct Plan {
    pub owner: String,
    pub nodes: Vec<NodePlan>,
    pub nics: Vec<NicPlan>,
    pub cables: Vec<CablePlan>,
}

/// An Incus name: 1 to 40 characters, a lower-case letter first, then lower-case
/// letters, digits and hyphens.
pub open spec fn name_ok(s: Seq<char>) -> bool {
    &&& 1 <= s.len() <= 40
    &&& 'a' <= s[0] <= 'z'
    &&& forall|i: int| 0 <= i < s.len() ==> crate::mokka::dns_char(#[trigger] s[i])
}

fn name_checked(s: &str) -> (r: bool)
    ensures
        r == name_ok(s@),
{
    let n = s.unicode_len();
    if n == 0 || n > 40 {
        return false;
    }
    let first = s.get_char(0);
    if !('a' <= first && first <= 'z') {
        return false;
    }
    let mut i: usize = 0;
    while i < n
        invariant
            n == s@.len(),
            i <= n,
            forall|k: int| 0 <= k < i ==> crate::mokka::dns_char(#[trigger] s@[k]),
        decreases n - i,
    {
        let c = s.get_char(i);
        if !(('a' <= c && c <= 'z') || ('0' <= c && c <= '9') || c == '-') {
            proof { assert(!crate::mokka::dns_char(s@[i as int])); }
            return false;
        }
        i += 1;
    }
    true
}

pub open spec fn hex_char(c: char) -> bool {
    ('0' <= c <= '9') || ('a' <= c <= 'f') || ('A' <= c <= 'F')
}

/// The configuration names an `ncp-` project, a pool, an absolute socket and an
/// exact image fingerprint.
pub open spec fn config_ok(c: Config) -> bool {
    &&& name_ok(c.project@) && c.project@.len() >= 4 && c.project@.subrange(0, 4) == "ncp-"@
    &&& name_ok(c.storage_pool@)
    &&& c.socket@.len() > 0 && c.socket@[0] == '/'
    &&& c.image_fingerprint@.len() == 64
    &&& forall|i: int| 0 <= i < 64 ==> hex_char(#[trigger] c.image_fingerprint@[i])
}

fn fingerprint_checked(s: &str) -> (r: bool)
    ensures
        r == (s@.len() == 64 && forall|i: int| 0 <= i < 64 ==> hex_char(#[trigger] s@[i])),
{
    if s.unicode_len() != 64 {
        return false;
    }
    let mut i: usize = 0;
    while i < 64
        invariant
            s@.len() == 64,
            i <= 64,
            forall|k: int| 0 <= k < i ==> hex_char(#[trigger] s@[k]),
        decreases 64 - i,
    {
        let c = s.get_char(i);
        if !(('0' <= c && c <= '9') || ('a' <= c && c <= 'f') || ('A' <= c && c <= 'F')) {
            proof { assert(!hex_char(s@[i as int])); }
            return false;
        }
        i += 1;
    }
    true
}

pub open spec fn not_hyphen() -> spec_fn(char) -> bool {
    |c: char| c != '-'
}

/// A UUID's text has at least eight characters that are not hyphens: its first eight.
proof fn lemma_uuid_prefix(s: Seq<char>)
    requires
        crate::outside::uuid_text(s),
    ensures
        s.filter(not_hyphen()).len() >= 8,
{
    lemma_uuid_head(s, 8);
    crate::keyed::lemma_filter_prefix(s, not_hyphen(), 8);
}

proof fn lemma_uuid_head(s: Seq<char>, k: int)
    requires
        crate::outside::uuid_text(s),
        0 <= k <= 8,
    ensures
        s.subrange(0, k).filter(not_hyphen()).len() == k,
    decreases k,
{
    let f = not_hyphen();
    if k == 0 {
        assert(s.subrange(0, 0).filter(f) =~= Seq::<char>::empty());
    } else {
        let j = k - 1;
        lemma_uuid_head(s, j);
        assert(crate::outside::lower_hex(s[j]));
        assert(s.subrange(0, k) =~= s.subrange(0, j).push(s[j]));
        crate::keyed::lemma_filter_push(s.subrange(0, j), f, s[j]);
    }
}

/// The first eight characters of the owner token that are not hyphens.
pub open spec fn owner_prefix(owner: Seq<char>) -> Seq<char> {
    owner.filter(not_hyphen()).subrange(0, 8)
}

fn prefix_of(owner: &str) -> (r: Option<String>)
    ensures
        match r {
            Some(p) => owner@.filter(not_hyphen()).len() >= 8 && p@ == owner_prefix(owner@),
            None => owner@.filter(not_hyphen()).len() < 8,
        },
{
    let n = owner.unicode_len();
    let ghost f = not_hyphen();
    let mut out = String::new();
    let mut i: usize = 0;
    proof { assert(owner@.subrange(0, 0).filter(f) =~= Seq::<char>::empty()); }
    while i < n && out.unicode_len() < 8
        invariant
            n == owner@.len(),
            f == not_hyphen(),
            i <= n,
            out@ == owner@.subrange(0, i as int).filter(f),
            out@.len() <= 8,
        decreases n - i,
    {
        let c = owner.get_char(i);
        proof {
            assert(owner@.subrange(0, i + 1) =~= owner@.subrange(0, i as int).push(c));
            crate::keyed::lemma_filter_push(owner@.subrange(0, i as int), f, c);
        }
        if c != '-' {
            let one = owner.substring_char(i, i + 1);
            proof { assert(one@ =~= seq![c]); }
            append(&mut out, one);
        }
        i += 1;
    }
    proof { crate::keyed::lemma_filter_prefix(owner@, f, i as int); }
    if out.unicode_len() < 8 {
        proof { assert(owner@.subrange(0, i as int) =~= owner@); }
        return None;
    }
    proof {
        assert forall|x: int| 0 <= x < 8 implies owner@.filter(f)[x] == out@[x] by {}
        assert(out@ =~= owner@.filter(f).subrange(0, 8));
    }
    Some(out)
}

/// Two decimal digits of `n` below 100.
pub open spec fn two_digits(n: nat) -> Seq<char> {
    ascii_chars(seq![(0x30 + n / 10) as u8, (0x30 + n % 10) as u8])
}

/// Three decimal digits of `n` below 1000.
pub open spec fn three_digits(n: nat) -> Seq<char> {
    ascii_chars(seq![(0x30 + n / 100) as u8, (0x30 + (n / 10) % 10) as u8, (0x30 + n % 10) as u8])
}

fn digits(n: usize, width: usize) -> (r: String)
    requires
        width == 2 ==> n < 100,
        width == 3 ==> n < 1000,
        width == 2 || width == 3,
    ensures
        width == 2 ==> r@ == two_digits(n as nat),
        width == 3 ==> r@ == three_digits(n as nat),
{
    let mut v: Vec<u8> = Vec::new();
    if width == 3 {
        v.push((0x30 + n / 100) as u8);
    }
    v.push((0x30 + (n / 10) % 10) as u8);
    v.push((0x30 + n % 10) as u8);
    proof {
        if width == 2 {
            assert(v@ =~= seq![(0x30 + n / 10) as u8, (0x30 + n % 10) as u8]);
        } else {
            assert(v@ =~= seq![(0x30 + n / 100) as u8, (0x30 + (n / 10) % 10) as u8, (0x30 + n % 10) as u8]);
        }
    }
    ascii_string(v)
}

/// The host-side peer of port `port` of the container at `index`.
pub open spec fn peer_name(prefix: Seq<char>, index: nat, port: nat) -> Seq<char> {
    "pi"@ + prefix + two_digits(index) + two_digits(port)
}

/// The host cable at `index`.
pub open spec fn cable_name(prefix: Seq<char>, index: nat) -> Seq<char> {
    "pc"@ + prefix + three_digits(index)
}

/// The images containers can boot.
pub open spec fn supported_os(o: Seq<char>) -> bool {
    o == "cachyos"@ || o == "ubuntu-24.04"@
}

/// The node declares the InfiniBand medium, which host cables cannot carry.
pub open spec fn on_infiniband(n: Node) -> bool {
    match pair_get(n.spec.labels@, "simulator.medium"@) {
        Some(v) => json_text_str(v@) == Some("infiniband"@),
        None => false,
    }
}

pub open spec fn container_ok(n: Node, sim: Simulation) -> bool {
    &&& name_ok(n.spec.name@)
    &&& supported_os(n.spec.image@)
    &&& !on_infiniband(n)
    &&& n.user_data is None
    &&& port_count(sim.interfaces@, n.id@) <= 99
}

pub open spec fn nic_ok(i: Interface) -> bool {
    plain(i) && name_ok(i.name@) && i.name@.len() <= 15
}

/// Declared memory of all nodes, in MiB.
pub open spec fn memory_total(nodes: Seq<Node>) -> int
    decreases nodes.len(),
{
    if nodes.len() == 0 { 0 } else { memory_total(nodes.drop_last()) + nodes.last().spec.resources.memory }
}

/// The topology fits the container profile: 1 to 64 nodes within the memory
/// budget, one supported image for all, explicit unsplit data ports with
/// interface names, at most 999 cables whose queues fit.
pub open spec fn incus_ready(c: Config, sim: Simulation) -> bool {
    &&& 1 <= sim.nodes@.len() <= 64
    &&& memory_total(sim.nodes@) <= c.max_memory_mib
    &&& forall|k: int| 0 <= k < sim.nodes@.len() ==> container_ok(#[trigger] sim.nodes@[k], sim)
    &&& forall|k: int| 0 <= k < sim.nodes@.len() ==> (#[trigger] sim.nodes@[k]).spec.image@ == sim.nodes@[0].spec.image@
    &&& forall|j: int| 0 <= j < sim.interfaces@.len() ==> nic_ok(#[trigger] sim.interfaces@[j])
    &&& sim.links@.len() <= 999
    &&& forall|j: int| 0 <= j < sim.links@.len()
        ==> queue_packets((#[trigger] sim.links@[j]).spec.bandwidth_bps, sim.links@[j].spec.latency_ns) <= u32::MAX
}

/// Interface pairs in lexicographic order.
pub open spec fn pair_less(a: [String; 2], b: [String; 2]) -> bool {
    name_less(a[0]@, b[0]@) || (a[0]@ == b[0]@ && name_less(a[1]@, b[1]@))
}

/// How many links have an interface pair ordered before `l`'s.
pub open spec fn link_rank(links: Seq<Link>, l: Link) -> nat
    decreases links.len(),
{
    if links.len() == 0 {
        0
    } else {
        link_rank(links.drop_last(), l) + if pair_less(links.last().interfaces, l.interfaces) { 1nat } else { 0nat }
    }
}

/// The host-side peer of interface `i`: numbered by its node's place in name
/// order and its own place among the node's interfaces.
pub open spec fn peer_of(sim: Simulation, prefix: Seq<char>, i: Interface) -> Seq<char> {
    peer_name(prefix, node_rank(sim.nodes@, keyed(sim.nodes@, i.node@).spec.name@), port_rank(sim.interfaces@, i.node@, i.name@))
}

pub open spec fn node_planned(p: NodePlan, n: Node, c: Config, owner: Seq<char>) -> bool {
    &&& p.name@ == n.spec.name@ && p.switch == (n.spec.role == Role::Switch) && p.os@ == n.spec.image@
    &&& p.fingerprint@ == c.image_fingerprint@ && p.pool@ == c.storage_pool@
    &&& p.cpu == n.spec.resources.cpu && p.memory_mib == n.spec.resources.memory
    &&& p.storage_gib == n.spec.resources.storage && p.owner@ == owner
}

pub open spec fn nic_planned(x: NicPlan, i: Interface, sim: Simulation, prefix: Seq<char>) -> bool {
    &&& x.node@ == keyed(sim.nodes@, i.node@).spec.name@
    &&& x.name@ == i.name@ && x.hwaddr@ == i.mac_address@
    &&& x.host_name@ == peer_of(sim, prefix, i)
}

pub open spec fn cable_planned(x: CablePlan, l: Link, sim: Simulation, prefix: Seq<char>) -> bool {
    &&& x.name@ == cable_name(prefix, link_rank(sim.links@, l))
    &&& x.peers[0]@ == peer_of(sim, prefix, keyed(sim.interfaces@, l.interfaces[0]@))
    &&& x.peers[1]@ == peer_of(sim, prefix, keyed(sim.interfaces@, l.interfaces[1]@))
    &&& x.latency_ns == l.spec.latency_ns && x.bandwidth_bps == l.spec.bandwidth_bps && x.up == l.spec.up
    &&& x.queue_packets == queue_packets(l.spec.bandwidth_bps, l.spec.latency_ns)
}

/// `p` is the plan for `sim` under `c` with owner token `owner`.
pub open spec fn plan_of(p: Plan, c: Config, sim: Simulation, owner: Seq<char>) -> bool {
    let prefix = owner_prefix(owner);
    &&& p.owner@ == owner
    &&& p.nodes@.len() == sim.nodes@.len()
    &&& forall|k: int| 0 <= k < sim.nodes@.len() ==> node_planned(#[trigger] p.nodes@[k], sim.nodes@[k], c, owner)
    &&& p.nics@.len() == sim.interfaces@.len()
    &&& forall|j: int| 0 <= j < sim.interfaces@.len() ==> nic_planned(#[trigger] p.nics@[j], sim.interfaces@[j], sim, prefix)
    &&& p.cables@.len() == sim.links@.len()
    &&& forall|j: int| 0 <= j < sim.links@.len() ==> cable_planned(#[trigger] p.cables@[j], sim.links@[j], sim, prefix)
}

pub(crate) fn on_infiniband_checked(n: &Node) -> (r: bool)
    ensures
        r == on_infiniband(*n),
{
    match pairs_get(&n.spec.labels, "simulator.medium") {
        Some(v) => match json_as_str(v) {
            Some(m) => str_eq(m.as_str(), "infiniband"),
            None => false,
        },
        None => false,
    }
}

fn supported_checked(o: &str) -> (r: bool)
    ensures
        r == supported_os(o@),
{
    str_eq(o, "cachyos") || str_eq(o, "ubuntu-24.04")
}

fn link_rank_of(links: &Vec<Link>, l: &Link) -> (r: usize)
    ensures
        r == link_rank(links@, *l),
{
    let mut c: usize = 0;
    let mut k: usize = 0;
    while k < links.len()
        invariant
            k <= links@.len(),
            c == link_rank(links@.subrange(0, k as int), *l),
            c <= k,
        decreases links@.len() - k,
    {
        proof { assert(links@.subrange(0, k + 1).drop_last() =~= links@.subrange(0, k as int)); }
        let a = &links[k].interfaces;
        let less = crate::text::str_lt(a[0].as_str(), l.interfaces[0].as_str())
            || (str_eq(a[0].as_str(), l.interfaces[0].as_str()) && crate::text::str_lt(a[1].as_str(), l.interfaces[1].as_str()));
        if less {
            c += 1;
        }
        k += 1;
    }
    proof { assert(links@.subrange(0, k as int) =~= links@); }
    c
}

/// A link ranks below the number of links.
proof fn lemma_link_rank_below(s: Seq<Link>, j: int)
    requires
        0 <= j < s.len(),
    ensures
        link_rank(s, s[j]) < s.len(),
    decreases s.len(),
{
    lemma_link_rank_le(s.drop_last(), s[j]);
    if j < s.len() - 1 {
        lemma_link_rank_below(s.drop_last(), j);
    } else {
        crate::text::lemma_bytes_lt_irreflexive(crate::text::utf8(s[j].interfaces[0]@));
        crate::text::lemma_bytes_lt_irreflexive(crate::text::utf8(s[j].interfaces[1]@));
    }
}

proof fn lemma_link_rank_le(s: Seq<Link>, l: Link)
    ensures
        link_rank(s, l) <= s.len(),
    decreases s.len(),
{
    if s.len() > 0 {
        lemma_link_rank_le(s.drop_last(), l);
    }
}

/// The peer name of interface `id`.
fn peer(sim: &Simulation, prefix: &str, id: &str) -> (r: String)
    requires
        sim.wf(),
        has_key(sim.interfaces@, id@),
        sim.nodes@.len() <= 64,
        forall|k: int| 0 <= k < sim.nodes@.len() ==> port_count(sim.interfaces@, (#[trigger] sim.nodes@[k]).id@) <= 99,
    ensures
        r@ == peer_name(prefix@, node_rank(sim.nodes@, keyed(sim.nodes@, keyed(sim.interfaces@, id@).node@).spec.name@),
            port_rank(sim.interfaces@, keyed(sim.interfaces@, id@).node@, keyed(sim.interfaces@, id@).name@)),
{
    let q = find(&sim.interfaces, id).unwrap();
    proof {
        lemma_index_of_key(sim.interfaces@, q as int);
        assert(has_key(sim.nodes@, sim.interfaces@[q as int].node@));
    }
    let i = &sim.interfaces[q];
    let at = find(&sim.nodes, i.node.as_str()).unwrap();
    proof {
        lemma_index_of_key(sim.nodes@, at as int);
        crate::infiniband::lemma_port_rank_below(sim.interfaces@, i.node@, i.name@, q as int);
        crate::infiniband::lemma_node_rank_below(sim.nodes@, at as int);
        assert(port_count(sim.interfaces@, sim.nodes@[at as int].id@) <= 99);
    }
    let index = crate::infiniband::rank_of_node(&sim.nodes, sim.nodes[at].spec.name.as_str());
    let (port, _) = crate::infiniband::ports_of(&sim.interfaces, i.node.as_str(), i.name.as_str());
    let mut name = "pi".to_owned();
    append(&mut name, prefix);
    let a = digits(index, 2);
    let b = digits(port, 2);
    append(&mut name, a.as_str());
    append(&mut name, b.as_str());
    name
}

fn config_checked(c: &Config) -> (r: bool)
    ensures
        r == config_ok(*c),
{
    proof { reveal_strlit("ncp-"); }
    let p = c.project.as_str();
    if !name_checked(p) || p.unicode_len() < 4 || !str_eq(p.substring_char(0, 4), "ncp-") {
        return false;
    }
    if !name_checked(c.storage_pool.as_str()) {
        return false;
    }
    let socket = c.socket.as_str();
    if socket.unicode_len() == 0 || socket.get_char(0) != '/' {
        return false;
    }
    fingerprint_checked(c.image_fingerprint.as_str())
}

impl Config {
    /// Plans containers, NICs and cables for `sim` under the owner token `owner`:
    /// `Ok` exactly when the configuration and the topology fit the container
    /// profile and the token has eight characters besides hyphens.
    pub fn plan_simulation(&self, sim: &Simulation, owner: &str) -> (r: Result<Plan>)
        requires
            sim.wf(),
        ensures
            r is Ok <==> config_ok(*self) && owner@.filter(not_hyphen()).len() >= 8 && incus_ready(*self, *sim),
            r is Err ==> r->Err_0 is Invalid,
            r matches Ok(p) ==> plan_of(p, *self, *sim, owner@),
    {
        if !config_checked(self) {
            return Err(invalid("use an ncp- project, a valid pool, an absolute socket and an exact image fingerprint"));
        }
        let prefix = match prefix_of(owner) {
            Some(p) => p,
            None => return Err(invalid("owner token too short")),
        };
        let n = sim.nodes.len();
        if n == 0 || n > 64 {
            return Err(invalid("Incus profile supports 1..64 real system containers; use KWOK for worker scale"));
        }
        let mut total: u64 = 0;
        let mut k: usize = 0;
        while k < n
            invariant
                n == sim.nodes@.len(),
                k <= n,
                total == memory_total(sim.nodes@.subrange(0, k as int)),
            decreases n - k,
        {
            proof { assert(sim.nodes@.subrange(0, k + 1).drop_last() =~= sim.nodes@.subrange(0, k as int)); }
            total = match total.checked_add(sim.nodes[k].spec.resources.memory) {
                Some(t) => t,
                None => {
                    proof { lemma_memory_grows(sim.nodes@, k as int + 1); }
                    return Err(invalid("declared memory exceeds local budget"));
                },
            };
            k += 1;
        }
        proof { assert(sim.nodes@.subrange(0, k as int) =~= sim.nodes@); }
        if total > self.max_memory_mib {
            return Err(invalid("declared memory exceeds local budget"));
        }
        let mut nodes: Vec<NodePlan> = Vec::new();
        let mut k: usize = 0;
        while k < n
            invariant
                sim.wf(),
                n == sim.nodes@.len(),
                1 <= n <= 64,
                k <= n,
                config_ok(*self),
                nodes@.len() == k,
                forall|x: int| 0 <= x < k ==> container_ok(#[trigger] sim.nodes@[x], *sim),
                forall|x: int| 0 <= x < k ==> (#[trigger] sim.nodes@[x]).spec.image@ == sim.nodes@[0].spec.image@,
                forall|x: int| 0 <= x < k ==> node_planned(#[trigger] nodes@[x], sim.nodes@[x], *self, owner@),
            decreases n - k,
        {
            let node = &sim.nodes[k];
            if !name_checked(node.spec.name.as_str()) {
                return Err(invalid("invalid instance name"));
            }
            if !supported_checked(node.spec.image.as_str())
                || !str_eq(node.spec.image.as_str(), sim.nodes[0].spec.image.as_str()) {
                return Err(invalid("every container needs the same supported image: cachyos or ubuntu-24.04"));
            }
            if on_infiniband_checked(node) {
                return Err(invalid("InfiniBand requires the existing ibsim backend; Ethernet host cables cannot impersonate it"));
            }
            if node.user_data.is_some() {
                return Err(invalid("implicit user_data execution is unsupported; use reviewed Ansible code"));
            }
            let (_, ports) = crate::infiniband::ports_of(&sim.interfaces, node.id.as_str(), "");
            if ports > 99 {
                return Err(invalid("too many ports"));
            }
            nodes.push(NodePlan {
                name: node.spec.name.clone(),
                switch: node.spec.role == Role::Switch,
                os: node.spec.image.clone(),
                fingerprint: self.image_fingerprint.clone(),
                pool: self.storage_pool.clone(),
                cpu: node.spec.resources.cpu,
                memory_mib: node.spec.resources.memory,
                storage_gib: node.spec.resources.storage,
                owner: owner.to_owned(),
            });
            k += 1;
        }
        let mut nics: Vec<NicPlan> = Vec::new();
        let mut j: usize = 0;
        while j < sim.interfaces.len()
            invariant
                sim.wf(),
                n == sim.nodes@.len(),
                n <= 64,
                prefix@ == owner_prefix(owner@),
                forall|x: int| 0 <= x < n ==> port_count(sim.interfaces@, (#[trigger] sim.nodes@[x]).id@) <= 99,
                j <= sim.interfaces@.len(),
                nics@.len() == j,
                forall|x: int| 0 <= x < j ==> nic_ok(#[trigger] sim.interfaces@[x]),
                forall|x: int| 0 <= x < j ==> nic_planned(#[trigger] nics@[x], sim.interfaces@[x], *sim, prefix@),
            decreases sim.interfaces@.len() - j,
        {
            let i = &sim.interfaces[j];
            if i.interface_type != crate::model::InterfaceType::Data || i.split_parent.is_some() || i.split_children.len() > 0 {
                return Err(invalid("only explicit unsplit data ports are supported"));
            }
            if !name_checked(i.name.as_str()) || i.name.as_str().unicode_len() > 15 {
                return Err(invalid("invalid guest interface name"));
            }
            proof {
                lemma_index_of_key(sim.interfaces@, j as int);
                assert(has_key(sim.nodes@, sim.interfaces@[j as int].node@));
            }
            let at = find(&sim.nodes, i.node.as_str()).unwrap();
            proof { lemma_index_of_key(sim.nodes@, at as int); }
            let host_name = peer(sim, prefix.as_str(), i.id.as_str());
            nics.push(NicPlan {
                node: sim.nodes[at].spec.name.clone(),
                name: i.name.clone(),
                host_name,
                hwaddr: i.mac_address.clone(),
            });
            j += 1;
        }
        if sim.links.len() > 999 {
            return Err(invalid("too many cables"));
        }
        let mut cables: Vec<CablePlan> = Vec::new();
        let mut j: usize = 0;
        while j < sim.links.len()
            invariant
                sim.wf(),
                n == sim.nodes@.len(),
                n <= 64,
                sim.links@.len() <= 999,
                prefix@ == owner_prefix(owner@),
                forall|x: int| 0 <= x < n ==> port_count(sim.interfaces@, (#[trigger] sim.nodes@[x]).id@) <= 99,
                j <= sim.links@.len(),
                cables@.len() == j,
                forall|x: int| 0 <= x < j ==> queue_packets((#[trigger] sim.links@[x]).spec.bandwidth_bps,
                    sim.links@[x].spec.latency_ns) <= u32::MAX,
                forall|x: int| 0 <= x < j ==> cable_planned(#[trigger] cables@[x], sim.links@[x], *sim, prefix@),
            decreases sim.links@.len() - j,
        {
            let l = &sim.links[j];
            let queue = l.spec.native_queue_packets()?;
            proof {
                assert(has_key(sim.interfaces@, sim.links@[j as int].interfaces[0]@));
                lemma_link_rank_below(sim.links@, j as int);
            }
            let a = peer(sim, prefix.as_str(), l.interfaces[0].as_str());
            let b = peer(sim, prefix.as_str(), l.interfaces[1].as_str());
            let index = link_rank_of(&sim.links, l);
            let mut name = "pc".to_owned();
            append(&mut name, prefix.as_str());
            let d = digits(index, 3);
            append(&mut name, d.as_str());
            cables.push(CablePlan {
                name,
                peers: [a, b],
                latency_ns: l.spec.latency_ns,
                bandwidth_bps: l.spec.bandwidth_bps,
                queue_packets: queue,
                up: l.spec.up,
            });
            j += 1;
        }
        Ok(Plan { owner: owner.to_owned(), nodes, nics, cables })
    }

    /// Imports the topology of `manifest` and plans it under a fresh random owner
    /// token; nothing is stated of the token's value.
    pub fn plan(&self, manifest: Manifest) -> (r: Result<Plan>)
        ensures
            !config_ok(*self) ==> r is Err && r->Err_0 is Invalid,
            config_ok(*self) && !crate::manifest::json_format(manifest.format@) ==> r is Err && r->Err_0 is Unsupported,
            config_ok(*self) && crate::manifest::json_format(manifest.format@) && crate::api::blank(manifest.name@)
                ==> r is Err && r->Err_0 is Invalid,
            config_ok(*self) && crate::manifest::json_format(manifest.format@)
                && (exists|i: int| 0 <= i < manifest.content.nodes@.len()
                    && !crate::manifest::fields_known(#[trigger] manifest.content.nodes@[i].1)) ==> r is Err,
            r matches Ok(p) ==> config_ok(*self) && crate::manifest::json_format(manifest.format@)
                && exists|sim: Simulation| crate::manifest::built_from(sim, manifest) && incus_ready(*self, sim)
                    && plan_of(p, *self, sim, p.owner@),
    {
        if !config_checked(self) {
            return Err(invalid("use an ncp- project, a valid pool, an absolute socket and an exact image fingerprint"));
        }
        if !crate::manifest::is_json_format(manifest.format.as_str()) {
            return Err(crate::model::unsupported("manifest format"));
        }
        let sim = Simulator::build(&manifest)?;
        let owner = new_id();
        proof { lemma_uuid_prefix(owner@); }
        let r = self.plan_simulation(&sim, owner.as_str());
        proof {
            if r is Ok {
                assert(plan_of(r->Ok_0, *self, sim, r->Ok_0.owner@));
                assert(crate::manifest::built_from(sim, manifest));
            }
        }
        r
    }
}

proof fn lemma_memory_grows(nodes: Seq<Node>, k: int)
    requires
        0 <= k <= nodes.len(),
    ensures
        memory_total(nodes.subrange(0, k)) <= memory_total(nodes),
    decreases nodes.len() - k,
{
    if k < nodes.len() {
        lemma_memory_grows(nodes, k + 1);
        assert(nodes.subrange(0, k + 1).drop_last() =~= nodes.subrange(0, k));
    } else {
        assert(nodes.subrange(0, k) =~= nodes);
    }
}

proof fn lemma_two_digits_injective(a: nat, b: nat)
    requires
        a < 100,
        b < 100,
        two_digits(a)[0] == two_digits(b)[0],
        two_digits(a)[1] == two_digits(b)[1],
    ensures
        a == b,
{
    assert((0x30 + a / 10) as u8 == (0x30 + b / 10) as u8);
    assert((0x30 + a % 10) as u8 == (0x30 + b % 10) as u8);
    assert(a / 10 == b / 10 && a % 10 == b % 10);
}

proof fn lemma_peer_name_injective(prefix: Seq<char>, r1: nat, p1: nat, r2: nat, p2: nat)
    requires
        r1 < 100,
        p1 < 100,
        r2 < 100,
        p2 < 100,
        peer_name(prefix, r1, p1) == peer_name(prefix, r2, p2),
    ensures
        r1 == r2,
        p1 == p2,
{
    reveal_strlit("pi");
    let s1 = peer_name(prefix, r1, p1);
    let s2 = peer_name(prefix, r2, p2);
    let l: int = 2 + prefix.len() as int;
    assert(s1[l] == two_digits(r1)[0] && s2[l] == two_digits(r2)[0]);
    assert(s1[l + 1] == two_digits(r1)[1] && s2[l + 1] == two_digits(r2)[1]);
    assert(s1[l + 2] == two_digits(p1)[0] && s2[l + 2] == two_digits(p2)[0]);
    assert(s1[l + 3] == two_digits(p1)[1] && s2[l + 3] == two_digits(p2)[1]);
    lemma_two_digits_injective(r1, r2);
    lemma_two_digits_injective(p1, p2);
}

/// In a plan, distinct interfaces get distinct host-side peer names, each of
/// 14 characters, within the 15 that Linux allows an interface name.
pub proof fn lemma_peer_names_distinct(c: Config, sim: Simulation, owner: Seq<char>, p: Plan, x: int, y: int)
    requires
        sim.wf(),
        incus_ready(c, sim),
        owner.filter(not_hyphen()).len() >= 8,
        plan_of(p, c, sim, owner),
        0 <= x < sim.interfaces@.len(),
        0 <= y < sim.interfaces@.len(),
        x != y,
    ensures
        p.nics@[x].host_name@ != p.nics@[y].host_name@,
        p.nics@[x].host_name@.len() == 14,
{
    reveal_strlit("pi");
    let ifs = sim.interfaces@;
    let ns = sim.nodes@;
    let i = ifs[x];
    let j = ifs[y];
    assert(nic_planned(p.nics@[x], i, sim, owner_prefix(owner)));
    assert(nic_planned(p.nics@[y], j, sim, owner_prefix(owner)));
    assert(has_key(ns, i.node@));
    assert(has_key(ns, j.node@));
    let ax = key_index_of(ns, i.node@);
    let ay = key_index_of(ns, j.node@);
    lemma_index_of_key(ns, ax);
    lemma_index_of_key(ns, ay);
    crate::infiniband::lemma_node_rank_below(ns, ax);
    crate::infiniband::lemma_node_rank_below(ns, ay);
    crate::infiniband::lemma_port_rank_below(ifs, i.node@, i.name@, x);
    crate::infiniband::lemma_port_rank_below(ifs, j.node@, j.name@, y);
    assert(container_ok(ns[ax], sim));
    assert(container_ok(ns[ay], sim));
    let prefix = owner_prefix(owner);
    let r1 = node_rank(ns, ns[ax].spec.name@);
    let r2 = node_rank(ns, ns[ay].spec.name@);
    let p1 = port_rank(ifs, i.node@, i.name@);
    let p2 = port_rank(ifs, j.node@, j.name@);
    if p.nics@[x].host_name@ == p.nics@[y].host_name@ {
        lemma_peer_name_injective(prefix, r1, p1, r2, p2);
        if i.node@ == j.node@ {
            crate::infiniband::lemma_port_positions_distinct(sim, x, y);
        } else {
            crate::infiniband::lemma_node_positions_distinct(sim, ax, ay);
        }
    }
}

/// The position of the record with key `k`.
proof fn key_index_of<T: crate::keyed::Keyed>(s: Seq<T>, k: Seq<char>) -> (i: int)
    requires
        has_key(s, k),
    ensures
        0 <= i < s.len(),
        s[i].key() == k,
{
    choose|i: int| 0 <= i < s.len() && #[trigger] s[i].key() == k
}

} // verus!
