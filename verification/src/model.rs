//! Topology objects, their validation rules and read access to a simulation.
use vstd::prelude::*;
use crate::text::{utf8, bytes, is_alnum};
use crate::limits::Limits;
use crate::keyed::{unique_keys, has_key, str_eq};

verus! {

/// Errors of the simulator; each carries the offending name or a reason.
#[derive(Clone, Debug)]
pub enum Error {
    NotFound(String),
    Invalid(String),
    Conflict(String),
    State(String),
    NoRoute(String, String),
    Unsupported(String),
    Timeout(String),
}

pub type Result<T> = core::result::Result<T, Error>;

/// The variant of an [`Error`], without its text.
#[derive(Clone, Copy, Debug, PartialEq, Eq, Structural)]
pub enum ErrorKind {
    NotFound,
    Invalid,
    Conflict,
    State,
    NoRoute,
    Unsupported,
    Timeout,
}

impl Error {
    pub open spec fn kind(&self) -> ErrorKind {
        match self {
            Error::NotFound(_) => ErrorKind::NotFound,
            Error::Invalid(_) => ErrorKind::Invalid,
            Error::Conflict(_) => ErrorKind::Conflict,
            Error::State(_) => ErrorKind::State,
            Error::NoRoute(_, _) => ErrorKind::NoRoute,
            Error::Unsupported(_) => ErrorKind::Unsupported,
            Error::Timeout(_) => ErrorKind::Timeout,
        }
    }
}

/// The outcome a contract promises: `None` for success, else the error's kind.
pub open spec fn outcome<T>(r: Result<T>) -> Option<ErrorKind> {
    match r {
        Ok(_) => None,
        Err(e) => Some(e.kind()),
    }
}

pub fn invalid(msg: &str) -> (e: Error)
    ensures
        e is Invalid,
        e->Invalid_0@ == msg@,
{
    Error::Invalid(msg.to_owned())
}

pub fn conflict(msg: &str) -> (e: Error)
    ensures
        e is Conflict,
        e->Conflict_0@ == msg@,
{
    Error::Conflict(msg.to_owned())
}

pub fn state_error(msg: &str) -> (e: Error)
    ensures
        e is State,
        e->State_0@ == msg@,
{
    Error::State(msg.to_owned())
}

pub fn not_found(what: &String) -> (e: Error)
    ensures
        e is NotFound,
        e->NotFound_0@ == what@,
{
    Error::NotFound(what.clone())
}

pub fn unsupported(msg: &str) -> (e: Error)
    ensures
        e is Unsupported,
        e->Unsupported_0@ == msg@,
{
    Error::Unsupported(msg.to_owned())
}

/// A point in wall-clock time: seconds and nanoseconds since the Unix epoch.
#[derive(Clone, Copy, Debug, PartialEq, Eq, Structural)]
pub struct Instant {
    pub secs: i64,
    pub nanos: u32,
}

pub open spec fn instant_le(a: Instant, b: Instant) -> bool {
    a.secs < b.secs || (a.secs == b.secs && a.nanos <= b.nanos)
}

impl Instant {
    /// `self <= other` in time order.
    pub fn not_after(&self, other: &Instant) -> (r: bool)
        ensures
            r == instant_le(*self, *other),
    {
        self.secs < other.secs || (self.secs == other.secs && self.nanos <= other.nanos)
    }
}

#[derive(Clone, Copy, Debug, PartialEq, Eq, Structural)]
pub enum State {
    Inactive,
    Active,
}

#[derive(Clone, Copy, Debug, PartialEq, Eq, Structural)]
pub enum Role {
    Host,
    Switch,
}

#[derive(Clone, Copy, Debug, PartialEq, Eq, Structural)]
pub enum InterfaceType {
    Data,
    Oob,
    Pcie,
}

#[derive(Clone, Copy, Debug, PartialEq, Eq, Structural)]
pub enum ServiceType {
    SSH,
    HTTPS,
    HTTP,
    OTHER,
}

/// Declared guest resources: CPUs, memory in MiB and storage in GB.
#[derive(Clone, Copy, Debug, PartialEq, Eq, Structural)]
pub struct Resources {
    pub cpu: u32,
    pub memory: u64,
    pub storage: u64,
}

impl Resources {
    /// Two CPUs, 1024 MiB and 10 GB.
    pub fn standard() -> (r: Resources)
        ensures
            r == (Resources { cpu: 2, memory: 1024, storage: 10 }),
    {
        Resources { cpu: 2, memory: 1024, storage: 10 }
    }

    pub fn validate(&self) -> (r: Result<()>)
        ensures
            r is Ok <==> (self.cpu > 0 && self.memory > 0 && self.storage > 0),
            r is Err ==> r->Err_0 is Invalid,
    {
        if self.cpu == 0 || self.memory == 0 || self.storage == 0 {
            return Err(invalid("cpu, memory MiB, and storage GB must be positive"));
        }
        Ok(())
    }
}

/// Link conditions: rate in bits per second, one-way latency in ns, admin state.
#[derive(Clone, Copy, Debug, PartialEq, Eq, Structural)]
pub struct LinkSpec {
    pub bandwidth_bps: u64,
    pub latency_ns: u64,
    pub up: bool,
}

/// Bits of one 1500-byte packet times ns per second.
pub open spec fn packet_bit_ns() -> int {
    12_000_000_000_000int
}

pub open spec fn ceil_div(a: int, b: int) -> int {
    (a + b - 1) / b
}

/// Two bandwidth-delay products of 1500-byte packets plus 1024 packets.
pub open spec fn queue_packets(bandwidth_bps: u64, latency_ns: u64) -> int {
    2 * ceil_div(bandwidth_bps * latency_ns, packet_bit_ns()) + 1024
}

impl LinkSpec {
    /// 100 Gbit/s, 1 us, up.
    pub fn standard() -> (r: LinkSpec)
        ensures
            r == (LinkSpec { bandwidth_bps: 100_000_000_000, latency_ns: 1000, up: true }),
    {
        LinkSpec { bandwidth_bps: 100_000_000_000, latency_ns: 1000, up: true }
    }

    /// Native netem queue in packets, at 1500-byte MTU: two BDPs plus 1024 packets.
    pub fn native_queue_packets(&self) -> (r: Result<u32>)
        ensures
            r is Ok <==> queue_packets(self.bandwidth_bps, self.latency_ns) <= u32::MAX,
            r matches Ok(n) ==> n == queue_packets(self.bandwidth_bps, self.latency_ns),
            r is Err ==> r->Err_0 is Invalid,
    {
        let a = self.bandwidth_bps as u128;
        let b = self.latency_ns as u128;
        proof {
            assert(a * b <= 0xffff_ffff_ffff_ffffint * 0xffff_ffff_ffff_ffffint) by (nonlinear_arith)
                requires
                    a <= 0xffff_ffff_ffff_ffffint,
                    b <= 0xffff_ffff_ffff_ffffint,
            ;
        }
        let product: u128 = a * b;
        let d: u128 = 12_000_000_000_000;
        let bdp: u128 = (product + (d - 1)) / d;
        if bdp > 2_147_483_135 {
            return Err(invalid("native queue capacity exceeds u32 packets"));
        }
        Ok((2 * bdp + 1024) as u32)
    }

    pub fn validate(&self) -> (r: Result<()>)
        ensures
            r is Ok <==> (self.bandwidth_bps > 0 && self.latency_ns <= 1_000_000_000_000),
            r is Err ==> r->Err_0 is Invalid,
    {
        if self.bandwidth_bps == 0 || self.latency_ns > 1_000_000_000_000 {
            return Err(invalid("link needs positive bandwidth and latency <= 1000 seconds"));
        }
        Ok(())
    }
}

pub open spec fn name_byte(b: u8) -> bool {
    is_alnum(b) || b == 0x2d || b == 0x5f
}

/// 1..=63 bytes, each an ASCII letter, digit, hyphen or underscore.
pub open spec fn valid_name(b: Seq<u8>) -> bool {
    1 <= b.len() <= 63 && forall|i: int| 0 <= i < b.len() ==> name_byte(#[trigger] b[i])
}

pub fn name(value: &str) -> (r: Result<()>)
    ensures
        r is Ok <==> valid_name(utf8(value@)),
        r is Err ==> r->Err_0 is Invalid,
{
    let b = bytes(value);
    if b.len() == 0 || b.len() > 63 {
        return Err(invalid("name must contain 1..63 ASCII letters, digits, hyphens or underscores"));
    }
    let mut i: usize = 0;
    while i < b.len()
        invariant
            0 <= i <= b@.len(),
            b@ == utf8(value@),
            forall|j: int| 0 <= j < i ==> name_byte(#[trigger] b@[j]),
        decreases b@.len() - i,
    {
        let c = b[i];
        let ok = (0x30 <= c && c <= 0x39) || (0x41 <= c && c <= 0x5a) || (0x61 <= c && c <= 0x7a)
            || c == 0x2d || c == 0x5f;
        if !ok {
            return Err(invalid("name must contain 1..63 ASCII letters, digits, hyphens or underscores"));
        }
        i += 1;
    }
    Ok(())
}

} // verus!

verus! {

/// A string-keyed list of string values (labels, files); keys are unique.
pub type Pairs = Vec<(String, String)>;

pub open spec fn keys_unique(p: Seq<(String, String)>) -> bool {
    forall|i: int, j: int| 0 <= i < j < p.len() ==> p[i].0@ != p[j].0@
}

pub fn clone_pairs(p: &Pairs) -> (r: Pairs)
    ensures
        r@ == p@,
{
    let mut r: Pairs = Vec::new();
    let mut i: usize = 0;
    while i < p.len()
        invariant
            i <= p@.len(),
            r@ == p@.subrange(0, i as int),
        decreases p@.len() - i,
    {
        r.push((p[i].0.clone(), p[i].1.clone()));
        proof {
            assert(r@ =~= p@.subrange(0, i + 1));
        }
        i += 1;
    }
    proof {
        assert(r@ =~= p@);
    }
    r
}

pub fn clone_strings(p: &Vec<String>) -> (r: Vec<String>)
    ensures
        r@ == p@,
{
    let r = p.clone();
    proof {
        assert(r@ =~= p@);
    }
    r
}

/// Value of `key` in a key-unique list, if present.
pub open spec fn pair_get(p: Seq<(String, String)>, key: Seq<char>) -> Option<String>
    decreases p.len(),
{
    if p.len() == 0 {
        None
    } else if p.last().0@ == key {
        Some(p.last().1)
    } else {
        pair_get(p.drop_last(), key)
    }
}

/// The value of `key`, if present.
pub fn pairs_get<'a>(p: &'a Pairs, key: &str) -> (r: Option<&'a str>)
    ensures
        match r {
            Some(v) => pair_get(p@, key@) matches Some(w) && w@ == v@,
            None => pair_get(p@, key@) is None,
        },
{
    let mut k: usize = p.len();
    proof { assert(p@.subrange(0, k as int) =~= p@); }
    while k > 0
        invariant
            k <= p@.len(),
            pair_get(p@, key@) == pair_get(p@.subrange(0, k as int), key@),
        decreases k,
    {
        proof {
            assert(p@.subrange(0, k as int).drop_last() =~= p@.subrange(0, k - 1));
        }
        if str_eq(p[k - 1].0.as_str(), key) {
            return Some(p[k - 1].1.as_str());
        }
        k -= 1;
    }
    None
}

/// The list after `key` is set to `value`: an existing entry is replaced in
/// place, otherwise the pair is appended.
pub open spec fn pairs_put(p: Seq<(String, String)>, key: String, value: String) -> Seq<(String, String)> {
    if exists|i: int| 0 <= i < p.len() && p[i].0@ == key@ {
        p.update(choose|i: int| 0 <= i < p.len() && p[i].0@ == key@, (key, value))
    } else {
        p.push((key, value))
    }
}

pub fn pairs_insert(p: &mut Pairs, key: String, value: String)
    requires
        keys_unique(old(p)@),
    ensures
        keys_unique(final(p)@),
        final(p)@ == pairs_put(old(p)@, key, value),
{
    let mut i: usize = 0;
    while i < p.len()
        invariant
            i <= p@.len(),
            p@ == old(p)@,
            keys_unique(p@),
            forall|j: int| 0 <= j < i ==> p@[j].0@ != key@,
        decreases p@.len() - i,
    {
        if p[i].0 == key {
            let ghost before = p@;
            proof {
                let c = choose|j: int| 0 <= j < before.len() && before[j].0@ == key@;
                assert(c == i);
            }
            p.set(i, (key, value));
            proof {
                assert forall|a: int, b: int| 0 <= a < b < p@.len() implies p@[a].0@ != p@[b].0@ by {
                    if a != i && b != i {
                        assert(p@[a] == before[a] && p@[b] == before[b]);
                    }
                }
            }
            return;
        }
        i += 1;
    }
    let ghost before = p@;
    p.push((key, value));
    proof {
        assert forall|a: int, b: int| 0 <= a < b < p@.len() implies p@[a].0@ != p@[b].0@ by {
            if b < before.len() {
                assert(p@[a] == before[a] && p@[b] == before[b]);
            } else {
                assert(p@[a] == before[a]);
            }
        }
    }
}

} // verus!

verus! {

/// What a node is declared to be.
#[derive(Clone, Debug)]
pub struct NodeSpec {
    pub name: String,
    pub image: String,
    pub role: Role,
    pub resources: Resources,
    /// Label values are JSON documents in text form.
    pub labels: Pairs,
}

} // verus!

verus! {

/// Guest-visible state: hostname and files written by instructions.
#[derive(Clone, Debug)]
pub struct NodeRuntime {
    pub hostname: String,
    pub files: Pairs,
}

#[derive(Clone, Debug)]
pub struct Node {
    pub id: String,
    pub simulation: String,
    pub spec: NodeSpec,
    pub state: State,
    pub generation: u64,
    pub user_data: Option<String>,
    pub meta_data: Option<String>,
    pub management_ip: Option<String>,
    /// Image metadata kept from a manifest (`positioning`, `features`, ...), as JSON text.
    pub manifest_fields: Pairs,
    /// The node's guest runtime.
    pub runtime: NodeRuntime,
}

#[derive(Clone, Debug)]
pub struct Interface {
    pub id: String,
    pub node: String,
    pub name: String,
    pub interface_type: InterfaceType,
    pub mac_address: String,
    pub connection: Option<String>,
    pub split_parent: Option<String>,
    pub split_children: Vec<String>,
}

#[derive(Clone, Debug)]
pub struct Link {
    pub id: String,
    pub interfaces: [String; 2],
    pub spec: LinkSpec,
}

#[derive(Clone, Debug)]
pub struct Service {
    pub id: String,
    pub name: String,
    pub interface: String,
    pub node_port: u16,
    pub service_type: ServiceType,
    /// A local service descriptor is not a published tunnel: always `None`.
    pub worker_port: Option<u16>,
    pub worker_fqdn: Option<String>,
}

#[derive(Clone, Debug)]
pub enum InstructionData {
    Init { hostname: String },
    File { files: Pairs },
    Shell { commands: Vec<String> },
}

#[derive(Clone, Copy, Debug, PartialEq, Eq, Structural)]
pub enum InstructionState {
    Pending,
    Complete,
}

#[derive(Clone, Debug)]
pub struct Instruction {
    pub id: String,
    pub node: String,
    pub data: InstructionData,
    pub run_again_on_rebuild: bool,
    pub state: InstructionState,
}

#[derive(Clone, Debug)]
pub struct HistoryEntry {
    pub object_id: String,
    pub model: String,
    pub created: Instant,
    pub actor: String,
    pub description: String,
    pub severity: String,
    pub labels: Vec<String>,
}

#[derive(Clone, Debug)]
pub struct HistoryFilters {
    pub actors: Vec<String>,
    pub severities: Vec<String>,
    pub labels: Vec<String>,
}

/// A saved guest state, valid only for the exact configuration it was taken from.
#[derive(Clone, Debug)]
pub struct Checkpoint {
    pub id: String,
    pub name: String,
    pub favorite: bool,
    pub created: Instant,
    /// Node id and its runtime at capture time, in node order.
    pub runtime: Vec<(String, NodeRuntime)>,
    pub configuration: Configuration,
    /// Instruction id and its state at capture time, in instruction order.
    pub instruction_states: Vec<(String, InstructionState)>,
}

/// Everything a checkpoint depends on: nodes without state and generation,
/// interfaces, links, services, instructions without state, ZTP and OOB settings.
#[derive(Clone, Debug)]
pub struct Configuration {
    pub nodes: Vec<NodeConfig>,
    pub interfaces: Vec<Interface>,
    pub links: Vec<Link>,
    pub services: Vec<Service>,
    pub instructions: Vec<InstructionConfig>,
    pub ztp: Option<String>,
    pub oob: bool,
    pub dhcp: bool,
}

#[derive(Clone, Debug)]
pub struct NodeConfig {
    pub id: String,
    pub spec: NodeSpec,
    pub user_data: Option<String>,
    pub meta_data: Option<String>,
    pub management_ip: Option<String>,
    pub manifest_fields: Pairs,
}

#[derive(Clone, Debug)]
pub struct InstructionConfig {
    pub id: String,
    pub node: String,
    pub data: InstructionData,
    pub run_again_on_rebuild: bool,
}

#[derive(Clone, Debug)]
pub struct Reservation {
    pub link: String,
    pub from: String,
    pub free_ns: u64,
}

#[derive(Clone, Debug)]
pub struct Simulation {
    pub limits: Limits,
    pub id: String,
    pub name: String,
    pub state: State,
    pub created: Instant,
    pub modified: Instant,
    pub metadata: Option<String>,
    pub sleep_at: Option<Instant>,
    pub expires_at: Option<Instant>,
    pub auto_oob_enabled: bool,
    pub enable_dhcp: bool,
    pub nodes: Vec<Node>,
    pub interfaces: Vec<Interface>,
    pub links: Vec<Link>,
    pub services: Vec<Service>,
    pub instructions: Vec<Instruction>,
    pub checkpoints: Vec<Checkpoint>,
    pub ztp_script: Option<String>,
    pub history: Vec<HistoryEntry>,
    pub clock_ns: u64,
    pub scheduling_frontier_ns: u64,
    pub history_limit: usize,
    pub next_mac: u64,
    /// Per directed link: the time its transmitter becomes free.
    pub available: Vec<Reservation>,
}

} // verus!

verus! {

impl crate::keyed::Keyed for Node {
    open spec fn key(&self) -> Seq<char> { self.id@ }
    fn key_str(&self) -> (r: &str) { self.id.as_str() }
}
impl crate::keyed::Keyed for Interface {
    open spec fn key(&self) -> Seq<char> { self.id@ }
    fn key_str(&self) -> (r: &str) { self.id.as_str() }
}
impl crate::keyed::Keyed for Link {
    open spec fn key(&self) -> Seq<char> { self.id@ }
    fn key_str(&self) -> (r: &str) { self.id.as_str() }
}
impl crate::keyed::Keyed for Service {
    open spec fn key(&self) -> Seq<char> { self.id@ }
    fn key_str(&self) -> (r: &str) { self.id.as_str() }
}
impl crate::keyed::Keyed for Instruction {
    open spec fn key(&self) -> Seq<char> { self.id@ }
    fn key_str(&self) -> (r: &str) { self.id.as_str() }
}
impl crate::keyed::Keyed for Checkpoint {
    open spec fn key(&self) -> Seq<char> { self.id@ }
    fn key_str(&self) -> (r: &str) { self.id.as_str() }
}
impl crate::keyed::Owned for Interface {
    open spec fn owner(&self) -> Seq<char> { self.node@ }
    fn owner_str(&self) -> (r: &str) { self.node.as_str() }
}
impl crate::keyed::Owned for Service {
    open spec fn owner(&self) -> Seq<char> { self.interface@ }
    fn owner_str(&self) -> (r: &str) { self.interface.as_str() }
}
impl crate::keyed::Owned for Instruction {
    open spec fn owner(&self) -> Seq<char> { self.node@ }
    fn owner_str(&self) -> (r: &str) { self.node.as_str() }
}

} // verus!

verus! {

pub open spec fn history_after(h: Seq<HistoryEntry>, limit: usize, entry: HistoryEntry) -> Seq<HistoryEntry> {
    if limit == 0 {
        h
    } else if h.len() >= limit {
        h.subrange(h.len() - (limit - 1), h.len() as int).push(entry)
    } else {
        h.push(entry)
    }
}

/// The fields of the entry that `event` records, all but its time.
pub open spec fn entry_for(e: HistoryEntry, object_id: Seq<char>, description: Seq<char>) -> bool {
    &&& e.object_id@ == object_id
    &&& e.model@ == "simulation"@
    &&& e.actor@ == "local"@
    &&& e.description@ == description
    &&& e.severity@ == "INFO"@
    &&& e.labels@.len() == 1
    &&& e.labels@[0]@ == "simulator"@
}

/// `b` is `a` with one more event recorded; every other field but `modified` is equal.
pub open spec fn recorded(a: Simulation, b: Simulation, description: Seq<char>) -> bool {
    &&& a.history_limit == 0 ==> b.history@ == a.history@
    &&& a.history_limit > 0 ==> exists|e: HistoryEntry| entry_for(e, a.id@, description)
        && b.history@ == history_after(a.history@, a.history_limit, e)
    &&& b.limits == a.limits && b.id == a.id && b.name == a.name && b.state == a.state
    &&& b.created == a.created && b.metadata == a.metadata && b.sleep_at == a.sleep_at
    &&& b.expires_at == a.expires_at && b.auto_oob_enabled == a.auto_oob_enabled
    &&& b.enable_dhcp == a.enable_dhcp && b.nodes == a.nodes && b.interfaces == a.interfaces
    &&& b.links == a.links && b.services == a.services && b.instructions == a.instructions
    &&& b.checkpoints == a.checkpoints && b.ztp_script == a.ztp_script
    &&& b.clock_ns == a.clock_ns && b.scheduling_frontier_ns == a.scheduling_frontier_ns
    &&& b.history_limit == a.history_limit && b.next_mac == a.next_mac && b.available == a.available
}

impl Simulation {
    /// The structural invariant that every mutation keeps.
    pub open spec fn wf(&self) -> bool {
        &&& unique_keys(self.nodes@)
        &&& unique_keys(self.interfaces@)
        &&& unique_keys(self.links@)
        &&& unique_keys(self.services@)
        &&& unique_keys(self.instructions@)
        &&& unique_keys(self.checkpoints@)
        &&& forall|i: int, j: int| 0 <= i < self.nodes@.len() && 0 <= j < self.nodes@.len() && i != j
            ==> self.nodes@[i].spec.name@ != self.nodes@[j].spec.name@
        &&& forall|i: int| 0 <= i < self.nodes@.len() ==> keys_unique(#[trigger] self.nodes@[i].runtime.files@)
        &&& forall|c: int, k: int| 0 <= c < self.checkpoints@.len() && 0 <= k < self.checkpoints@[c].runtime@.len()
            ==> keys_unique(#[trigger] self.checkpoints@[c].runtime@[k].1.files@)
        &&& forall|i: int| 0 <= i < self.interfaces@.len() ==> has_key(self.nodes@, #[trigger] self.interfaces@[i].node@)
        &&& forall|i: int, j: int| 0 <= i < self.interfaces@.len() && 0 <= j < self.interfaces@.len() && i != j
            && self.interfaces@[i].node@ == self.interfaces@[j].node@
            ==> self.interfaces@[i].name@ != self.interfaces@[j].name@
        &&& forall|i: int| 0 <= i < self.links@.len() ==> {
            &&& has_key(self.interfaces@, #[trigger] self.links@[i].interfaces[0]@)
            &&& has_key(self.interfaces@, self.links@[i].interfaces[1]@)
        }
        &&& forall|i: int| 0 <= i < self.services@.len() ==> has_key(self.interfaces@, #[trigger] self.services@[i].interface@)
        &&& forall|i: int| 0 <= i < self.instructions@.len() ==> has_key(self.nodes@, #[trigger] self.instructions@[i].node@)
        &&& self.history@.len() <= self.history_limit
    }

    pub fn id(&self) -> (r: &str)
        ensures
            r@ == self.id@,
    {
        self.id.as_str()
    }

    pub fn name(&self) -> (r: &str)
        ensures
            r@ == self.name@,
    {
        self.name.as_str()
    }

    pub fn state(&self) -> (r: State)
        ensures
            r == self.state,
    {
        self.state
    }

    pub fn clock_ns(&self) -> (r: u64)
        ensures
            r == self.clock_ns,
    {
        self.clock_ns
    }

    pub fn node(&self, id: &str) -> (r: Result<&Node>)
        ensures
            r matches Ok(n) ==> self.nodes@.contains(*n) && n.id@ == id@,
            r is Err <==> !crate::keyed::has_key(self.nodes@, id@),
            r is Err ==> r->Err_0 is NotFound,
    {
        match crate::keyed::find(&self.nodes, id) {
            Some(i) => Ok(&self.nodes[i]),
            None => Err(Error::NotFound(id.to_owned())),
        }
    }

    pub fn interface(&self, id: &str) -> (r: Result<&Interface>)
        ensures
            r matches Ok(n) ==> self.interfaces@.contains(*n) && n.id@ == id@,
            r is Err <==> !crate::keyed::has_key(self.interfaces@, id@),
            r is Err ==> r->Err_0 is NotFound,
    {
        match crate::keyed::find(&self.interfaces, id) {
            Some(i) => Ok(&self.interfaces[i]),
            None => Err(Error::NotFound(id.to_owned())),
        }
    }

    /// `Ok` exactly when the simulation is inactive.
    pub fn inactive(&self) -> (r: Result<()>)
        ensures
            r is Ok <==> self.state == State::Inactive,
            r is Err ==> r->Err_0 is State,
    {
        if self.state != State::Inactive {
            return Err(state_error("topology edits require INACTIVE"));
        }
        Ok(())
    }

    /// `Ok` exactly when the simulation is active.
    pub fn active(&self) -> (r: Result<()>)
        ensures
            r is Ok <==> self.state == State::Active,
            r is Err ==> r->Err_0 is State,
    {
        if self.state != State::Active {
            return Err(state_error("operation requires ACTIVE"));
        }
        Ok(())
    }

    /// Records an event, retaining at most `history_limit` entries.
    pub fn event(&mut self, description: &str)
        ensures
            recorded(*old(self), *final(self), description@),
    {
        self.modified = crate::outside::now();
        if self.history_limit == 0 {
            return;
        }
        if self.history.len() >= self.history_limit {
            let excess = self.history.len() - (self.history_limit - 1);
            let kept = self.history.split_off(excess);
            self.history = kept;
        }
        let mut labels: Vec<String> = Vec::new();
        labels.push("simulator".to_owned());
        let entry = HistoryEntry {
            object_id: self.id.clone(),
            model: "simulation".to_owned(),
            created: self.modified,
            actor: "local".to_owned(),
            description: description.to_owned(),
            severity: "INFO".to_owned(),
            labels,
        };
        proof {
            reveal_strlit("simulation");
            reveal_strlit("local");
            reveal_strlit("INFO");
            reveal_strlit("simulator");
            assert(entry_for(entry, old(self).id@, description@));
        }
        self.history.push(entry);
    }
}


/// Equal simulations, with collections compared by their contents.
pub open spec fn same_sim(a: Simulation, b: Simulation) -> bool {
    &&& a.limits == b.limits && a.id == b.id && a.name == b.name && a.state == b.state
    &&& a.created == b.created && a.modified == b.modified && a.metadata == b.metadata
    &&& a.sleep_at == b.sleep_at && a.expires_at == b.expires_at
    &&& a.auto_oob_enabled == b.auto_oob_enabled && a.enable_dhcp == b.enable_dhcp
    &&& a.nodes@ == b.nodes@ && a.interfaces@ == b.interfaces@ && a.links@ == b.links@
    &&& a.services@ == b.services@ && a.instructions@ == b.instructions@
    &&& a.checkpoints@ == b.checkpoints@ && a.ztp_script == b.ztp_script && a.history@ == b.history@
    &&& a.clock_ns == b.clock_ns && a.scheduling_frontier_ns == b.scheduling_frontier_ns
    &&& a.history_limit == b.history_limit && a.next_mac == b.next_mac && a.available@ == b.available@
}

/// Every field but the nodes (and the modification time) is equal.
pub open spec fn same_but_nodes(a: Simulation, b: Simulation) -> bool {
    &&& a.limits == b.limits && a.id == b.id && a.name == b.name && a.state == b.state
    &&& a.created == b.created && a.metadata == b.metadata
    &&& a.sleep_at == b.sleep_at && a.expires_at == b.expires_at
    &&& a.auto_oob_enabled == b.auto_oob_enabled && a.enable_dhcp == b.enable_dhcp
    &&& a.interfaces@ == b.interfaces@ && a.links@ == b.links@
    &&& a.services@ == b.services@ && a.instructions@ == b.instructions@
    &&& a.checkpoints@ == b.checkpoints@ && a.ztp_script == b.ztp_script
    &&& a.clock_ns == b.clock_ns && a.scheduling_frontier_ns == b.scheduling_frontier_ns
    &&& a.history_limit == b.history_limit && a.next_mac == b.next_mac && a.available@ == b.available@
}

} // verus!

verus! {

impl crate::keyed::Keyed for Reservation {
    open spec fn key(&self) -> Seq<char> { self.link@ }
    fn key_str(&self) -> (r: &str) { self.link.as_str() }
}

/// Recording an event keeps the invariant.
pub proof fn lemma_recorded_wf(a: Simulation, b: Simulation, description: Seq<char>)
    requires
        a.wf(),
        recorded(a, b, description),
    ensures
        b.wf(),
{
    assert forall|c: int, k: int| 0 <= c < b.checkpoints@.len() && 0 <= k < b.checkpoints@[c].runtime@.len()
        implies keys_unique(#[trigger] b.checkpoints@[c].runtime@[k].1.files@) by {
        assert(b.checkpoints@[c] == a.checkpoints@[c]);
    }
    if a.history_limit > 0 {
        let e = choose|e: HistoryEntry| entry_for(e, a.id@, description)
            && b.history@ == history_after(a.history@, a.history_limit, e);
        assert(b.history@.len() <= b.history_limit);
    }
}

pub fn clone_opt_string(a: &Option<String>) -> (r: Option<String>)
    ensures
        r == *a,
{
    match a {
        Some(x) => Some(x.clone()),
        None => None,
    }
}

} // verus!
